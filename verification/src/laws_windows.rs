//! Laws of windows: which picks count, which are dropped for their order at a
//! station, and which windows are made of the rest.
use vstd::prelude::*;

use crate::cluster::{climbing, Cluster};
use crate::laws_clocks::sorted_by_holds;
use crate::locator::{missing, observed, parameters, unusable, usable};
use crate::mean::Fraction;
use crate::model::{Phase, Pick, SolverInput};
use crate::order::{sorted_in_order, sorted_members, Ranked};
use crate::planner::{
    all_rejected, by_time, full, full_ones, input_error, listed_first, multi_station, plan_steps,
    ready, repeats, split_clusters, starts_first,
};
use crate::precheck::{
    arrivals_at, dropped_at, drops, impossible_pair, station_drops, station_order, stations_of,
    with, Arrival,
};
use crate::solver_types::{rejection, Observation, Rejection};
use crate::text::text_le;
use crate::windows::{
    entered, keyed, keyed_is, nearest, nearest_is, target, time_max, time_min, time_sum,
    window_over, Assigned, Window,
};

verus! {

/// A pick counts unless a pick made by hand relates to it.
pub proof fn picks_made_by_hand_replace_others(
    input: SolverInput,
    all: Seq<usize>,
    names: Seq<Seq<char>>,
    kept: Seq<usize>,
    clusters: Seq<Cluster>,
    result: Assigned,
    k: usize,
)
    requires
        plan_steps(input, all, names, kept, clusters, result),
    ensures
        all.contains(k) <==> k < input.picks@.len() && forall|j: int|
            0 <= j < input.picks@.len() && (#[trigger] input.picks@[j]).source@ == "manual"@ ==> !(
            input.picks@[j].related_id matches Some(r) && r@ == input.picks@[k as int].id@),
        forall|i: int, j: int| 0 <= i < j < all.len() ==> (#[trigger] all[i]) < #[trigger] all[j],
{
}

/// Whether a pick comes before another: it is earlier, or at the same time and
/// listed before.
pub open spec fn precedes(picks: Seq<Pick>, a: usize, b: usize) -> bool {
    picks[a as int].corrected_time < picks[b as int].corrected_time || (
    picks[a as int].corrected_time == picks[b as int].corrected_time && a < b)
}

/// Whether a pick is the next after another at their station.
pub open spec fn next_at_station(picks: Seq<Pick>, all: Seq<usize>, a: usize, b: usize) -> bool {
    &&& all.contains(a)
    &&& all.contains(b)
    &&& picks[a as int].station_id@ == picks[b as int].station_id@
    &&& precedes(picks, a, b)
    &&& forall|c: usize| #[trigger]
        all.contains(c) && picks[c as int].station_id@ == picks[a as int].station_id@ ==> !(
        precedes(picks, a, c) && precedes(picks, c, b))
}

/// Whether two picks that follow each other are less than half a second apart;
/// an S arrival after a P arrival may be short of that by a billionth.
pub open spec fn too_close(a: Pick, b: Pick) -> bool {
    let dt = b.corrected_time - a.corrected_time;
    if a.phase == Phase::P && b.phase == Phase::S {
        dt < 499_999_999
    } else {
        dt < 500_000_000
    }
}

/// Whether a pick and one next to it at its station are too close.
pub open spec fn crowded(picks: Seq<Pick>, all: Seq<usize>, x: usize) -> bool {
    exists|a: usize, b: usize| #[trigger]
        next_at_station(picks, all, a, b) && too_close(picks[a as int], picks[b as int]) && (x == a
            || x == b)
}

/// The arrivals at a station are those of its picks, each once.
proof fn arrivals_hold(picks: Seq<Pick>, ids: Seq<usize>, station: Seq<char>)
    requires
        ids.no_duplicates(),
    ensures
        forall|x: Arrival| #[trigger]
            arrivals_at(picks, ids, station).contains(x) <==> ids.contains(x.index)
                && picks[x.index as int].station_id@ == station && x.time
                == picks[x.index as int].corrected_time,
        arrivals_at(picks, ids, station).no_duplicates(),
    decreases ids.len(),
{
    if ids.len() > 0 {
        let t = ids.drop_last();
        let last = ids.last();
        assert(t.no_duplicates()) by {
            assert forall|i: int, j: int|
                0 <= i < t.len() && 0 <= j < t.len() && i != j implies t[i] != t[j] by {
                assert(ids[i] != ids[j]);
            }
        }
        arrivals_hold(picks, t, station);
        let (before, after) = (arrivals_at(picks, t, station), arrivals_at(picks, ids, station));
        let own = Arrival { time: picks[last as int].corrected_time, index: last };
        assert(!t.contains(last)) by {
            if t.contains(last) {
                let i = choose|i: int| 0 <= i < t.len() && t[i] == last;
                assert(ids[i] != ids[ids.len() - 1]);
            }
        }
        assert forall|x: Arrival| #[trigger] after.contains(x) <==> ids.contains(x.index)
            && picks[x.index as int].station_id@ == station && x.time
            == picks[x.index as int].corrected_time by {
            if t.contains(x.index) {
                let i = choose|i: int| 0 <= i < t.len() && t[i] == x.index;
                assert(ids[i] == x.index);
            }
            if ids.contains(x.index) && x.index != last {
                let i = choose|i: int| 0 <= i < ids.len() && ids[i] == x.index;
                assert(t[i] == x.index);
            }
            assert(ids[ids.len() - 1] == last);
            if before.contains(x) {
                let i = choose|i: int| 0 <= i < before.len() && before[i] == x;
                assert(after[i] == x);
            }
            if after.contains(x) && !before.contains(x) {
                let i = choose|i: int| 0 <= i < after.len() && after[i] == x;
                if i < before.len() {
                    assert(before[i] == x);
                }
            }
            if picks[last as int].station_id@ == station {
                assert(after[after.len() - 1] == own);
            }
        }
        assert(!before.contains(own));
        assert forall|i: int, j: int|
            0 <= i < after.len() && 0 <= j < after.len() && i != j implies after[i] != after[j] by {
            if i < before.len() && j < before.len() {
                assert(before[i] != before[j]);
            } else if i < before.len() {
                assert(before.contains(before[i]));
            } else {
                assert(before.contains(before[j]));
            }
        }
    }
}

/// What one more adds.
proof fn with_one(s: Seq<usize>, x: usize, y: usize)
    ensures
        with(s, x).contains(y) <==> s.contains(y) || y == x,
{
    let r = with(s, x);
    if !s.contains(x) {
        if s.contains(y) {
            let i = choose|i: int| 0 <= i < s.len() && s[i] == y;
            assert(r[i] == y);
        }
        assert(r[s.len() as int] == x);
    }
}

/// The picks that are dropped at a station are in a pair that is impossible.
proof fn dropped_holds(picks: Seq<Pick>, arrivals: Seq<Arrival>, k: int, x: usize)
    ensures
        dropped_at(picks, arrivals, k).contains(x) <==> exists|i: int|
            0 < i <= k && #[trigger] pair_at(picks, arrivals, i, x),
    decreases k,
{
    if k > 0 {
        dropped_holds(picks, arrivals, k - 1, x);
        let before = dropped_at(picks, arrivals, k - 1);
        let a = arrivals[k - 1].index;
        let b = arrivals[k].index;
        with_one(before, a, x);
        with_one(with(before, a), b, x);
        if dropped_at(picks, arrivals, k).contains(x) && !before.contains(x) {
            assert(pair_at(picks, arrivals, k, x));
        }
        if exists|i: int| 0 < i <= k && #[trigger] pair_at(picks, arrivals, i, x) {
            let i = choose|i: int| 0 < i <= k && #[trigger] pair_at(picks, arrivals, i, x);
            if i < k {
                assert(before.contains(x));
            }
        }
    }
}

/// Whether a pick is one of an impossible pair at a place.
spec fn pair_at(picks: Seq<Pick>, arrivals: Seq<Arrival>, i: int, x: usize) -> bool {
    let (a, b) = (arrivals[i - 1].index, arrivals[i].index);
    impossible_pair(picks[a as int], picks[b as int]) && (x == a || x == b)
}

/// The arrivals of a station in order, one next to the other.
proof fn order_is(picks: Seq<Pick>, all: Seq<usize>, station: Seq<char>)
    requires
        climbing(all),
    ensures
        ({
            let s = station_order(picks, all, station);
            &&& forall|i: int|
                0 <= i < s.len() ==> all.contains((#[trigger] s[i]).index)
                    && picks[s[i].index as int].station_id@ == station && s[i].time
                    == picks[s[i].index as int].corrected_time
            &&& forall|c: usize| #[trigger]
                all.contains(c) && picks[c as int].station_id@ == station ==> exists|i: int|
                    0 <= i < s.len() && (#[trigger] s[i]).index == c
            &&& forall|i: int, j: int|
                0 <= i < j < s.len() ==> precedes(
                    picks,
                    (#[trigger] s[i]).index,
                    (#[trigger] s[j]).index,
                )
        }),
{
    let raw = arrivals_at(picks, all, station);
    let s = station_order(picks, all, station);
    assert(all.no_duplicates());
    arrivals_hold(picks, all, station);
    sorted_members(raw);
    sorted_in_order(raw);
    assert forall|i: int| 0 <= i < s.len() implies all.contains((#[trigger] s[i]).index)
        && picks[s[i].index as int].station_id@ == station && s[i].time
        == picks[s[i].index as int].corrected_time by {
        assert(s.contains(s[i]));
        assert(raw.contains(s[i]));
    }
    assert forall|c: usize| #[trigger]
        all.contains(c) && picks[c as int].station_id@ == station implies exists|i: int|
        0 <= i < s.len() && (#[trigger] s[i]).index == c by {
        let x = Arrival { time: picks[c as int].corrected_time, index: c };
        assert(raw.contains(x));
        assert(s.contains(x));
        let i = choose|i: int| 0 <= i < s.len() && s[i] == x;
        assert(s[i].index == c);
    }
    assert forall|i: int, j: int| 0 <= i < j < s.len() implies precedes(
        picks,
        (#[trigger] s[i]).index,
        (#[trigger] s[j]).index,
    ) by {
        assert(Arrival::comes_first(s[i], s[j]));
        assert(s[i] != s[j]);
    }
}

/// The picks that are dropped at a station are those that are too close to one
/// next to them.
proof fn station_drops_hold(picks: Seq<Pick>, all: Seq<usize>, station: Seq<char>, x: usize)
    requires
        climbing(all),
    ensures
        station_drops(picks, all, station).contains(x) <==> exists|a: usize, b: usize| #[trigger]
            next_at_station(picks, all, a, b) && too_close(picks[a as int], picks[b as int]) && (x
                == a || x == b) && picks[a as int].station_id@ == station,
{
    let s = station_order(picks, all, station);
    order_is(picks, all, station);
    dropped_holds(picks, s, s.len() - 1, x);
    if station_drops(picks, all, station).contains(x) {
        let i = choose|i: int| 0 < i <= s.len() - 1 && #[trigger] pair_at(picks, s, i, x);
        let (a, b) = (s[i - 1].index, s[i].index);
        assert(precedes(picks, a, b));
        assert forall|c: usize| #[trigger]
            all.contains(c) && picks[c as int].station_id@ == picks[a as int].station_id@ implies !(
        precedes(picks, a, c) && precedes(picks, c, b)) by {
            let m = choose|m: int| 0 <= m < s.len() && (#[trigger] s[m]).index == c;
            if m < i - 1 {
                assert(precedes(picks, s[m].index, s[i - 1].index));
            } else if m > i {
                assert(precedes(picks, s[i].index, s[m].index));
            }
        }
        assert(next_at_station(picks, all, a, b));
        assert(too_close(picks[a as int], picks[b as int]));
    }
    if exists|a: usize, b: usize| #[trigger]
        next_at_station(picks, all, a, b) && too_close(picks[a as int], picks[b as int]) && (x == a
            || x == b) && picks[a as int].station_id@ == station {
        let (a, b) = choose|a: usize, b: usize| #[trigger]
            next_at_station(picks, all, a, b) && too_close(picks[a as int], picks[b as int]) && (x
                == a || x == b) && picks[a as int].station_id@ == station;
        assert(all.contains(a) && all.contains(b));
        let i = choose|i: int| 0 <= i < s.len() && (#[trigger] s[i]).index == a;
        let j = choose|j: int| 0 <= j < s.len() && (#[trigger] s[j]).index == b;
        if j < i {
            assert(precedes(picks, s[j].index, s[i].index));
        }
        if j > i + 1 {
            let c = s[i + 1].index;
            assert(precedes(picks, s[i].index, s[i + 1].index));
            assert(precedes(picks, s[i + 1].index, s[j].index));
            assert(all.contains(c));
        }
        assert(j == i + 1);
        assert(impossible_pair(picks[a as int], picks[b as int]));
        assert(pair_at(picks, s, j, x));
    }
}

/// The picks that are dropped at some stations.
proof fn drops_hold(
    picks: Seq<Pick>,
    all: Seq<usize>,
    stations: Seq<Seq<char>>,
    n: int,
    x: usize,
)
    requires
        climbing(all),
        0 <= n <= stations.len(),
    ensures
        drops(picks, all, stations, n).contains(x) <==> exists|k: int|
            0 <= k < n && station_drops(picks, all, #[trigger] stations[k]).contains(x),
    decreases n,
{
    if n > 0 {
        drops_hold(picks, all, stations, n - 1, x);
        let before = drops(picks, all, stations, n - 1);
        let own = station_drops(picks, all, stations[n - 1]);
        let after = drops(picks, all, stations, n);
        if before.contains(x) {
            let i = choose|i: int| 0 <= i < before.len() && before[i] == x;
            assert(after[i] == x);
        }
        if own.contains(x) {
            let i = choose|i: int| 0 <= i < own.len() && own[i] == x;
            assert(after[before.len() + i] == x);
        }
        if after.contains(x) {
            let i = choose|i: int| 0 <= i < after.len() && after[i] == x;
            if i < before.len() {
                assert(before[i] == x);
            } else {
                assert(own[i - before.len()] == x);
                assert(own.contains(x));
            }
        }
    }
}

/// A pick that counts is dropped exactly where it is less than half a second
/// from the one before it or the one after it at its station; it is then
/// rejected for that, and goes into no cluster.
pub proof fn crowded_picks_are_dropped(
    input: SolverInput,
    all: Seq<usize>,
    names: Seq<Seq<char>>,
    kept: Seq<usize>,
    clusters: Seq<Cluster>,
    result: Assigned,
    x: usize,
)
    requires
        plan_steps(input, all, names, kept, clusters, result),
        all.contains(x),
    ensures
        kept.contains(x) <==> !crowded(input.picks@, all, x),
{
    let picks = input.picks@;
    let dropped = drops(picks, all, names, names.len() as int);
    drops_hold(picks, all, names, names.len() as int, x);
    if dropped.contains(x) {
        let k = choose|k: int|
            0 <= k < names.len() && station_drops(picks, all, #[trigger] names[k]).contains(x);
        station_drops_hold(picks, all, names[k], x);
        let (a, b) = choose|a: usize, b: usize| #[trigger]
            next_at_station(picks, all, a, b) && too_close(picks[a as int], picks[b as int]) && (x
                == a || x == b) && picks[a as int].station_id@ == names[k];
        assert(next_at_station(picks, all, a, b));
        assert(crowded(picks, all, x));
    }
    if crowded(picks, all, x) {
        let (a, b) = choose|a: usize, b: usize| #[trigger]
            next_at_station(picks, all, a, b) && too_close(picks[a as int], picks[b as int]) && (x
                == a || x == b);
        let station = picks[a as int].station_id@;
        let i = choose|i: int| 0 <= i < all.len() && all[i] == a;
        assert(stations_of(picks, all)[i] == station);
        assert(stations_of(picks, all).contains(station));
        assert(names.contains(station));
        let k = choose|k: int| 0 <= k < names.len() && names[k] == station;
        station_drops_hold(picks, all, names[k], x);
        assert(station_drops(picks, all, names[k]).contains(x));
    }
}

/// The earliest and the latest time of picks are times of theirs, and all
/// others are between.
proof fn times_between(picks: Seq<Pick>, ids: Seq<usize>)
    requires
        ids.len() > 0,
    ensures
        forall|i: int|
            0 <= i < ids.len() ==> time_min(picks, ids) <= picks[(
            #[trigger] ids[i]) as int].corrected_time <= time_max(picks, ids),
        exists|i: int|
            0 <= i < ids.len() && picks[(#[trigger] ids[i]) as int].corrected_time == time_min(
                picks,
                ids,
            ),
        exists|i: int|
            0 <= i < ids.len() && picks[(#[trigger] ids[i]) as int].corrected_time == time_max(
                picks,
                ids,
            ),
    decreases ids.len(),
{
    let n = ids.len() - 1;
    if n > 0 {
        let t = ids.drop_last();
        times_between(picks, t);
        assert forall|i: int| 0 <= i < n implies #[trigger] t[i] == ids[i] by {}
        assert forall|i: int| 0 <= i < ids.len() implies time_min(picks, ids) <= picks[(
        #[trigger] ids[i]) as int].corrected_time <= time_max(picks, ids) by {
            if i < n {
                assert(t[i] == ids[i]);
            }
        }
        let a = choose|a: int|
            0 <= a < t.len() && picks[(#[trigger] t[a]) as int].corrected_time == time_min(picks, t);
        let b = choose|b: int|
            0 <= b < t.len() && picks[(#[trigger] t[b]) as int].corrected_time == time_max(picks, t);
        assert(ids[a] == t[a] && ids[b] == t[b]);
        assert(ids[n] == ids.last());
    } else {
        assert(ids[0] == ids.last());
    }
}

/// Sums of times add up.
proof fn sums_add(picks: Seq<Pick>, a: Seq<usize>, b: Seq<usize>)
    ensures
        time_sum(picks, a + b) == time_sum(picks, a) + time_sum(picks, b),
    decreases b.len(),
{
    if b.len() > 0 {
        sums_add(picks, a, b.drop_last());
        assert((a + b).drop_last() =~= a + b.drop_last());
    } else {
        assert(a + b =~= a);
    }
}

/// A window goes from the earliest of its picks to the latest; its mean is
/// their sum over their number, and sums of times add up.
pub proof fn windows_span_their_picks(picks: Seq<Pick>, index: nat, ids: Seq<usize>, i: int)
    requires
        0 <= i < ids.len(),
    ensures
        ({
            let w = window_over(picks, index, ids);
            &&& w.picks == ids
            &&& w.min_time <= picks[ids[i] as int].corrected_time <= w.max_time
            &&& exists|k: int|
                0 <= k < ids.len() && picks[(#[trigger] ids[k]) as int].corrected_time == w.min_time
            &&& exists|k: int|
                0 <= k < ids.len() && picks[(#[trigger] ids[k]) as int].corrected_time == w.max_time
            &&& w.centroid_time.count == ids.len()
            &&& w.centroid_time.sum == time_sum(picks, ids.take(i)) + picks[ids[i] as int].corrected_time
                + time_sum(picks, ids.skip(i + 1))
        }),
        time_sum(picks, Seq::empty()) == 0,
{
    times_between(picks, ids);
    let (a, b) = (ids.take(i), ids.skip(i + 1));
    let own = seq![ids[i]];
    assert(own.drop_last() =~= Seq::<usize>::empty());
    assert(time_sum(picks, own.drop_last()) == 0);
    assert(time_sum(picks, own) == picks[ids[i] as int].corrected_time);
    sums_add(picks, a, own);
    sums_add(picks, a + own, b);
    assert(a + own + b =~= ids);
}

/// A cluster of picks at two stations at least becomes a window; the picks of
/// any other are rejected for standing alone.
pub proof fn clusters_of_two_stations_become_windows(
    picks: Seq<Pick>,
    clusters: Seq<Cluster>,
    s: Assigned,
    g: int,
    n: int,
)
    requires
        0 <= g < n <= clusters.len(),
    ensures
        ({
            let ids = clusters[g].members@;
            let r = split_clusters(picks, clusters, n, s);
            let many = exists|i: int, j: int|
                0 <= i < ids.len() && 0 <= j < ids.len() && picks[(
                #[trigger] ids[i]) as int].station_id@ != picks[(
                #[trigger] ids[j]) as int].station_id@;
            &&& many ==> exists|k: int|
                0 <= k < r.windows.len() && (#[trigger] r.windows[k]) == window_over(
                    picks,
                    k as nat,
                    ids,
                )
            &&& !many ==> forall|i: int|
                0 <= i < ids.len() ==> r.rejected.contains(
                    rejection(
                        picks[(#[trigger] ids[i]) as int],
                        "does not form a multi-station event window"@,
                    ),
                )
        }),
        s.windows.len() == 0 ==> forall|k: int|
            0 <= k < split_clusters(picks, clusters, n, s).windows.len() ==> exists|h: int|
                0 <= h < n && (#[trigger] clusters[h]).members@ == (#[trigger] split_clusters(
                    picks,
                    clusters,
                    n,
                    s,
                ).windows[k]).picks && multi_station(picks, clusters[h].members@),
    decreases n,
{
    let before = split_clusters(picks, clusters, n - 1, s);
    let r = split_clusters(picks, clusters, n, s);
    let own = clusters[n - 1].members@;
    let alone = all_rejected(picks, own, crate::planner::alone_reason());
    assert(forall|k: int| 0 <= k < before.windows.len() ==> r.windows[k] == before.windows[k]);
    assert(forall|k: int| 0 <= k < before.rejected.len() ==> r.rejected[k] == before.rejected[k]);
    if g < n - 1 {
        clusters_of_two_stations_become_windows(picks, clusters, s, g, n - 1);
        let ids = clusters[g].members@;
        let many = multi_station(picks, ids);
        if many {
            let k = choose|k: int|
                0 <= k < before.windows.len() && (#[trigger] before.windows[k]) == window_over(
                    picks,
                    k as nat,
                    ids,
                );
            assert(r.windows[k] == window_over(picks, k as nat, ids));
        } else {
            assert forall|i: int| 0 <= i < ids.len() implies r.rejected.contains(
                rejection(
                    picks[(#[trigger] ids[i]) as int],
                    "does not form a multi-station event window"@,
                ),
            ) by {
                let x = rejection(
                    picks[ids[i] as int],
                    "does not form a multi-station event window"@,
                );
                let m = choose|m: int| 0 <= m < before.rejected.len() && before.rejected[m] == x;
                assert(r.rejected[m] == x);
            }
        }
    } else {
        if multi_station(picks, own) {
            let k = before.windows.len() as int;
            assert(r.windows[k] == window_over(picks, k as nat, own));
        } else {
            assert forall|i: int| 0 <= i < own.len() implies r.rejected.contains(
                rejection(
                    picks[(#[trigger] own[i]) as int],
                    "does not form a multi-station event window"@,
                ),
            ) by {
                assert(alone[i] == r.rejected[before.rejected.len() + i]);
            }
        }
    }
    if s.windows.len() == 0 {
        if n > 1 {
            clusters_of_two_stations_become_windows(picks, clusters, s, 0, n - 1);
        }
        assert forall|k: int| 0 <= k < r.windows.len() implies exists|h: int|
            0 <= h < n && (#[trigger] clusters[h]).members@ == (#[trigger] r.windows[k]).picks
                && multi_station(picks, clusters[h].members@) by {
            if k < before.windows.len() {
                assert(n > 1);
                assert(before.windows[k] == r.windows[k]);
                let h = choose|h: int|
                    0 <= h < n - 1 && (#[trigger] clusters[h]).members@ == before.windows[k].picks
                        && multi_station(picks, clusters[h].members@);
                assert(clusters[h].members@ == r.windows[k].picks);
            } else {
                assert(clusters[n - 1].members@ == r.windows[k].picks);
            }
        }
    }
}

/// Of the windows after all locks those remain that hold two picks at least, in
/// the order of their starts, and nothing of them changes but their names.
pub proof fn windows_of_two_picks_remain(ws: Seq<Window>, w: Window, k: int)
    ensures
        ws.contains(w) && w.picks.len() >= 2 ==> exists|i: int|
            0 <= i < ready(ws).len() && (#[trigger] ready(ws)[i]).picks == w.picks
                && ready(ws)[i].min_time == w.min_time && ready(ws)[i].max_time == w.max_time
                && ready(ws)[i].centroid_time == w.centroid_time,
        0 <= k < ready(ws).len() ==> exists|j: int|
            0 <= j < ws.len() && (#[trigger] ws[j]).picks.len() >= 2 && ws[j].picks
                == ready(ws)[k].picks && ws[j].min_time == ready(ws)[k].min_time && ws[j].max_time
                == ready(ws)[k].max_time,
{
    let f = |w: Window| full(w);
    let some = full_ones(ws);
    let order = by_time(some);
    let first = |a: Window, b: Window| starts_first(a, b);
    if ws.contains(w) && w.picks.len() >= 2 {
        let i = choose|i: int| 0 <= i < ws.len() && ws[i] == w;
        assert(f(w));
        ws.lemma_filter_contains(f, i);
        assert(some.contains(w));
        sorted_by_holds(some, first, w);
        let p = choose|p: int| 0 <= p < order.len() && order[p] == w;
        assert(ready(ws)[p].picks == w.picks);
    }
    if 0 <= k < ready(ws).len() {
        let x = order[k];
        assert(order.contains(x));
        sorted_by_holds(some, first, x);
        let m = choose|m: int| 0 <= m < some.len() && some[m] == x;
        assert(ws.filter(f)[m] == x);
        ws.lemma_filter_contains_rev(f, x);
        let j = choose|j: int| 0 <= j < ws.len() && ws[j] == x;
        assert(f(x)) by {
            ws.lemma_filter_pred(f, m);
        }
        assert(ws[j].picks.len() >= 2);
    }
}

/// How far a mean is from a time, taken as often as it has terms.
pub open spec fn off_by(m: Fraction, t: int) -> int {
    let d = m.sum - m.count * t;
    if d >= 0 {
        d
    } else {
        -d
    }
}

/// A tied pick goes to the first window with the name of its event. Where none
/// has it, it goes to the window whose mean is nearest to its time: no other is
/// nearer.
pub proof fn tied_picks_go_to_their_window(ws: Seq<Window>, anchor: Seq<char>, t: int, i: int)
    requires
        0 <= i < ws.len(),
        forall|k: int| 0 <= k < ws.len() ==> (#[trigger] ws[k]).centroid_time.count > 0,
    ensures
        ({
            let h = target(ws, anchor, t);
            let known = exists|k: int| 0 <= k < ws.len() && (#[trigger] ws[k]).key == anchor;
            &&& 0 <= h < ws.len()
            &&& known ==> ws[h].key == anchor && (ws[i].key == anchor ==> h <= i)
            &&& !known ==> off_by(ws[h].centroid_time, t) * ws[i].centroid_time.count <= off_by(
                ws[i].centroid_time,
                t,
            ) * ws[h].centroid_time.count
        }),
{
    keyed_is(ws, anchor);
    nearest_is(ws, t, ws.len() as int);
    nearest_is_nearest(ws, t, ws.len() as int, i);
    if exists|k: int| 0 <= k < ws.len() && (#[trigger] ws[k]).key == anchor {
        let k = choose|k: int| 0 <= k < ws.len() && (#[trigger] ws[k]).key == anchor;
        assert(keyed(ws, anchor) <= k);
    }
}

/// No window is nearer than the nearest.
proof fn nearest_is_nearest(ws: Seq<Window>, t: int, n: int, i: int)
    requires
        0 < n <= ws.len(),
        0 <= i < ws.len(),
        forall|k: int| 0 <= k < ws.len() ==> (#[trigger] ws[k]).centroid_time.count > 0,
    ensures
        i < n ==> off_by(ws[nearest(ws, t, n)].centroid_time, t) * ws[i].centroid_time.count
            <= off_by(ws[i].centroid_time, t) * ws[nearest(ws, t, n)].centroid_time.count,
    decreases n,
{
    if n > 1 {
        nearest_is_nearest(ws, t, n - 1, i);
        nearest_is(ws, t, n - 1);
        let best = nearest(ws, t, n - 1);
        let (a, b, c) = (ws[n - 1].centroid_time, ws[best].centroid_time, ws[i].centroid_time);
        let (x, y, z) = (off_by(a, t), off_by(b, t), off_by(c, t));
        assert(crate::mean::apart_by(a, t) == x && crate::mean::apart_by(b, t) == y);
        if i < n - 1 && nearest(ws, t, n) == n - 1 {
            assert(x * b.count <= y * a.count);
            assert(y * c.count <= z * b.count);
            chained(x, a.count, y, b.count, z, c.count);
        }
    }
}

/// Fractions are chained.
proof fn chained(x: int, a: int, y: int, b: int, z: int, c: int)
    requires
        a > 0,
        b > 0,
        c > 0,
        x * b <= y * a,
        y * c <= z * b,
    ensures
        x * c <= z * a,
{
    assert(x * b * c <= y * a * c && y * c * a <= z * b * a) by (nonlinear_arith)
        requires
            a > 0,
            c > 0,
            x * b <= y * a,
            y * c <= z * b,
    ;
    assert(y * a * c == y * c * a && x * b * c == (x * c) * b && z * b * a == (z * a) * b)
        by (nonlinear_arith);
    assert(x * c <= z * a) by (nonlinear_arith)
        requires
            b > 0,
            (x * c) * b <= (z * a) * b,
    ;
}

/// An input is refused where it has fewer than three stations, no velocity
/// model, or a model without layers; the first of these is told.
pub proof fn inputs_need_stations_and_layers(input: SolverInput)
    ensures
        input_error(input) is None <==> input.stations@.len() >= 3 && input.models@.len() >= 1
            && forall|m: int|
            0 <= m < input.models@.len() ==> (#[trigger] input.models@[m]).layers@.len() > 0,
        input.stations@.len() < 3 ==> input_error(input) == Some(
            "at least three stations are required for a local network solution"@,
        ),
        input.stations@.len() >= 3 && input.models@.len() == 0 ==> input_error(input) == Some(
            "at least one velocity model is required"@,
        ),
{
}

/// A pick of a window is observed where its station and its velocity model are
/// known, and else rejected for what is missing.
pub proof fn picks_need_a_station_and_a_model(input: SolverInput, ids: Seq<usize>, k: usize)
    ensures
        ({
            let pick = input.picks@[k as int];
            let station = exists|i: int|
                0 <= i < input.stations@.len() && (#[trigger] input.stations@[i]).id@
                    == pick.station_id@;
            let model = exists|i: int|
                0 <= i < input.models@.len() && (#[trigger] input.models@[i]).version@
                    == pick.model_version@;
            &&& usable(input, ids).contains(k) <==> ids.contains(k) && station && model
            &&& ids.contains(k) && !station ==> unusable(input, ids).contains(
                rejection(pick, "station record is missing"@),
            )
            &&& ids.contains(k) && station && !model ==> unusable(input, ids).contains(
                rejection(pick, "velocity model version is missing"@),
            )
        }),
    decreases ids.len(),
{
    let pick = input.picks@[k as int];
    missing_is(input, pick);
    if ids.len() > 0 {
        let t = ids.drop_last();
        picks_need_a_station_and_a_model(input, t, k);
        let (before, after) = (usable(input, t), usable(input, ids));
        let (out, more) = (unusable(input, t), unusable(input, ids));
        if t.contains(k) {
            let i = choose|i: int| 0 <= i < t.len() && t[i] == k;
            assert(ids[i] == k);
        }
        if ids.contains(k) && k != ids.last() {
            let i = choose|i: int| 0 <= i < ids.len() && ids[i] == k;
            assert(t[i] == k);
        }
        assert(ids[ids.len() - 1] == ids.last());
        if before.contains(k) {
            let i = choose|i: int| 0 <= i < before.len() && before[i] == k;
            assert(after[i] == k);
        }
        if after.contains(k) && k != ids.last() {
            let i = choose|i: int| 0 <= i < after.len() && after[i] == k;
            assert(before[i] == k);
        }
        if missing(input, input.picks@[ids.last() as int]) is None {
            assert(after[after.len() - 1] == ids.last());
        } else {
            let x = rejection(
                input.picks@[ids.last() as int],
                missing(input, input.picks@[ids.last() as int])->0,
            );
            assert(more[more.len() - 1] == x);
        }
        assert forall|x: Rejection| #[trigger] out.contains(x) implies more.contains(x) by {
            let i = choose|i: int| 0 <= i < out.len() && out[i] == x;
            assert(more[i] == x);
        }
    }
}

/// What is missing of a pick.
proof fn missing_is(input: SolverInput, pick: Pick)
    ensures
        ({
            let station = exists|i: int|
                0 <= i < input.stations@.len() && (#[trigger] input.stations@[i]).id@
                    == pick.station_id@;
            let model = exists|i: int|
                0 <= i < input.models@.len() && (#[trigger] input.models@[i]).version@
                    == pick.model_version@;
            missing(input, pick) == if !station {
                Some("station record is missing"@)
            } else if !model {
                Some("velocity model version is missing"@)
            } else {
                None
            }
        }),
{
    let a = crate::model::station_ids(input.stations@);
    let b = crate::model::model_versions(input.models@);
    if a.contains(pick.station_id@) {
        let i = choose|i: int| 0 <= i < a.len() && a[i] == pick.station_id@;
        assert(input.stations@[i].id@ == pick.station_id@);
    }
    if exists|i: int|
        0 <= i < input.stations@.len() && (#[trigger] input.stations@[i]).id@ == pick.station_id@ {
        let i = choose|i: int|
            0 <= i < input.stations@.len() && (#[trigger] input.stations@[i]).id@
                == pick.station_id@;
        assert(a[i] == pick.station_id@);
    }
    if b.contains(pick.model_version@) {
        let i = choose|i: int| 0 <= i < b.len() && b[i] == pick.model_version@;
        assert(input.models@[i].version@ == pick.model_version@);
    }
    if exists|i: int|
        0 <= i < input.models@.len() && (#[trigger] input.models@[i]).version@
            == pick.model_version@ {
        let i = choose|i: int|
            0 <= i < input.models@.len() && (#[trigger] input.models@[i]).version@
                == pick.model_version@;
        assert(b[i] == pick.model_version@);
    }
}

/// Windows are named by their numbers, with two digits, and labelled by them.
pub proof fn windows_are_named_by_their_numbers(ws: Seq<Window>, i: int)
    requires
        0 <= i < ready(ws).len(),
    ensures
        ready(ws)[i].key == "event-"@ + crate::decimal::padded((i + 1) as nat, 2),
        ready(ws)[i].label == "E"@ + crate::decimal::decimal((i + 1) as nat),
{
}

/// A pick that enters a window is in it from then on, and the window reaches to
/// its time; nothing else of it changes, and no other window does.
pub proof fn windows_reach_to_what_enters(ws: Seq<Window>, at: int, k: usize, t: int, i: int)
    requires
        0 <= at < ws.len(),
        0 <= i < ws.len(),
    ensures
        ({
            let r = entered(ws, at, k, t);
            &&& r.len() == ws.len()
            &&& i != at ==> r[i] == ws[i]
            &&& r[at].key == ws[at].key && r[at].centroid_time == ws[at].centroid_time
            &&& ws[at].picks.contains(k) ==> r[at] == ws[at]
            &&& !ws[at].picks.contains(k) ==> {
                &&& r[at].min_time <= t <= r[at].max_time
                &&& r[at].min_time == t || r[at].min_time == ws[at].min_time
                &&& r[at].max_time == t || r[at].max_time == ws[at].max_time
                &&& r[at].min_time <= ws[at].min_time && ws[at].max_time <= r[at].max_time
            }
        }),
{
}

/// An observation is of the pick, at the station with its id, and is locked
/// where a lock names the pick.
pub proof fn observations_are_of_their_picks(input: SolverInput, k: usize, o: Observation)
    requires
        observed(input, k, o),
    ensures
        o.pick == input.picks@[k as int],
        o.station.id@ == o.pick.station_id@,
        exists|i: int| 0 <= i < input.stations@.len() && (#[trigger] input.stations@[i]) == o.station,
        o.locked <==> exists|i: int|
            0 <= i < input.locked@.len() && (#[trigger] input.locked@[i]).pick_id@ == o.pick.id@,
{
    let s = input.stations@;
    let i = choose|i: int| 0 <= i < s.len() && s[i] == o.station;
    assert(s[i] == o.station);
    let ids = crate::model::lock_ids(input.locked@);
    if ids.contains(o.pick.id@) {
        let m = choose|m: int| 0 <= m < ids.len() && ids[m] == o.pick.id@;
        assert(input.locked@[m].pick_id@ == o.pick.id@);
    }
    if exists|i: int|
        0 <= i < input.locked@.len() && (#[trigger] input.locked@[i]).pick_id@ == o.pick.id@ {
        let m = choose|m: int|
            0 <= m < input.locked@.len() && (#[trigger] input.locked@[m]).pick_id@ == o.pick.id@;
        assert(ids[m] == o.pick.id@);
    }
}

/// A rejection names the pick, its station, its phase and the reason.
pub proof fn rejections_name_their_picks(pick: Pick, reason: Seq<char>)
    ensures
        rejection(pick, reason).observation_id == pick.id@,
        rejection(pick, reason).station_id == pick.station_id@,
        rejection(pick, reason).reason == reason,
        pick.phase == Phase::P ==> rejection(pick, reason).phase == "P"@,
        pick.phase == Phase::S ==> rejection(pick, reason).phase == "S"@,
{
}

/// Of two rejections the one of the lower pick is listed first, and of two of
/// one pick that with the lower reason.
pub proof fn rejections_are_listed_by_pick_and_reason(a: Rejection, b: Rejection)
    ensures
        a.observation_id != b.observation_id ==> (listed_first(a, b) <==> text_le(
            a.observation_id,
            b.observation_id,
        )),
        a.observation_id == b.observation_id ==> (listed_first(a, b) <==> text_le(
            a.reason,
            b.reason,
        )),
        repeats(a, b) <==> a.observation_id == b.observation_id && a.reason == b.reason,
{
}

/// The parameters of a fit are the place, the depth, the time, and the clock of
/// each station but the first.
pub proof fn parameters_are_named(stations: Seq<Seq<char>>, i: int)
    requires
        0 < stations.len(),
    ensures
        parameters(stations).len() == stations.len() + 3,
        parameters(stations)[0] == "x_m"@ && parameters(stations)[1] == "y_m"@ && parameters(
            stations,
        )[2] == "depth_m"@ && parameters(stations)[3] == "origin_time"@,
        0 < i < stations.len() ==> parameters(stations)[i + 3] == "bias:"@ + stations[i],
{
}

} // verus!
