//! Laws of events: where the network solver sees one begin, and the hypotheses
//! that it makes of it.
use vstd::prelude::*;

use crate::association::{
    near_stations, network_event_key, network_planned, plans, plans_below, variants, Blueprint,
    Plan,
};
use crate::decimal::padded;
use crate::model::Phase;
use crate::network::{
    centers, groups, onsets, seeds, shared, starts, Onset, Pick, PickObservation, PickStatus,
};
use crate::order::{in_order, names, names_is, sorted, sorted_in_order, Ranked};

verus! {

/// Whether an onset follows the one before it by at most thirty seconds.
pub open spec fn goes_on(s: Seq<Onset>, k: int) -> bool {
    s[k].time - s[k - 1].time <= 30_000_000_000
}

/// Whether onsets follow each other by at most thirty seconds from one place to
/// another.
pub open spec fn unbroken(s: Seq<Onset>, i: int, j: int) -> bool {
    forall|k: int| i < k <= j ==> #[trigger] goes_on(s, k)
}

/// Whether a group of onsets begins at a place: the onset before, if any, is
/// more than thirty seconds earlier.
pub open spec fn begins(s: Seq<Onset>, i: int) -> bool {
    0 <= i < s.len() && (i == 0 || !goes_on(s, i))
}

/// Whether an event begins at a place: a group begins there, and an onset of
/// another station belongs to it.
pub open spec fn event_begins(s: Seq<Onset>, i: int) -> bool {
    begins(s, i) && exists|j: int|
        i < j < s.len() && unbroken(s, i, j) && (#[trigger] s[j]).station != s[i].station
}

/// Whether a group is a stretch of a list that begins at a place.
spec fn stretch(s: Seq<Onset>, g: Seq<Onset>, i: int) -> bool {
    &&& begins(s, i)
    &&& g.len() > 0
    &&& i + g.len() <= s.len()
    &&& g == s.subrange(i, i + g.len())
    &&& unbroken(s, i, i + g.len() - 1)
}

/// Whether the group at a place ends where the next begins, or with the list.
spec fn joined(s: Seq<Onset>, g: Seq<Seq<Onset>>, at: Seq<int>, k: int) -> bool {
    at[k] + g[k].len() == if k + 1 < g.len() {
        at[k + 1]
    } else {
        s.len() as int
    }
}

/// The groups of a list with their places in it.
spec fn cut(s: Seq<Onset>, g: Seq<Seq<Onset>>, at: Seq<int>) -> bool {
    &&& at.len() == g.len()
    &&& (s.len() == 0) == (g.len() == 0)
    &&& g.len() > 0 ==> at[0] == 0
    &&& forall|k: int| 0 <= k < g.len() ==> stretch(s, #[trigger] g[k], at[k])
    &&& forall|k: int| 0 <= k < g.len() ==> #[trigger] joined(s, g, at, k)
}

/// A stretch is one of a longer list.
proof fn stretch_of_longer(s: Seq<Onset>, g: Seq<Onset>, i: int)
    requires
        s.len() > 0,
        stretch(s.drop_last(), g, i),
    ensures
        stretch(s, g, i),
{
    let t = s.drop_last();
    assert forall|k: int| 0 < k < t.len() implies #[trigger] goes_on(s, k) == goes_on(t, k) by {}
    assert(s.subrange(i, i + g.len()) =~= t.subrange(i, i + g.len()));
    assert forall|k: int| i < k <= i + g.len() - 1 implies #[trigger] goes_on(s, k) by {
        assert(goes_on(t, k));
    }
}

/// A stretch up to the end of a list goes on with an onset that follows.
proof fn stretch_grows(s: Seq<Onset>, g: Seq<Onset>, i: int)
    requires
        s.len() > 0,
        stretch(s.drop_last(), g, i),
        i + g.len() == s.len() - 1,
        goes_on(s, s.len() - 1),
    ensures
        stretch(s, g.push(s.last()), i),
{
    stretch_of_longer(s, g, i);
    let h = g.push(s.last());
    assert(h =~= s.subrange(i, i + h.len()));
    assert forall|k: int| i < k <= i + h.len() - 1 implies #[trigger] goes_on(s, k) by {
        if k < s.len() - 1 {
            assert(unbroken(s, i, i + g.len() - 1));
        }
    }
}

/// An onset behind a break is a stretch of its own.
proof fn stretch_added(s: Seq<Onset>, g: Seq<Seq<Onset>>, before: Seq<int>)
    requires
        s.len() > 0,
        cut(s.drop_last(), g, before),
        s.len() > 1 ==> !goes_on(s, s.len() - 1),
    ensures
        cut(s, g.push(seq![s.last()]), before.push(s.len() - 1)),
{
    let t = s.drop_last();
    let n = s.len() - 1;
    let own = seq![s.last()];
    let r = g.push(own);
    let at = before.push(n);
    assert(own =~= s.subrange(n, n + 1));
    assert(begins(s, n));
    assert forall|k: int| 0 <= k < r.len() implies stretch(s, #[trigger] r[k], at[k]) by {
        if k < g.len() {
            assert(r[k] == g[k] && at[k] == before[k]);
            stretch_of_longer(s, g[k], before[k]);
        }
    }
    assert forall|k: int| 0 <= k < r.len() implies #[trigger] joined(s, r, at, k) by {
        if k < g.len() {
            assert(joined(t, g, before, k));
        }
    }
}

/// The groups of a list are its stretches without a break.
proof fn groups_are_stretches(s: Seq<Onset>) -> (at: Seq<int>)
    ensures
        cut(s, groups(s), at),
    decreases s.len(),
{
    if s.len() == 0 {
        Seq::empty()
    } else {
        let t = s.drop_last();
        let before = groups_are_stretches(t);
        let g = groups(t);
        let n = s.len() - 1;
        if g.len() > 0 {
            let last = g.len() - 1;
            assert(joined(t, g, before, last));
            assert(stretch(t, g[last], before[last]));
            assert(g.last().last() == s[n - 1]);
            if goes_on(s, n) {
                last_stretch_grows(s, g, before);
                before
            } else {
                stretch_added(s, g, before);
                before.push(n)
            }
        } else {
            stretch_added(s, g, before);
            before.push(n)
        }
    }
}

/// An onset that follows the last joins the last stretch.
proof fn last_stretch_grows(s: Seq<Onset>, g: Seq<Seq<Onset>>, at: Seq<int>)
    requires
        s.len() > 0,
        g.len() > 0,
        cut(s.drop_last(), g, at),
        goes_on(s, s.len() - 1),
    ensures
        cut(s, g.drop_last().push(g.last().push(s.last())), at),
{
    let t = s.drop_last();
    let last = g.len() - 1;
    let r = g.drop_last().push(g.last().push(s.last()));
    assert forall|k: int| 0 <= k < r.len() implies stretch(s, #[trigger] r[k], at[k]) by {
        assert(joined(t, g, at, k));
        assert(stretch(t, g[k], at[k]));
        if k < last {
            stretch_of_longer(s, g[k], at[k]);
        } else {
            stretch_grows(s, g[k], at[k]);
        }
    }
    assert forall|k: int| 0 <= k < r.len() implies #[trigger] joined(s, r, at, k) by {
        assert(joined(t, g, at, k));
    }
}

/// An event begins where a stretch with two stations does.
proof fn stretch_begins_event(s: Seq<Onset>, g: Seq<Seq<Onset>>, at: Seq<int>, k: int)
    requires
        cut(s, g, at),
        0 <= k < g.len(),
    ensures
        shared(g[k]) <==> event_begins(s, at[k]),
{
    let i = at[k];
    let own = g[k];
    assert(stretch(s, g[k], at[k]));
    assert(joined(s, g, at, k));
    assert(own[0] == s[i]);
    if shared(own) {
        let (a, b) = choose|a: int, b: int|
            0 <= a < own.len() && 0 <= b < own.len() && (#[trigger] own[a]).station != (
            #[trigger] own[b]).station;
        let m = if own[a].station != own[0].station {
            a
        } else {
            b
        };
        assert(own[m] == s[i + m]);
        assert(unbroken(s, i, i + m));
        assert(s[i + m].station != s[i].station);
    }
    if event_begins(s, i) {
        let j = choose|j: int|
            i < j < s.len() && unbroken(s, i, j) && (#[trigger] s[j]).station != s[i].station;
        let end = i + own.len();
        if j >= end {
            assert(k + 1 < g.len());
            assert(stretch(s, g[k + 1], at[k + 1]));
            assert(goes_on(s, end));
            assert(false);
        }
        assert(own[j - i] == s[j]);
        assert(own[j - i].station != own[0].station);
    }
}

/// A group begins only where a stretch does.
proof fn begins_at_a_stretch(s: Seq<Onset>, g: Seq<Seq<Onset>>, at: Seq<int>, i: int, k: int) -> (h:
    int)
    requires
        cut(s, g, at),
        begins(s, i),
        0 <= k < g.len(),
        i < at[k] + g[k].len(),
    ensures
        0 <= h < g.len(),
        at[h] == i,
    decreases k,
{
    assert(stretch(s, g[k], at[k]));
    if i < at[k] {
        assert(joined(s, g, at, k - 1));
        begins_at_a_stretch(s, g, at, i, k - 1)
    } else {
        if i > at[k] {
            assert(goes_on(s, i));
        }
        k
    }
}

/// The starts of some stretches are the times at which events begin.
proof fn starts_hold(s: Seq<Onset>, g: Seq<Seq<Onset>>, at: Seq<int>, n: int, t: i128)
    requires
        cut(s, g, at),
        0 <= n <= g.len(),
    ensures
        starts(g.take(n)).contains(t) <==> exists|k: int|
            0 <= k < n && event_begins(s, #[trigger] at[k]) && s[at[k]].time == t,
    decreases n,
{
    if n > 0 {
        starts_hold(s, g, at, n - 1, t);
        stretch_begins_event(s, g, at, n - 1);
        let v = g.take(n);
        assert(v.drop_last() =~= g.take(n - 1));
        assert(v.last() == g[n - 1]);
        assert(stretch(s, g[n - 1], at[n - 1]));
        assert(g[n - 1][0] == s[at[n - 1]]);
        let (before, after) = (starts(g.take(n - 1)), starts(v));
        if before.contains(t) {
            let i = choose|i: int| 0 <= i < before.len() && before[i] == t;
            assert(after[i] == t);
        }
        if after.contains(t) && !before.contains(t) {
            let i = choose|i: int| 0 <= i < after.len() && after[i] == t;
            if i < before.len() {
                assert(before[i] == t);
            }
            assert(event_begins(s, at[n - 1]));
        }
        if event_begins(s, at[n - 1]) && s[at[n - 1]].time == t {
            assert(after[after.len() - 1] == t);
        }
    } else {
        assert(g.take(0) =~= Seq::<Seq<Onset>>::empty());
    }
}

/// An event begins with a P arrival that follows no other within thirty
/// seconds, where an arrival at another station continues it without a break of
/// more than thirty seconds; and only there.
pub proof fn events_begin_after_a_pause(picks: Seq<Pick>, v: Seq<PickObservation>, t: i128)
    ensures
        ({
            let s = sorted(onsets(picks, v));
            centers(picks, v).contains(t) <==> exists|i: int| #[trigger]
                event_begins(s, i) && s[i].time == t
        }),
{
    let s = sorted(onsets(picks, v));
    let g = groups(s);
    let at = groups_are_stretches(s);
    assert(g.take(g.len() as int) =~= g);
    starts_hold(s, g, at, g.len() as int, t);
    if exists|i: int| #[trigger] event_begins(s, i) && s[i].time == t {
        let i = choose|i: int| #[trigger] event_begins(s, i) && s[i].time == t;
        assert(joined(s, g, at, g.len() - 1));
        let h = begins_at_a_stretch(s, g, at, i, g.len() - 1);
        assert(event_begins(s, at[h]));
    }
    if centers(picks, v).contains(t) {
        let k = choose|k: int|
            0 <= k < g.len() && event_begins(s, #[trigger] at[k]) && s[at[k]].time == t;
        assert(event_begins(s, at[k]));
    }
}

/// The starts of stretches come in the order of the stretches.
proof fn starts_rise(s: Seq<Onset>, g: Seq<Seq<Onset>>, at: Seq<int>, n: int)
    requires
        cut(s, g, at),
        in_order(s),
        0 <= n <= g.len(),
    ensures
        forall|i: int, j: int|
            0 <= i < j < starts(g.take(n)).len() ==> (#[trigger] starts(g.take(n))[i])
                + 30_000_000_000 < #[trigger] starts(g.take(n))[j],
        forall|i: int|
            0 <= i < starts(g.take(n)).len() && n < g.len() ==> (#[trigger] starts(g.take(n))[i])
                + 30_000_000_000 < s[at[n]].time,
    decreases n,
{
    if n > 0 {
        starts_rise(s, g, at, n - 1);
        let v = g.take(n);
        assert(v.drop_last() =~= g.take(n - 1));
        assert(v.last() == g[n - 1]);
        assert(stretch(s, g[n - 1], at[n - 1]));
        assert(g[n - 1][0] == s[at[n - 1]]);
        let (before, after) = (starts(g.take(n - 1)), starts(v));
        assert forall|i: int, j: int| 0 <= i < j < after.len() implies (#[trigger] after[i])
            + 30_000_000_000 < #[trigger] after[j] by {
            assert(after[i] == before[i]);
            if j < before.len() {
                assert(after[j] == before[j]);
            }
        }
        if n < g.len() {
            assert(joined(s, g, at, n - 1));
            assert(stretch(s, g[n], at[n]));
            let (a, b) = (at[n - 1], at[n] - 1);
            assert(Onset::comes_first(s[a], s[b]));
            assert forall|i: int| 0 <= i < after.len() implies (#[trigger] after[i])
                + 30_000_000_000 < s[at[n]].time by {
                if i < before.len() {
                    assert(after[i] == before[i]);
                }
            }
        }
    } else {
        assert(g.take(0) =~= Seq::<Seq<Onset>>::empty());
    }
}

/// Events are numbered in the order of their starts, which are more than thirty
/// seconds apart.
pub proof fn events_begin_far_apart(picks: Seq<Pick>, v: Seq<PickObservation>, i: int, j: int)
    requires
        0 <= i < j < centers(picks, v).len(),
    ensures
        centers(picks, v)[i] + 30_000_000_000 < centers(picks, v)[j],
{
    let s = sorted(onsets(picks, v));
    let g = groups(s);
    let at = groups_are_stretches(s);
    sorted_in_order(onsets(picks, v));
    assert(g.take(g.len() as int) =~= g);
    starts_rise(s, g, at, g.len() as int);
}

/// The onsets are the P arrivals that are no noise, each at its corrected time
/// and its station.
pub proof fn onsets_are_p_arrivals(picks: Seq<Pick>, v: Seq<PickObservation>, x: Onset)
    ensures
        onsets(picks, v).contains(x) <==> exists|i: int|
            0 <= i < v.len() && (#[trigger] v[i]).observed_epoch == x.time && v[i].station_index
                == x.station && picks[v[i].pick_index as int].phase == Phase::P
                && picks[v[i].pick_index as int].status != PickStatus::Noise,
    decreases v.len(),
{
    if v.len() > 0 {
        let w = v.drop_last();
        onsets_are_p_arrivals(picks, w, x);
        let (before, after) = (onsets(picks, w), onsets(picks, v));
        let o = v[v.len() - 1];
        assert forall|i: int| 0 <= i < w.len() implies #[trigger] w[i] == v[i] by {}
        if before.contains(x) {
            let i = choose|i: int| 0 <= i < before.len() && before[i] == x;
            assert(after[i] == x);
            let k = choose|k: int|
                0 <= k < w.len() && (#[trigger] w[k]).observed_epoch == x.time
                    && w[k].station_index == x.station && picks[w[k].pick_index as int].phase
                    == Phase::P && picks[w[k].pick_index as int].status != PickStatus::Noise;
            assert(v[k].observed_epoch == x.time);
        }
        if after.contains(x) && !before.contains(x) {
            let i = choose|i: int| 0 <= i < after.len() && after[i] == x;
            if i < before.len() {
                assert(before[i] == x);
            }
            assert(o.observed_epoch == x.time);
        }
        if exists|i: int|
            0 <= i < v.len() && (#[trigger] v[i]).observed_epoch == x.time && v[i].station_index
                == x.station && picks[v[i].pick_index as int].phase == Phase::P
                && picks[v[i].pick_index as int].status != PickStatus::Noise {
            let i = choose|i: int|
                0 <= i < v.len() && (#[trigger] v[i]).observed_epoch == x.time
                    && v[i].station_index == x.station && picks[v[i].pick_index as int].phase
                    == Phase::P && picks[v[i].pick_index as int].status != PickStatus::Noise;
            if i < w.len() {
                assert(w[i].observed_epoch == x.time);
                let m = choose|m: int| 0 <= m < before.len() && before[m] == x;
                assert(after[m] == x);
            } else {
                assert(after[after.len() - 1] == x);
            }
        }
    }
}

/// Whether a P arrival in use at a station is within thirty seconds of a time.
pub open spec fn heard_near(
    picks: Seq<Pick>,
    v: Seq<PickObservation>,
    station: Seq<char>,
    t: int,
) -> bool {
    exists|i: int|
        0 <= i < v.len() && picks[(#[trigger] v[i]).pick_index as int].station_id@ == station
            && picks[v[i].pick_index as int].phase == Phase::P && picks[v[i].pick_index as int].status
            != PickStatus::Noise && t - 30_000_000_000 <= v[i].observed_epoch <= t + 30_000_000_000
}

/// The stations near a time are those that heard a P arrival within thirty
/// seconds of it.
proof fn near_is_heard(picks: Seq<Pick>, v: Seq<PickObservation>, t: int, station: Seq<char>)
    ensures
        near_stations(picks, v, t).contains(station) <==> heard_near(picks, v, station, t),
    decreases v.len(),
{
    if v.len() > 0 {
        let w = v.drop_last();
        near_is_heard(picks, w, t, station);
        let (before, after) = (near_stations(picks, w, t), near_stations(picks, v, t));
        let o = v[v.len() - 1];
        assert forall|i: int| 0 <= i < w.len() implies #[trigger] w[i] == v[i] by {}
        if before.contains(station) {
            let i = choose|i: int| 0 <= i < before.len() && before[i] == station;
            assert(after[i] == station);
            let k = choose|k: int|
                0 <= k < w.len() && picks[(#[trigger] w[k]).pick_index as int].station_id@
                    == station && picks[w[k].pick_index as int].phase == Phase::P
                    && picks[w[k].pick_index as int].status != PickStatus::Noise && t
                    - 30_000_000_000 <= w[k].observed_epoch <= t + 30_000_000_000;
            assert(picks[v[k].pick_index as int].station_id@ == station);
        }
        if after.contains(station) && !before.contains(station) {
            let i = choose|i: int| 0 <= i < after.len() && after[i] == station;
            if i < before.len() {
                assert(before[i] == station);
            }
            assert(picks[o.pick_index as int].station_id@ == station);
        }
        if heard_near(picks, v, station, t) {
            let k = choose|k: int|
                0 <= k < v.len() && picks[(#[trigger] v[k]).pick_index as int].station_id@
                    == station && picks[v[k].pick_index as int].phase == Phase::P
                    && picks[v[k].pick_index as int].status != PickStatus::Noise && t
                    - 30_000_000_000 <= v[k].observed_epoch <= t + 30_000_000_000;
            if k < w.len() {
                assert(picks[w[k].pick_index as int].station_id@ == station);
                let m = choose|m: int| 0 <= m < before.len() && before[m] == station;
                assert(after[m] == station);
            } else {
                assert(after[after.len() - 1] == station);
            }
        }
    }
}

/// What the hypotheses of some events are.
proof fn plans_below_hold(
    picks: Seq<Pick>,
    v: Seq<PickObservation>,
    seeds: Seq<i128>,
    n: int,
    p: Plan,
)
    requires
        0 <= n <= seeds.len(),
    ensures
        plans_below(picks, v, seeds, n).contains(p) <==> exists|e: int|
            0 <= e < n && (#[trigger] seeds[e]) == p.seed_time && p.event_key == "event-"@ + padded(
                (e + 1) as nat,
                3,
            ) && match p.omitted_station {
                None => true,
                Some(s) => heard_near(picks, v, s, p.seed_time),
            },
    decreases n,
{
    if n > 0 {
        plans_below_hold(picks, v, seeds, n - 1, p);
        let before = plans_below(picks, v, seeds, n - 1);
        let after = plans_below(picks, v, seeds, n);
        let key = network_event_key(n as nat);
        let t = seeds[n - 1] as int;
        let near = near_stations(picks, v, t);
        let list = names(near);
        let own = variants(key, t, list);
        names_is(near);
        assert(after == before + own);
        if before.contains(p) {
            let i = choose|i: int| 0 <= i < before.len() && before[i] == p;
            assert(after[i] == p);
        }
        if own.contains(p) {
            let i = choose|i: int| 0 <= i < own.len() && own[i] == p;
            assert(after[before.len() + i] == p);
        }
        if after.contains(p) {
            let i = choose|i: int| 0 <= i < after.len() && after[i] == p;
            if i < before.len() {
                assert(before[i] == p);
            } else {
                assert(own[i - before.len()] == p);
                assert(own.contains(p));
            }
        }
        let mine = p.seed_time == t && p.event_key == "event-"@ + padded(n as nat, 3)
            && match p.omitted_station {
            None => true,
            Some(s) => heard_near(picks, v, s, p.seed_time),
        };
        if own.contains(p) {
            let i = choose|i: int| 0 <= i < own.len() && own[i] == p;
            if i > 0 {
                assert(own[i] == (Plan {
                    event_key: key,
                    seed_time: t,
                    omitted_station: Some(list[i - 1]),
                }));
                assert(list.contains(list[i - 1]));
                near_is_heard(picks, v, t, list[i - 1]);
            }
            assert(mine);
            assert(seeds[n - 1] == p.seed_time);
        }
        if mine {
            match p.omitted_station {
                None => {
                    assert(own[0] == p);
                },
                Some(s) => {
                    near_is_heard(picks, v, t, s);
                    assert(list.contains(s));
                    let i = choose|i: int| 0 <= i < list.len() && list[i] == s;
                    assert(own[i + 1] == p);
                },
            }
            assert(own.contains(p));
        }
    }
}

/// Each event has a hypothesis with all stations, and one without each of the
/// stations that heard a P arrival within thirty seconds of its start; all are
/// named by the number of the event, with three digits. There are no others.
pub proof fn events_are_tried_without_each_station(
    context: crate::network::SolveContext,
    observations: Seq<PickObservation>,
    hypotheses: Seq<Blueprint>,
    p: Plan,
)
    requires
        network_planned(context, observations, hypotheses),
    ensures
        plans(hypotheses).contains(p) <==> exists|e: int|
            0 <= e < centers(context.picks@, observations).len() && (#[trigger] centers(
                context.picks@,
                observations,
            )[e]) == p.seed_time && p.event_key == "event-"@ + padded((e + 1) as nat, 3)
                && match p.omitted_station {
                None => true,
                Some(s) => heard_near(context.picks@, observations, s, p.seed_time),
            },
{
    let c = centers(context.picks@, observations);
    plans_below_hold(context.picks@, observations, c, c.len() as int, p);
}

} // verus!
