//! Laws of shared clocks: which hypotheses and stations take part in a joint
//! fit, and what comes of it.
use vstd::prelude::*;

use crate::order::{inserted_by, names, names_is, rising, sorted_by, text_lt};
use crate::shared_clocks::{
    best_of, event_keys, events_at, joint_clock, joint_settled, joint_stations, occurrence, positions,
    primaries, primary, shared_plan, shared_stations, text_place, verdict_note, FitRecord, SharedPlan, Verdict,
};
use crate::text::{text_le, text_le_total, text_le_transitive, views};

verus! {

/// Inserting keeps what was there and adds one.
proof fn inserted_by_holds<V>(s: Seq<V>, x: V, first: spec_fn(V, V) -> bool, y: V)
    ensures
        inserted_by(s, x, first).contains(y) <==> s.contains(y) || y == x,
        inserted_by(s, x, first).len() == s.len() + 1,
    decreases s.len(),
{
    let r = inserted_by(s, x, first);
    if s.len() == 0 || first(s.last(), x) {
        if s.contains(y) {
            let i = choose|i: int| 0 <= i < s.len() && s[i] == y;
            assert(r[i] == y);
        }
        assert(r[s.len() as int] == x);
    } else {
        let t = s.drop_last();
        inserted_by_holds(t, x, first, y);
        let u = inserted_by(t, x, first);
        if s.contains(y) {
            let i = choose|i: int| 0 <= i < s.len() && s[i] == y;
            if i < t.len() {
                assert(t[i] == y);
            } else {
                assert(r[r.len() - 1] == y);
            }
        }
        if u.contains(y) {
            let i = choose|i: int| 0 <= i < u.len() && u[i] == y;
            assert(r[i] == y);
        }
        if r.contains(y) {
            let i = choose|i: int| 0 <= i < r.len() && r[i] == y;
            if i < u.len() {
                assert(u[i] == y);
                if t.contains(y) {
                    let j = choose|j: int| 0 <= j < t.len() && t[j] == y;
                    assert(s[j] == y);
                }
            } else {
                assert(s[s.len() - 1] == y);
            }
        }
    }
}

/// Sorting keeps what is in a list.
pub proof fn sorted_by_holds<V>(s: Seq<V>, first: spec_fn(V, V) -> bool, y: V)
    ensures
        sorted_by(s, first).contains(y) <==> s.contains(y),
        sorted_by(s, first).len() == s.len(),
    decreases s.len(),
{
    if s.len() > 0 {
        let t = s.drop_last();
        sorted_by_holds(t, first, y);
        inserted_by_holds(sorted_by(t, first), s.last(), first, y);
        if t.contains(y) {
            let i = choose|i: int| 0 <= i < t.len() && t[i] == y;
            assert(s[i] == y);
        }
        if s.contains(y) && y != s.last() {
            let i = choose|i: int| 0 <= i < s.len() && s[i] == y;
            assert(t[i] == y);
        }
        assert(s[s.len() - 1] == s.last());
    }
}

/// Whether texts are in rising order, where equal ones may stand together.
pub open spec fn texts_in_order(s: Seq<Seq<char>>) -> bool {
    forall|i: int, j: int| 0 <= i <= j < s.len() ==> text_le(#[trigger] s[i], #[trigger] s[j])
}

/// Inserting a text keeps the order.
proof fn text_inserted(s: Seq<Seq<char>>, x: Seq<char>)
    requires
        texts_in_order(s),
    ensures
        texts_in_order(inserted_by(s, x, |a: Seq<char>, b: Seq<char>| text_le(a, b))),
    decreases s.len(),
{
    let f = |a: Seq<char>, b: Seq<char>| text_le(a, b);
    let r = inserted_by(s, x, f);
    text_le_total(x, x);
    if s.len() == 0 || text_le(s.last(), x) {
        assert forall|i: int, j: int| 0 <= i <= j < r.len() implies text_le(
            #[trigger] r[i],
            #[trigger] r[j],
        ) by {
            if j == s.len() && i < s.len() {
                assert(text_le(s[i], s[s.len() - 1]));
                text_le_transitive(s[i], s.last(), x);
            } else if j < s.len() {
                assert(text_le(s[i], s[j]));
            }
        }
    } else {
        let t = s.drop_last();
        let last = s.last();
        assert forall|i: int, j: int| 0 <= i <= j < t.len() implies text_le(
            #[trigger] t[i],
            #[trigger] t[j],
        ) by {
            assert(text_le(s[i], s[j]));
        }
        text_inserted(t, x);
        let u = inserted_by(t, x, f);
        text_le_total(last, x);
        text_le_total(last, last);
        assert forall|i: int, j: int| 0 <= i <= j < r.len() implies text_le(
            #[trigger] r[i],
            #[trigger] r[j],
        ) by {
            if j < u.len() {
                assert(text_le(u[i], u[j]));
            } else if i < u.len() {
                inserted_by_holds(t, x, f, u[i]);
                assert(u.contains(u[i]));
                if t.contains(u[i]) {
                    let k = choose|k: int| 0 <= k < t.len() && t[k] == u[i];
                    assert(text_le(s[k], s[s.len() - 1]));
                }
            }
        }
    }
}

/// Sorting texts puts them in order.
proof fn texts_sorted(s: Seq<Seq<char>>)
    ensures
        texts_in_order(sorted_by(s, |a: Seq<char>, b: Seq<char>| text_le(a, b))),
    decreases s.len(),
{
    if s.len() > 0 {
        texts_sorted(s.drop_last());
        text_inserted(
            sorted_by(s.drop_last(), |a: Seq<char>, b: Seq<char>| text_le(a, b)),
            s.last(),
        );
    }
}

/// Whether a hypothesis stands for its event in a joint fit: it is solved, and
/// no other solved one of the event has a lower score, or the same score and an
/// earlier place.
pub open spec fn stands_for_event(v: Seq<FitRecord>, p: int) -> bool {
    &&& 0 <= p < v.len()
    &&& v[p].solved
    &&& forall|i: int|
        0 <= i < v.len() && (#[trigger] v[i]).solved && v[i].event_key@ == v[p].event_key@ ==> {
            v[p].score < v[i].score || (v[p].score == v[i].score && p <= i)
        }
}

/// The best of an event among the first hypotheses.
proof fn best_is_first_lowest(v: Seq<FitRecord>, key: Seq<char>, n: int)
    requires
        0 <= n <= v.len(),
    ensures
        match best_of(v, key, n) {
            Some(p) => {
                &&& 0 <= p < n
                &&& v[p].solved
                &&& v[p].event_key@ == key
                &&& forall|i: int|
                    0 <= i < n && (#[trigger] v[i]).solved && v[i].event_key@ == key ==> {
                        v[p].score < v[i].score || (v[p].score == v[i].score && p <= i)
                    }
            },
            None => forall|i: int|
                0 <= i < n ==> !((#[trigger] v[i]).solved && v[i].event_key@ == key),
        },
    decreases n,
{
    if n > 0 {
        best_is_first_lowest(v, key, n - 1);
    }
}

/// The best of the events with the first keys.
proof fn primaries_stand(v: Seq<FitRecord>, keys: Seq<Seq<char>>, n: int)
    requires
        rising(keys),
        0 <= n <= keys.len(),
    ensures
        forall|p: int| #[trigger]
            primaries(v, keys, n).contains(p) <==> stands_for_event(v, p) && exists|k: int|
                0 <= k < n && #[trigger] keys[k] == v[p].event_key@,
        forall|a: int, b: int|
            0 <= a < b < primaries(v, keys, n).len() ==> text_lt(
                v[#[trigger] primaries(v, keys, n)[a]].event_key@,
                v[#[trigger] primaries(v, keys, n)[b]].event_key@,
            ),
    decreases n,
{
    if n > 0 {
        primaries_stand(v, keys, n - 1);
        let (before, after) = (primaries(v, keys, n - 1), primaries(v, keys, n));
        let key = keys[n - 1];
        best_is_first_lowest(v, key, v.len() as int);
        let best = best_of(v, key, v.len() as int);
        assert forall|p: int| #[trigger] after.contains(p) <==> stands_for_event(v, p) && exists|
            k: int,
        |
            0 <= k < n && #[trigger] keys[k] == v[p].event_key@ by {
            if before.contains(p) {
                let i = choose|i: int| 0 <= i < before.len() && before[i] == p;
                assert(after[i] == p);
            }
            if after.contains(p) && !before.contains(p) {
                let i = choose|i: int| 0 <= i < after.len() && after[i] == p;
                if i < before.len() {
                    assert(before[i] == p);
                }
                assert(keys[n - 1] == v[p].event_key@);
            }
            if stands_for_event(v, p) && v[p].event_key@ == key {
                assert(best is Some);
                assert(best->0 == p);
                assert(after[after.len() - 1] == p);
            }
        }
        assert forall|a: int, b: int| 0 <= a < b < after.len() implies text_lt(
            v[#[trigger] after[a]].event_key@,
            v[#[trigger] after[b]].event_key@,
        ) by {
            assert(after[a] == before[a]);
            if b < before.len() {
                assert(after[b] == before[b]);
            } else {
                assert(before.contains(before[a]));
                let k = choose|k: int|
                    0 <= k < n - 1 && #[trigger] keys[k] == v[before[a]].event_key@;
                assert(text_lt(keys[k], keys[n - 1]));
            }
        }
    }
}

/// The hypotheses of a joint fit are those that stand for their events, in the
/// order of the events.
proof fn primary_stands(v: Seq<FitRecord>)
    ensures
        forall|p: int| #[trigger] primary(v).contains(p) <==> stands_for_event(v, p),
        forall|a: int, b: int|
            0 <= a < b < primary(v).len() ==> text_lt(
                v[#[trigger] primary(v)[a]].event_key@,
                v[#[trigger] primary(v)[b]].event_key@,
            ),
{
    let keys = names(event_keys(v));
    names_is(event_keys(v));
    primaries_stand(v, keys, keys.len() as int);
    assert forall|p: int| #[trigger] primary(v).contains(p) <==> stands_for_event(v, p) by {
        if stands_for_event(v, p) {
            assert(event_keys(v)[p] == v[p].event_key@);
            assert(keys.contains(v[p].event_key@));
            let k = choose|k: int| 0 <= k < keys.len() && keys[k] == v[p].event_key@;
            assert(keys[k] == v[p].event_key@);
        }
    }
}

/// Whether a hypothesis has an observation at a station.
pub open spec fn observes(f: FitRecord, station: Seq<char>) -> bool {
    exists|i: int| 0 <= i < f.stations@.len() && (#[trigger] f.stations@[i])@ == station
}

/// Whether two hypotheses that stand for different events have an observation
/// at a station.
pub open spec fn shared_by_two(v: Seq<FitRecord>, station: Seq<char>) -> bool {
    exists|p: int, q: int|
        p != q && #[trigger] stands_for_event(v, p) && #[trigger] stands_for_event(v, q)
            && observes(v[p], station) && observes(v[q], station)
}

/// Whether two of some places have an observation at a station.
spec fn two_of(v: Seq<FitRecord>, ids: Seq<int>, station: Seq<char>) -> bool {
    exists|a: int, b: int| #[trigger] pair_of(v, ids, station, a, b)
}

/// Whether two places in a list have an observation at a station.
spec fn pair_of(v: Seq<FitRecord>, ids: Seq<int>, station: Seq<char>, a: int, b: int) -> bool {
    0 <= a < b < ids.len() && observes(v[ids[a]], station) && observes(v[ids[b]], station)
}

/// A station is counted once for each hypothesis with an observation at it.
proof fn occurrence_counts(v: Seq<FitRecord>, ids: Seq<int>, station: Seq<char>)
    ensures
        occurrence(v, ids, station) >= 1 <==> exists|a: int|
            0 <= a < ids.len() && observes(v[#[trigger] ids[a]], station),
        occurrence(v, ids, station) >= 2 <==> two_of(v, ids, station),
    decreases ids.len(),
{
    if ids.len() > 0 {
        let t = ids.drop_last();
        occurrence_counts(v, t, station);
        let n = ids.len() - 1;
        assert forall|a: int| 0 <= a < n implies #[trigger] t[a] == ids[a] by {}
        let last = v[ids[n]];
        let list = views(last.stations@);
        assert(list.contains(station) <==> observes(last, station)) by {
            if list.contains(station) {
                let i = choose|i: int| 0 <= i < list.len() && list[i] == station;
                assert(last.stations@[i]@ == station);
            }
            if observes(last, station) {
                let i = choose|i: int|
                    0 <= i < last.stations@.len() && (#[trigger] last.stations@[i])@ == station;
                assert(list[i] == station);
            }
        }
        if exists|a: int| 0 <= a < t.len() && observes(v[#[trigger] t[a]], station) {
            let a = choose|a: int| 0 <= a < t.len() && observes(v[#[trigger] t[a]], station);
            assert(observes(v[ids[a]], station));
            if observes(last, station) {
                assert(pair_of(v, ids, station, a, n));
            }
        }
        if exists|a: int| 0 <= a < ids.len() && observes(v[#[trigger] ids[a]], station) {
            let a = choose|a: int| 0 <= a < ids.len() && observes(v[#[trigger] ids[a]], station);
            if a < n {
                assert(observes(v[t[a]], station));
            }
        }
        if two_of(v, t, station) {
            let (a, b) = choose|a: int, b: int| #[trigger] pair_of(v, t, station, a, b);
            assert(pair_of(v, ids, station, a, b));
        }
        if two_of(v, ids, station) {
            let (a, b) = choose|a: int, b: int| #[trigger] pair_of(v, ids, station, a, b);
            assert(observes(v[t[a]], station));
            if b < n {
                assert(pair_of(v, t, station, a, b));
            }
        }
        assert(observes(v[ids[n]], station) == observes(last, station));
    } else {
        if two_of(v, ids, station) {
            let (a, b) = choose|a: int, b: int| #[trigger] pair_of(v, ids, station, a, b);
            assert(false);
        }
    }
}

/// The stations that some hypotheses share.
proof fn shared_holds(
    v: Seq<FitRecord>,
    ids: Seq<int>,
    stations: Seq<Seq<char>>,
    station: Seq<char>,
)
    ensures
        shared_stations(v, ids, stations).contains(station) <==> stations.contains(station)
            && occurrence(v, ids, station) >= 2,
        stations.no_duplicates() ==> shared_stations(v, ids, stations).no_duplicates(),
    decreases stations.len(),
{
    if stations.len() > 0 {
        let t = stations.drop_last();
        let last = stations.last();
        shared_holds(v, ids, t, station);
        shared_holds(v, ids, t, last);
        let (before, after) = (shared_stations(v, ids, t), shared_stations(v, ids, stations));
        if t.contains(station) {
            let i = choose|i: int| 0 <= i < t.len() && t[i] == station;
            assert(stations[i] == station);
        }
        if stations.contains(station) && station != last {
            let i = choose|i: int| 0 <= i < stations.len() && stations[i] == station;
            assert(t[i] == station);
        }
        assert(stations[stations.len() - 1] == last);
        if before.contains(station) {
            let i = choose|i: int| 0 <= i < before.len() && before[i] == station;
            assert(after[i] == station);
        }
        if after.contains(station) && !before.contains(station) {
            let i = choose|i: int| 0 <= i < after.len() && after[i] == station;
            if i < before.len() {
                assert(before[i] == station);
            }
        }
        if occurrence(v, ids, last) >= 2 {
            assert(after[after.len() - 1] == last);
        }
        if stations.no_duplicates() {
            assert(!t.contains(last)) by {
                if t.contains(last) {
                    let i = choose|i: int| 0 <= i < t.len() && t[i] == last;
                    assert(stations[i] == stations[stations.len() - 1]);
                }
            }
            assert(t.no_duplicates()) by {
                assert forall|i: int, j: int|
                    0 <= i < t.len() && 0 <= j < t.len() && i != j implies t[i] != t[j] by {
                    assert(stations[i] != stations[j]);
                }
            }
            assert(!before.contains(last));
        }
    }
}

/// The stations of a joint fit are the stations of the network that two events
/// share, in rising order.
proof fn joint_stations_are_shared(v: Seq<FitRecord>, stations: Seq<Seq<char>>, station: Seq<char>)
    ensures
        joint_stations(v, stations).contains(station) <==> stations.contains(station)
            && shared_by_two(v, station),
        texts_in_order(joint_stations(v, stations)),
{
    let ids = primary(v);
    primary_stands(v);
    shared_holds(v, ids, stations, station);
    occurrence_counts(v, ids, station);
    let kept = shared_stations(v, ids, stations);
    sorted_by_holds(kept, |a: Seq<char>, b: Seq<char>| text_le(a, b), station);
    texts_sorted(kept);
    if two_of(v, ids, station) {
        let (a, b) = choose|a: int, b: int| #[trigger] pair_of(v, ids, station, a, b);
        assert(ids.contains(ids[a]) && ids.contains(ids[b]));
        assert(text_lt(v[ids[a]].event_key@, v[ids[b]].event_key@));
        assert(stands_for_event(v, ids[a]) && stands_for_event(v, ids[b]));
    }
    if shared_by_two(v, station) {
        let (p, q) = choose|p: int, q: int|
            p != q && #[trigger] stands_for_event(v, p) && #[trigger] stands_for_event(v, q)
                && observes(v[p], station) && observes(v[q], station);
        assert(ids.contains(p) && ids.contains(q));
        let a = choose|a: int| 0 <= a < ids.len() && ids[a] == p;
        let b = choose|b: int| 0 <= b < ids.len() && ids[b] == q;
        if a < b {
            assert(pair_of(v, ids, station, a, b));
        } else {
            assert(pair_of(v, ids, station, b, a));
        }
    }
}

/// A joint fit is about the best hypothesis of each event, and about exactly
/// those stations of the network that two of these have an observation at,
/// whatever the others have.
pub proof fn joint_fits_are_of_shared_stations(
    v: Seq<FitRecord>,
    network: Seq<Seq<char>>,
    plan: SharedPlan,
    p: usize,
    station: Seq<char>,
)
    requires
        shared_plan(v, network, plan),
        v.len() <= usize::MAX,
    ensures
        match plan {
            SharedPlan::Joint { primary, stations } => {
                &&& primary@.contains(p) <==> stands_for_event(v, p as int)
                &&& primary@.no_duplicates()
                &&& views(stations@).contains(station) <==> network.contains(station)
                    && shared_by_two(v, station)
                &&& texts_in_order(views(stations@))
                &&& primary@.len() >= 2
                &&& stations@.len() >= 2
            },
            _ => true,
        },
{
    if let SharedPlan::Joint { primary: ids, stations } = plan {
        joint_stations_are_shared(v, network, station);
        primary_stands(v);
        let all = primary(v);
        let list = positions(ids@);
        assert(list == all);
        assert(list.len() == ids@.len());
        assert(views(stations@).len() == stations@.len());
        if ids@.contains(p) {
            let i = choose|i: int| 0 <= i < ids@.len() && ids@[i] == p;
            assert(list[i] == p as int);
            assert(all.contains(p as int));
        }
        if stands_for_event(v, p as int) {
            assert(all.contains(p as int));
            let i = choose|i: int| 0 <= i < all.len() && all[i] == p as int;
            assert(list[i] == ids@[i] as int);
        }
        assert forall|i: int, j: int|
            0 <= i < ids@.len() && 0 <= j < ids@.len() && i != j implies ids@[i] != ids@[j] by {
            assert(list[i] == ids@[i] as int && list[j] == ids@[j] as int);
            if i < j {
                assert(text_lt(v[all[i]].event_key@, v[all[j]].event_key@));
            } else {
                assert(text_lt(v[all[j]].event_key@, v[all[i]].event_key@));
            }
        }
    }
}

/// Whether two hypotheses are of different events.
pub open spec fn two_events(v: Seq<FitRecord>) -> bool {
    exists|i: int, j: int|
        0 <= i < v.len() && 0 <= j < v.len() && (#[trigger] v[i]).event_key@ != (
        #[trigger] v[j]).event_key@
}

/// Whether two hypotheses of different events are solved.
pub open spec fn two_solved(v: Seq<FitRecord>) -> bool {
    exists|i: int, j: int|
        0 <= i < v.len() && 0 <= j < v.len() && (#[trigger] v[i]).solved && (
        #[trigger] v[j]).solved && v[i].event_key@ != v[j].event_key@
}

/// Whether two events share two stations of a network: both places of each are
/// observed by two of the hypotheses that stand for the events.
pub open spec fn two_shared(v: Seq<FitRecord>, network: Seq<Seq<char>>) -> bool {
    exists|a: int, b: int|
        0 <= a < network.len() && 0 <= b < network.len() && a != b && shared_by_two(
            v,
            #[trigger] network[a],
        ) && shared_by_two(v, #[trigger] network[b])
}

/// An event with a solved hypothesis has one that stands for it.
proof fn solved_events_are_stood_for(v: Seq<FitRecord>, i: int) -> (p: int)
    requires
        0 <= i < v.len(),
        v[i].solved,
    ensures
        stands_for_event(v, p),
        v[p].event_key@ == v[i].event_key@,
{
    best_is_first_lowest(v, v[i].event_key@, v.len() as int);
    best_of(v, v[i].event_key@, v.len() as int)->0
}

/// A list of names has two of them exactly where two differ.
proof fn two_names(all: Seq<Seq<char>>)
    ensures
        names(all).len() >= 2 <==> exists|i: int, j: int|
            0 <= i < all.len() && 0 <= j < all.len() && #[trigger] all[i] != #[trigger] all[j],
{
    let list = names(all);
    names_is(all);
    if list.len() >= 2 {
        assert(text_lt(list[0], list[1]));
        assert(list.contains(list[0]) && list.contains(list[1]));
        let i = choose|i: int| 0 <= i < all.len() && all[i] == list[0];
        let j = choose|j: int| 0 <= j < all.len() && all[j] == list[1];
        assert(all[i] != all[j]);
    }
    if exists|i: int, j: int|
        0 <= i < all.len() && 0 <= j < all.len() && #[trigger] all[i] != #[trigger] all[j] {
        let (i, j) = choose|i: int, j: int|
            0 <= i < all.len() && 0 <= j < all.len() && #[trigger] all[i] != #[trigger] all[j];
        assert(list.contains(all[i]) && list.contains(all[j]));
        let a = choose|a: int| 0 <= a < list.len() && list[a] == all[i];
        let b = choose|b: int| 0 <= b < list.len() && list[b] == all[j];
        assert(a != b);
    }
}

/// A joint fit is planned exactly where there are two events, two of them are
/// solved, and they share two stations.
pub proof fn joint_fits_need_two_of_each(v: Seq<FitRecord>, network: Seq<Seq<char>>, plan: SharedPlan)
    requires
        shared_plan(v, network, plan),
        network.no_duplicates(),
    ensures
        plan is SingleEvent <==> !two_events(v),
        plan is Joint <==> two_solved(v) && two_shared(v, network),
{
    let keys = event_keys(v);
    two_names(keys);
    if names(keys).len() >= 2 {
        let (i, j) = choose|i: int, j: int|
            0 <= i < keys.len() && 0 <= j < keys.len() && #[trigger] keys[i] != #[trigger] keys[j];
        assert(v[i].event_key@ != v[j].event_key@);
    }
    if two_events(v) {
        let (i, j) = choose|i: int, j: int|
            0 <= i < v.len() && 0 <= j < v.len() && (#[trigger] v[i]).event_key@ != (
            #[trigger] v[j]).event_key@;
        assert(keys[i] != keys[j]);
    }
    primary_stands(v);
    let all = primary(v);
    if two_solved(v) {
        let (i, j) = choose|i: int, j: int|
            0 <= i < v.len() && 0 <= j < v.len() && (#[trigger] v[i]).solved && (
            #[trigger] v[j]).solved && v[i].event_key@ != v[j].event_key@;
        assert(v[i].event_key@ != v[j].event_key@);
        let p = solved_events_are_stood_for(v, i);
        let q = solved_events_are_stood_for(v, j);
        assert(all.contains(p) && all.contains(q));
        let a = choose|a: int| 0 <= a < all.len() && all[a] == p;
        let b = choose|b: int| 0 <= b < all.len() && all[b] == q;
        assert(a != b);
    }
    if all.len() >= 2 {
        assert(text_lt(v[all[0]].event_key@, v[all[1]].event_key@));
        assert(all.contains(all[0]) && all.contains(all[1]));
        assert(stands_for_event(v, all[0]) && stands_for_event(v, all[1]));
        assert(v[all[0]].solved && v[all[1]].solved);
    }
    two_joint_stations(v, network);
}

/// A joint fit has two stations where two events share two of them.
proof fn two_joint_stations(v: Seq<FitRecord>, network: Seq<Seq<char>>)
    requires
        network.no_duplicates(),
    ensures
        joint_stations(v, network).len() >= 2 <==> two_shared(v, network),
{
    let ids = primary(v);
    let kept = shared_stations(v, ids, network);
    let list = joint_stations(v, network);
    sorted_by_holds(kept, |a: Seq<char>, b: Seq<char>| text_le(a, b), Seq::empty());
    shared_holds(v, ids, network, Seq::empty());
    if kept.len() >= 2 {
        let (x, y) = (kept[0], kept[1]);
        shared_holds(v, ids, network, x);
        shared_holds(v, ids, network, y);
        assert(kept.contains(x) && kept.contains(y));
        let a = choose|a: int| 0 <= a < network.len() && network[a] == x;
        let b = choose|b: int| 0 <= b < network.len() && network[b] == y;
        joint_stations_are_shared(v, network, x);
        joint_stations_are_shared(v, network, y);
        sorted_by_holds(kept, |a: Seq<char>, b: Seq<char>| text_le(a, b), x);
        sorted_by_holds(kept, |a: Seq<char>, b: Seq<char>| text_le(a, b), y);
        assert(shared_by_two(v, network[a]) && shared_by_two(v, network[b]));
    }
    if two_shared(v, network) {
        let (a, b) = choose|a: int, b: int|
            0 <= a < network.len() && 0 <= b < network.len() && a != b && shared_by_two(
                v,
                #[trigger] network[a],
            ) && shared_by_two(v, #[trigger] network[b]);
        joint_stations_are_shared(v, network, network[a]);
        joint_stations_are_shared(v, network, network[b]);
        assert(list.contains(network[a]) && list.contains(network[b]));
        let i = choose|i: int| 0 <= i < list.len() && list[i] == network[a];
        let j = choose|j: int| 0 <= j < list.len() && list[j] == network[b];
        assert(i != j);
    }
}

/// A joint fit is accepted exactly where there is one, and the misfit of the
/// whole is a number below the sum of the misfits of the fits on their own; the
/// first of its stations is then the reference, and it is about the events of
/// its hypotheses.
pub proof fn joint_fits_are_accepted_for_less(
    v: Seq<FitRecord>,
    network: Seq<Seq<char>>,
    plan: SharedPlan,
    joint: Option<(Option<i64>, Option<i64>)>,
    r: Verdict,
    key: Seq<char>,
)
    requires
        shared_plan(v, network, plan),
        joint_settled(plan, v, joint, r),
    ensures
        r is Accepted <==> plan is Joint && (joint matches Some((Some(together), Some(apart)))
            && together < apart),
        r is RankDeficient <==> plan is Joint && joint is None,
        r is NotBetter <==> plan is Joint && joint is Some && !(joint matches Some(
            (Some(together), Some(apart)),
        ) && together < apart),
        r is SingleEvent <==> plan is SingleEvent,
        r is NotIdentifiable <==> plan is NotIdentifiable,
        match (plan, r) {
            (
                SharedPlan::Joint { stations, .. },
                Verdict::Accepted { events, reference },
            ) => {
                &&& views(stations@).contains(reference@)
                &&& forall|i: int|
                    0 <= i < stations@.len() ==> text_le(reference@, (#[trigger] stations@[i])@)
                &&& views(events@).contains(key) <==> exists|i: int|
                    0 <= i < v.len() && (#[trigger] v[i]).solved && v[i].event_key@ == key
            },
            _ => true,
        },
{
    if let SharedPlan::Joint { primary: ids, stations } = plan {
        if let Verdict::Accepted { events, reference } = r {
            joint_stations_are_shared(v, network, key);
            primary_stands(v);
            let all = primary(v);
            let list = positions(ids@);
            let names = views(stations@);
            assert(list.len() == ids@.len());
            assert(names.len() == stations@.len());
            assert(names[0] == reference@);
            assert forall|i: int| 0 <= i < stations@.len() implies text_le(
                reference@,
                (#[trigger] stations@[i])@,
            ) by {
                assert(names[i] == stations@[i]@);
                assert(text_le(names[0], names[i]));
            }
            let told = views(events@);
            if told.contains(key) {
                let i = choose|i: int| 0 <= i < told.len() && told[i] == key;
                assert(events_at(v, ids@)[i] == v[ids@[i] as int].event_key@);
                assert(list[i] == ids@[i] as int);
                assert(all.contains(all[i]));
                assert(stands_for_event(v, all[i]));
                assert(v[all[i]].solved);
            }
            if exists|i: int|
                0 <= i < v.len() && (#[trigger] v[i]).solved && v[i].event_key@ == key {
                let i = choose|i: int|
                    0 <= i < v.len() && (#[trigger] v[i]).solved && v[i].event_key@ == key;
                let p = solved_events_are_stood_for(v, i);
                assert(all.contains(p));
                let a = choose|a: int| 0 <= a < all.len() && all[a] == p;
                assert(list[a] == ids@[a] as int);
                assert(events_at(v, ids@)[a] == key);
                assert(told[a] == key);
            }
        }
    }
}

/// A clock of a joint fit has a parameter behind the three of each event, by
/// the place of its station; the first station is the reference and has none,
/// nor has a station that takes no part.
pub proof fn joint_clocks_come_behind_the_events(
    events: int,
    shared: Seq<Seq<char>>,
    station: Seq<char>,
    k: int,
)
    requires
        0 <= k <= shared.len(),
        forall|i: int| 0 <= i < k ==> #[trigger] shared[i] != station,
        k < shared.len() ==> shared[k] == station,
    ensures
        k == 0 || k == shared.len() ==> joint_clock(events, shared, station) is None,
        0 < k < shared.len() ==> joint_clock(events, shared, station) == Some(3 * events + k - 1),
{
    place_is_first(shared, station, k);
}

/// A text is at its first place in a list.
proof fn place_is_first(v: Seq<Seq<char>>, s: Seq<char>, k: int)
    requires
        0 <= k <= v.len(),
        forall|i: int| 0 <= i < k ==> #[trigger] v[i] != s,
        k < v.len() ==> v[k] == s,
    ensures
        text_place(v, s) == k,
    decreases k,
{
    if k > 0 {
        let t = v.drop_first();
        assert(v[0] != s);
        assert forall|i: int| 0 <= i < k - 1 implies #[trigger] t[i] != s by {
            assert(v[i + 1] != s);
        }
        place_is_first(t, s, k - 1);
    }
}

/// What came of shared clocks is told of each hypothesis: why there is no joint
/// fit; or, of the solved ones of its events, its reference.
pub proof fn verdicts_are_told(v: Verdict, f: FitRecord, i: int)
    ensures
        v is SingleEvent ==> verdict_note(v, f) == Some(
            "shared_clock_bias_not_identifiable_single_event"@,
        ),
        v is NotIdentifiable ==> verdict_note(v, f) == Some("shared_clock_bias_not_identifiable"@),
        v is RankDeficient ==> verdict_note(v, f) == Some(
            "shared_clock_joint_hessian_rank_deficient"@,
        ),
        v is NotBetter ==> verdict_note(v, f) == Some(
            "shared_clock_correction_rejected_by_chi_square"@,
        ),
        v matches Verdict::Accepted { events, reference } ==> {
            &&& !f.solved ==> verdict_note(v, f) is None
            &&& (forall|k: int|
                0 <= k < events@.len() ==> (#[trigger] events@[k])@ != f.event_key@)
                ==> verdict_note(v, f) is None
            &&& f.solved && 0 <= i < events@.len() && events@[i]@ == f.event_key@ ==> verdict_note(
                v,
                f,
            ) == Some("shared_clock_reference:"@ + reference@)
        },
{
    if let Verdict::Accepted { events, reference } = v {
        let list = views(events@);
        if list.contains(f.event_key@) {
            let k = choose|k: int| 0 <= k < list.len() && list[k] == f.event_key@;
            assert(events@[k]@ == f.event_key@);
        }
        if 0 <= i < events@.len() && events@[i]@ == f.event_key@ {
            assert(list[i] == f.event_key@);
        }
    }
}

} // verus!
