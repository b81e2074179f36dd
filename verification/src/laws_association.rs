//! Laws of association: which arrivals go with an event, said by times,
//! stations and locks.
use vstd::prelude::*;

use crate::association::{
    all_left, leaves, locked_to, network_planned, taken, takes, untaken, Blueprint, Plan,
};
use crate::model::Phase;
use crate::network::{
    before_p, bias_at, covers, observation_of, order_bad, order_bad_means, p_at, placed_below,
    station_place, EventLock, Pick, PickObservation, PickStatus, Segment, SolveContext, Station,
};
use crate::network_fit::{drafted, Draft};
use crate::reports::only_one;

verus! {

/// Whether no lock is about a pick.
pub open spec fn free(locks: Seq<EventLock>, id: Seq<char>) -> bool {
    forall|m: int| 0 <= m < locks.len() ==> (#[trigger] locks[m]).pick_id@ != id
}

/// Whether the first lock that is about a pick ties it to an event.
pub open spec fn tied(locks: Seq<EventLock>, id: Seq<char>, key: Seq<char>) -> bool {
    exists|m: int| #[trigger] ties(locks, id, key, m)
}

/// Whether a lock is the first that is about a pick, and ties it to an event.
pub open spec fn ties(locks: Seq<EventLock>, id: Seq<char>, key: Seq<char>, m: int) -> bool {
    &&& 0 <= m < locks.len()
    &&& locks[m].pick_id@ == id
    &&& locks[m].event_key@ == key
    &&& forall|n: int| 0 <= n < m ==> (#[trigger] locks[n]).pick_id@ != id
}

/// A pick is tied to the event of the first lock that names it.
pub proof fn first_lock_counts(locks: Seq<EventLock>, id: Seq<char>, key: Seq<char>)
    ensures
        locked_to(locks, id) is None <==> free(locks, id),
        locked_to(locks, id) == Some(key) <==> tied(locks, id, key),
    decreases locks.len(),
{
    if locks.len() > 0 {
        let rest = locks.drop_first();
        first_lock_counts(rest, id, key);
        assert forall|m: int| 0 <= m < rest.len() implies (#[trigger] rest[m]).pick_id@ == locks[m
            + 1].pick_id@ by {}
        if locks[0].pick_id@ == id {
            if locks[0].event_key@ == key {
                assert(ties(locks, id, key, 0));
            }
            if tied(locks, id, key) {
                let m = choose|m: int| #[trigger] ties(locks, id, key, m);
                assert(m == 0) by {
                    if m > 0 {
                        assert(locks[0].pick_id@ != id);
                    }
                }
            }
        } else {
            if free(rest, id) {
                assert forall|m: int| 0 <= m < locks.len() implies (#[trigger] locks[m]).pick_id@
                    != id by {
                    if m > 0 {
                        assert(rest[m - 1].pick_id@ != id);
                    }
                }
            }
            if free(locks, id) {
                assert forall|m: int| 0 <= m < rest.len() implies (#[trigger] rest[m]).pick_id@
                    != id by {
                    assert(locks[m + 1].pick_id@ != id);
                }
            }
            if tied(rest, id, key) {
                let m = choose|m: int| #[trigger] ties(rest, id, key, m);
                assert forall|n: int| 0 <= n < m + 1 implies (#[trigger] locks[n]).pick_id@ != id by {
                    if n > 0 {
                        assert(rest[n - 1].pick_id@ != id);
                    }
                }
                assert(ties(locks, id, key, m + 1));
            }
            if tied(locks, id, key) {
                let m = choose|m: int| #[trigger] ties(locks, id, key, m);
                assert forall|n: int| 0 <= n < m - 1 implies (#[trigger] rest[n]).pick_id@ != id by {
                    assert(locks[n + 1].pick_id@ != id);
                }
                assert(ties(rest, id, key, m - 1));
            }
        }
    } else if tied(locks, id, key) {
        let m = choose|m: int| #[trigger] ties(locks, id, key, m);
        assert(false);
    }
}

/// A hypothesis takes an arrival that is no noise by its lock, where it has
/// one; else by its time: a P arrival within thirty seconds of the start of
/// the event, before or after, an S arrival within fifteen seconds after it,
/// and neither at the station that the hypothesis does without.
pub proof fn arrivals_are_taken_by_lock_or_time(context: SolveContext, b: Plan, o: PickObservation)
    ensures
        ({
            let pick = context.picks@[o.pick_index as int];
            let dt = o.observed_epoch - b.seed_time;
            takes(context, b, o) <==> {
                &&& pick.status != PickStatus::Noise
                &&& if free(context.locks@, pick.pick_id@) {
                    &&& b.omitted_station != Some(pick.station_id@)
                    &&& pick.phase == Phase::P ==> -30_000_000_000 <= dt <= 30_000_000_000
                    &&& pick.phase == Phase::S ==> 0 <= dt <= 15_000_000_000
                } else {
                    tied(context.locks@, pick.pick_id@, b.event_key)
                }
            }
        }),
{
    let pick = context.picks@[o.pick_index as int];
    first_lock_counts(context.locks@, pick.pick_id@, b.event_key);
}

/// An arrival without a lock is never taken by hypotheses of two events that
/// start more than a minute apart.
pub proof fn arrivals_go_with_one_of_distant_events(
    context: SolveContext,
    a: Plan,
    b: Plan,
    o: PickObservation,
)
    requires
        free(context.locks@, context.picks@[o.pick_index as int].pick_id@),
        a.seed_time + 60_000_000_000 < b.seed_time,
    ensures
        !(takes(context, a, o) && takes(context, b, o)),
{
    arrivals_are_taken_by_lock_or_time(context, a, o);
    arrivals_are_taken_by_lock_or_time(context, b, o);
}

/// Whether an S arrival comes before a P arrival at its station that is at
/// most fifteen seconds later; noise does not count.
pub open spec fn s_before_p(picks: Seq<Pick>, k: int) -> bool {
    &&& picks[k].phase == Phase::S
    &&& picks[k].status != PickStatus::Noise
    &&& exists|j: int|
        0 <= j < picks.len() && (#[trigger] picks[j]).phase == Phase::P && picks[j].status
            != PickStatus::Noise && picks[j].station_id@ == picks[k].station_id@ && 0
            < picks[j].epoch - picks[k].epoch <= 15_000_000_000
}

/// An S arrival is out of order where it comes before a P arrival of its
/// station that is at most fifteen seconds later; a P arrival never is.
pub proof fn s_arrivals_follow_their_p(picks: Seq<Pick>, k: int)
    requires
        0 <= k < picks.len(),
        only_one(picks, k),
    ensures
        order_bad(picks, picks[k].pick_id@, picks.len() as int) <==> s_before_p(picks, k),
{
    let pick = picks[k];
    if pick.phase == Phase::S && pick.status != PickStatus::Noise {
        order_bad_means(picks, k);
        if before_p(picks, pick) {
            let j = choose|j: int|
                0 <= j < picks.len() && p_at(#[trigger] picks[j], pick.station_id@) && pick.epoch
                    < picks[j].epoch && picks[j].epoch - pick.epoch
                    <= crate::network::PHASE_GAP;
            assert(picks[j].phase == Phase::P);
        }
        if s_before_p(picks, k) {
            let j = choose|j: int|
                0 <= j < picks.len() && (#[trigger] picks[j]).phase == Phase::P && picks[j].status
                    != PickStatus::Noise && picks[j].station_id@ == picks[k].station_id@ && 0
                    < picks[j].epoch - picks[k].epoch <= 15_000_000_000;
            assert(p_at(picks[j], pick.station_id@));
        }
    } else {
        never_ordered(picks, k, picks.len() as int);
    }
}

/// A pick that is no S arrival in use is not looked at for its order.
proof fn never_ordered(picks: Seq<Pick>, k: int, n: int)
    requires
        0 <= k < picks.len(),
        only_one(picks, k),
        picks[k].phase == Phase::P || picks[k].status == PickStatus::Noise,
        0 <= n <= picks.len(),
    ensures
        !order_bad(picks, picks[k].pick_id@, n),
    decreases n,
{
    if n > 0 {
        never_ordered(picks, k, n - 1);
        if n - 1 != k {
            assert(picks[n - 1].pick_id@ != picks[k].pick_id@);
        }
    }
}

/// Why a hypothesis leaves an arrival, where it does: noise first, then the
/// order of the phases, then a lock to another event, then the station that it
/// does without, then the time.
pub open spec fn reason_to_leave(context: SolveContext, b: Plan, o: PickObservation) -> Option<
    Seq<char>,
> {
    let k = o.pick_index as int;
    let pick = context.picks@[k];
    let dt = o.observed_epoch - b.seed_time;
    if pick.status == PickStatus::Noise {
        Some("marked_as_noise"@)
    } else if s_before_p(context.picks@, k) {
        Some("s_arrival_before_station_p"@)
    } else if !free(context.locks@, pick.pick_id@) {
        if tied(context.locks@, pick.pick_id@, b.event_key) {
            None
        } else {
            Some("locked_to_other_candidate"@)
        }
    } else if b.omitted_station == Some(pick.station_id@) {
        Some("omitted_by_alternative_hypothesis"@)
    } else if pick.phase == Phase::P && -30_000_000_000 <= dt <= 30_000_000_000 || pick.phase
        == Phase::S && 0 <= dt <= 15_000_000_000 {
        None
    } else {
        Some("outside_association_window"@)
    }
}

/// A hypothesis leaves an arrival for the reason that its times and locks give,
/// and takes it where they give none.
proof fn reasons_are_given(context: SolveContext, b: Plan, o: PickObservation)
    requires
        o.pick_index < context.picks@.len(),
        only_one(context.picks@, o.pick_index as int),
    ensures
        leaves(context, b, o) == reason_to_leave(context, b, o),
{
    let pick = context.picks@[o.pick_index as int];
    arrivals_are_taken_by_lock_or_time(context, b, o);
    first_lock_counts(context.locks@, pick.pick_id@, b.event_key);
    s_arrivals_follow_their_p(context.picks@, o.pick_index as int);
}

/// What a hypothesis takes are the arrivals that it has no reason to leave.
proof fn taken_holds(context: SolveContext, b: Plan, v: Seq<PickObservation>, o: PickObservation)
    ensures
        taken(context, b, v).contains(o) <==> v.contains(o) && leaves(context, b, o) is None,
    decreases v.len(),
{
    if v.len() > 0 {
        let (w, last) = (v.drop_last(), v.last());
        taken_holds(context, b, w, o);
        let (before, after) = (taken(context, b, w), taken(context, b, v));
        if w.contains(o) {
            let i = choose|i: int| 0 <= i < w.len() && w[i] == o;
            assert(v[i] == o);
        }
        if v.contains(o) && o != last {
            let i = choose|i: int| 0 <= i < v.len() && v[i] == o;
            assert(w[i] == o);
        }
        assert(v[v.len() - 1] == last);
        if before.contains(o) {
            let i = choose|i: int| 0 <= i < before.len() && before[i] == o;
            assert(after[i] == o);
        }
        if after.contains(o) && o != last {
            let i = choose|i: int| 0 <= i < after.len() && after[i] == o;
            assert(before[i] == o);
        }
        if leaves(context, b, last) is None {
            assert(after[after.len() - 1] == last);
        }
    }
}

/// What a hypothesis leaves are the arrivals that it has a reason to leave,
/// with that reason.
proof fn untaken_holds(
    context: SolveContext,
    b: Plan,
    v: Seq<PickObservation>,
    o: PickObservation,
    reason: Seq<char>,
)
    ensures
        untaken(context, b, v).contains((o, reason)) <==> v.contains(o) && leaves(context, b, o)
            == Some(reason),
    decreases v.len(),
{
    if v.len() > 0 {
        let (w, last) = (v.drop_last(), v.last());
        untaken_holds(context, b, w, o, reason);
        let (before, after) = (untaken(context, b, w), untaken(context, b, v));
        if w.contains(o) {
            let i = choose|i: int| 0 <= i < w.len() && w[i] == o;
            assert(v[i] == o);
        }
        if v.contains(o) && o != last {
            let i = choose|i: int| 0 <= i < v.len() && v[i] == o;
            assert(w[i] == o);
        }
        assert(v[v.len() - 1] == last);
        if before.contains((o, reason)) {
            let i = choose|i: int| 0 <= i < before.len() && before[i] == (o, reason);
            assert(after[i] == (o, reason));
        }
        if after.contains((o, reason)) && !before.contains((o, reason)) {
            let i = choose|i: int| 0 <= i < after.len() && after[i] == (o, reason);
            if i < before.len() {
                assert(before[i] == after[i]);
            }
        }
        if leaves(context, b, last) is Some {
            assert(after[after.len() - 1] == (last, leaves(context, b, last)->0));
        }
    }
}

/// Each arrival is either taken by a hypothesis or left for one reason, and
/// which it is follows from its times, its station and its locks.
pub proof fn hypotheses_take_what_belongs_to_them(
    context: SolveContext,
    b: Blueprint,
    observations: Seq<PickObservation>,
    d: Draft,
    o: PickObservation,
)
    requires
        drafted(context, b, observations, d),
        observations.contains(o),
        o.pick_index < context.picks@.len(),
        only_one(context.picks@, o.pick_index as int),
    ensures
        d.observations@.contains(o) <==> reason_to_leave(context, b@, o) is None,
        forall|reason: Seq<char>| #[trigger]
            all_left(d.rejected@).contains((o, reason)) <==> reason_to_leave(context, b@, o)
                == Some(reason),
{
    reasons_are_given(context, b@, o);
    taken_holds(context, b@, observations, o);
    assert forall|reason: Seq<char>| #[trigger]
        all_left(d.rejected@).contains((o, reason)) <==> reason_to_leave(context, b@, o) == Some(
            reason,
        ) by {
        untaken_holds(context, b@, observations, o, reason);
    }
}

/// Whether a segment is about a station at a time: from its start on, and
/// before its end where it has one.
pub open spec fn in_force(s: Segment, station: Seq<char>, t: int) -> bool {
    s.station_id@ == station && s.start <= t && (s.end is Some ==> t < s.end->0)
}

/// The bias of a clock is that of the last segment in force, and none where
/// none is.
pub proof fn last_segment_counts(segments: Seq<Segment>, station: Seq<char>, t: int, m: int)
    requires
        0 <= m < segments.len(),
    ensures
        (forall|i: int| 0 <= i < segments.len() ==> !in_force(#[trigger] segments[i], station, t))
            ==> bias_at(segments, station, t) == 0,
        in_force(segments[m], station, t) && (forall|i: int|
            m < i < segments.len() ==> !in_force(#[trigger] segments[i], station, t)) ==> bias_at(
            segments,
            station,
            t,
        ) == segments[m].bias_seconds,
    decreases segments.len(),
{
    let rest = segments.drop_last();
    let last = segments.len() - 1;
    assert(covers(segments[last], station, t) == in_force(segments[last], station, t));
    if segments.len() > 1 {
        let n = if m < last {
            m
        } else {
            0
        };
        last_segment_counts(rest, station, t, n);
        assert forall|i: int| 0 <= i < rest.len() implies #[trigger] rest[i] == segments[i] by {}
        if forall|i: int| 0 <= i < segments.len() ==> !in_force(#[trigger] segments[i], station, t) {
            assert(!in_force(segments[last], station, t));
            assert forall|i: int| 0 <= i < rest.len() implies !in_force(
                #[trigger] rest[i],
                station,
                t,
            ) by {
                assert(!in_force(segments[i], station, t));
            }
        }
        if m < last && in_force(segments[m], station, t) && (forall|i: int|
            m < i < segments.len() ==> !in_force(#[trigger] segments[i], station, t)) {
            assert forall|i: int| m < i < rest.len() implies !in_force(
                #[trigger] rest[i],
                station,
                t,
            ) by {
                assert(!in_force(segments[i], station, t));
            }
            assert(in_force(rest[m], station, t));
            assert(!in_force(segments[last], station, t));
        }
    } else {
        assert(rest =~= Seq::<Segment>::empty());
        assert(bias_at(rest, station, t) == 0);
    }
}

/// Without segments no clock has a bias.
pub proof fn clocks_are_right_by_default(station: Seq<char>, t: int)
    ensures
        bias_at(Seq::empty(), station, t) == 0,
{
}

/// An arrival is observed at the first station with its id, at its time less
/// the bias of that station's clock at that time, with a sigma of at least a
/// thousandth of a second.
pub proof fn arrivals_are_corrected(context: SolveContext, index: int, o: PickObservation)
    requires
        0 <= index < context.picks@.len(),
        observation_of(context, index, o),
    ensures
        ({
            let pick = context.picks@[index];
            &&& o.pick_index == index
            &&& o.phase == pick.phase
            &&& o.confidence == pick.confidence
            &&& context.stations@[o.station_index as int].station_id@ == pick.station_id@
            &&& forall|i: int|
                0 <= i < o.station_index ==> (#[trigger] context.stations@[i]).station_id@
                    != pick.station_id@
            &&& o.observed_epoch + bias_at(
                context.segments@,
                pick.station_id@,
                pick.epoch as int,
            ) == pick.epoch
            &&& o.sigma_seconds >= 1_000_000
            &&& pick.sigma_seconds >= 1_000_000 ==> o.sigma_seconds == pick.sigma_seconds
            &&& pick.sigma_seconds < 1_000_000 ==> o.sigma_seconds == 1_000_000
        }),
{
    station_place_first(context.stations@, context.picks@[index].station_id@);
}

/// A station is looked up by the first that has its id.
proof fn station_place_first(stations: Seq<Station>, id: Seq<char>)
    ensures
        0 <= station_place(stations, id) <= stations.len(),
        station_place(stations, id) < stations.len() ==> stations[station_place(
            stations,
            id,
        )].station_id@ == id,
        forall|i: int|
            0 <= i < station_place(stations, id) ==> (#[trigger] stations[i]).station_id@ != id,
    decreases stations.len(),
{
    if stations.len() > 0 && stations[0].station_id@ != id {
        let rest = stations.drop_first();
        station_place_first(rest, id);
        assert forall|i: int| 0 <= i < station_place(stations, id) implies (
        #[trigger] stations[i]).station_id@ != id by {
            if i > 0 {
                assert(rest[i - 1] == stations[i]);
            }
        }
    }
}

/// Each pick at a station of the network is observed once, in the order of the
/// picks; a pick at another station is not.
pub proof fn picks_of_the_network_are_observed(
    context: SolveContext,
    observations: Seq<PickObservation>,
    hypotheses: Seq<Blueprint>,
    k: int,
)
    requires
        network_planned(context, observations, hypotheses),
        0 <= k < context.picks@.len(),
    ensures
        (exists|i: int| 0 <= i < observations.len() && (#[trigger] observations[i]).pick_index == k)
            <==> (exists|s: int|
            0 <= s < context.stations@.len() && (#[trigger] context.stations@[s]).station_id@
                == context.picks@[k].station_id@),
        forall|i: int, j: int|
            0 <= i < j < observations.len() ==> (#[trigger] observations[i]).pick_index < (
            #[trigger] observations[j]).pick_index,
{
    let n = context.picks@.len() as int;
    let ids = placed_below(context, n);
    let id = context.picks@[k].station_id@;
    station_place_first(context.stations@, id);
    placed_below_is(context, n, k);
    assert forall|i: int| 0 <= i < observations.len() implies (
    #[trigger] observations[i]).pick_index == ids[i] by {
        assert(observation_of(context, ids[i], observations[i]));
    }
    if exists|i: int| 0 <= i < observations.len() && (#[trigger] observations[i]).pick_index == k {
        let i = choose|i: int|
            0 <= i < observations.len() && (#[trigger] observations[i]).pick_index == k;
        assert(ids[i] == k);
        let s = station_place(context.stations@, id);
        assert(context.stations@[s].station_id@ == id);
    }
    if exists|s: int|
        0 <= s < context.stations@.len() && (#[trigger] context.stations@[s]).station_id@ == id {
        let s = choose|s: int|
            0 <= s < context.stations@.len() && (#[trigger] context.stations@[s]).station_id@ == id;
        assert(station_place(context.stations@, id) <= s);
        assert(ids.contains(k));
        let i = choose|i: int| 0 <= i < ids.len() && ids[i] == k;
        assert(observations[i].pick_index == k);
    }
    assert forall|i: int, j: int| 0 <= i < j < observations.len() implies (
    #[trigger] observations[i]).pick_index < (#[trigger] observations[j]).pick_index by {
        assert(ids[i] < ids[j]);
    }
}

/// The places of the picks of known stations, in rising order.
proof fn placed_below_is(context: SolveContext, n: int, k: int)
    ensures
        placed_below(context, n).contains(k) <==> 0 <= k < n && station_place(
            context.stations@,
            context.picks@[k].station_id@,
        ) < context.stations@.len(),
        forall|i: int, j: int|
            0 <= i < j < placed_below(context, n).len() ==> (#[trigger] placed_below(context, n)[i])
                < #[trigger] placed_below(context, n)[j],
        forall|i: int|
            0 <= i < placed_below(context, n).len() ==> (#[trigger] placed_below(context, n)[i])
                < n,
    decreases n,
{
    if n > 0 {
        placed_below_is(context, n - 1, k);
        let (before, after) = (placed_below(context, n - 1), placed_below(context, n));
        if before.contains(k) {
            let i = choose|i: int| 0 <= i < before.len() && before[i] == k;
            assert(after[i] == k);
        }
        if after.contains(k) && k != n - 1 {
            let i = choose|i: int| 0 <= i < after.len() && after[i] == k;
            assert(before[i] == k);
        }
        if k == n - 1 && after.len() > before.len() {
            assert(after[after.len() - 1] == k);
        }
        assert forall|i: int, j: int| 0 <= i < j < after.len() implies (#[trigger] after[i])
            < #[trigger] after[j] by {
            assert(after[i] == before[i]);
            if j < before.len() {
                assert(after[j] == before[j]);
            }
        }
    }
}

} // verus!
