//! What holds of every candidate of a network: noise is never used, locked
//! arrivals stay with their event, and too few stations give no place.
use vstd::prelude::*;

use crate::arrivals::{
    every_arrival_is_reported, every_observation_is_accepted_or_rejected, ids_of, reported_ids,
};
use crate::association::{
    all_left, leaves, locked_to, network_planned, taken, untaken, Blueprint, Plan,
};
use crate::candidate::{reported, Candidate};
use crate::cluster::climbing;
use crate::model::Phase;
use crate::network::{
    observation_of, order_bad, placed as at_known_station, placed_below, seeds, Pick,
    PickObservation, PickStatus, SolveContext,
};
use crate::network_fit::{
    all_used, locked, locked_observations_stay, p_count, reports, slot_list, slots_are_stations,
    staying, trimmed, unused, CandidatePick,
};
use crate::order::{in_order, sorted, sorted_members};
use crate::outcomes::{
    attempt_fits, attempted, has_solution, network_solved, noted, Account, Attempt, Trail,
};
use crate::ranking::{but_for_rank, kept_come_from};
use crate::shared_clocks::verdict_note;
use crate::text::views;

verus! {

/// Whether no other pick has the id of a pick.
pub open spec fn only_one(picks: Seq<Pick>, k: int) -> bool {
    forall|i: int|
        0 <= i < picks.len() && i != k ==> (#[trigger] picks[i]).pick_id@ != picks[k].pick_id@
}

/// Whether some reports hold one about a pick with a reason.
pub open spec fn rejected_for(v: Seq<CandidatePick>, id: Seq<char>, reason: Seq<char>) -> bool {
    exists|i: int|
        0 <= i < v.len() && (#[trigger] v[i]).pick_id@ == id && v[i].reason is Some
            && v[i].reason->0@ == reason
}

/// Whether some reports hold one about a pick.
pub open spec fn reported_in(v: Seq<CandidatePick>, id: Seq<char>) -> bool {
    exists|i: int| 0 <= i < v.len() && (#[trigger] v[i]).pick_id@ == id
}

/// A pick at a known station is observed.
proof fn known_picks_are_observed(
    context: SolveContext,
    observations: Seq<PickObservation>,
    hypotheses: Seq<Blueprint>,
    k: int,
) -> (i: int)
    requires
        network_planned(context, observations, hypotheses),
        0 <= k < context.picks@.len(),
        at_known_station(context, k),
    ensures
        0 <= i < observations.len(),
        observations[i].pick_index == k,
{
    let n = context.picks@.len() as int;
    let ids = placed_below(context, n);
    placed_below_holds(context, n, k);
    let i = choose|i: int| 0 <= i < ids.len() && ids[i] == k;
    assert(observation_of(context, ids[i], observations[i]));
    i
}

/// The places of picks at known stations hold each such pick.
proof fn placed_below_holds(context: SolveContext, n: int, k: int)
    requires
        0 <= k < n,
        at_known_station(context, k),
    ensures
        placed_below(context, n).contains(k),
    decreases n,
{
    let r = placed_below(context, n);
    if k == n - 1 {
        assert(r[r.len() - 1] == k);
    } else {
        placed_below_holds(context, n - 1, k);
        let before = placed_below(context, n - 1);
        let i = choose|i: int| 0 <= i < before.len() && before[i] == k;
        assert(r[i] == k);
    }
}

/// What a hypothesis leaves is among what it left, with the reason.
proof fn left_is_untaken(context: SolveContext, b: Plan, v: Seq<PickObservation>, i: int)
    requires
        0 <= i < v.len(),
        leaves(context, b, v[i]) is Some,
    ensures
        untaken(context, b, v).contains((v[i], leaves(context, b, v[i])->0)),
    decreases v.len(),
{
    let t = v.drop_last();
    let r = untaken(context, b, v);
    let x = (v[i], leaves(context, b, v[i])->0);
    if i < t.len() {
        left_is_untaken(context, b, t, i);
        let before = untaken(context, b, t);
        let k = choose|k: int| 0 <= k < before.len() && before[k] == x;
        assert(r[k] == x);
    } else {
        assert(r[r.len() - 1] == x);
    }
}

/// What a hypothesis does not leave, it takes; and it takes nothing else.
proof fn taken_is(context: SolveContext, b: Plan, v: Seq<PickObservation>)
    ensures
        forall|o: PickObservation| #[trigger]
            taken(context, b, v).contains(o) <==> v.contains(o) && leaves(context, b, o) is None,
    decreases v.len(),
{
    let r = taken(context, b, v);
    if v.len() > 0 {
        let t = v.drop_last();
        taken_is(context, b, t);
        let before = taken(context, b, t);
        assert forall|o: PickObservation| #[trigger] r.contains(o) <==> v.contains(o) && leaves(
            context,
            b,
            o,
        ) is None by {
            if r.contains(o) {
                let k = choose|k: int| 0 <= k < r.len() && r[k] == o;
                if k < before.len() {
                    assert(before[k] == o);
                    assert(before.contains(o));
                    let i = choose|i: int| 0 <= i < t.len() && t[i] == o;
                    assert(v[i] == o);
                } else {
                    assert(v[v.len() - 1] == o);
                }
            }
            if v.contains(o) && leaves(context, b, o) is None {
                let i = choose|i: int| 0 <= i < v.len() && v[i] == o;
                if i < t.len() {
                    assert(t[i] == o);
                    assert(before.contains(o));
                    let k = choose|k: int| 0 <= k < before.len() && before[k] == o;
                    assert(r[k] == o);
                } else {
                    assert(r[r.len() - 1] == o);
                }
            }
        }
    }
}

/// What is left of some observations is among them.
proof fn trimmed_among(
    context: SolveContext,
    v: Seq<PickObservation>,
    accepted: Seq<usize>,
    o: PickObservation,
)
    requires
        trimmed(context, v, accepted).contains(o),
    ensures
        v.contains(o),
    decreases v.len(),
{
    let r = trimmed(context, v, accepted);
    if v.len() > 0 {
        let t = v.drop_last();
        let before = trimmed(context, t, accepted);
        let k = choose|k: int| 0 <= k < r.len() && r[k] == o;
        if k < before.len() {
            assert(before[k] == o);
            trimmed_among(context, t, accepted, o);
            let i = choose|i: int| 0 <= i < t.len() && t[i] == o;
            assert(v[i] == o);
        } else {
            assert(v[v.len() - 1] == o);
        }
    }
}

/// What a hypothesis leaves is rejected with the reason.
proof fn left_is_rejected(
    context: SolveContext,
    b: Blueprint,
    observations: Seq<PickObservation>,
    a: Attempt,
    t: Trail,
    i: int,
)
    requires
        attempted(context, b, observations, a, t),
        0 <= i < observations.len(),
        leaves(context, b@, observations[i]) is Some,
    ensures
        rejected_for(
            t.outcome.fitted.rejected@,
            context.picks@[observations[i].pick_index as int].pick_id@,
            leaves(context, b@, observations[i])->0,
        ),
{
    let x = (observations[i], leaves(context, b@, observations[i])->0);
    let out = untaken(context, b@, observations);
    let r = t.outcome.fitted.rejected@;
    left_is_untaken(context, b@, observations, i);
    let k = choose|k: int| 0 <= k < out.len() && out[k] == x;
    if has_solution(context, b@, observations, a) {
        let all = all_left(t.settled.rejected@);
        assert(all[k] == x);
        assert(unused(context, all[k], r[k]));
    } else {
        let all = all_left(t.draft.rejected@);
        assert(all[k] == x);
        assert(unused(context, all[k], r[k]));
    }
}

/// The reports of what stays with the last fit of a solved hypothesis, before
/// they are put in order.
proof fn unordered_reports(
    context: SolveContext,
    b: Blueprint,
    observations: Seq<PickObservation>,
    a: Attempt,
    t: Trail,
) -> (v: Seq<CandidatePick>)
    requires
        attempted(context, b, observations, a, t),
        has_solution(context, b@, observations, a),
    ensures
        v.len() == t.settled.observations@.len(),
        forall|i: int|
            0 <= i < v.len() ==> reports(context, t.settled.observations@[i], #[trigger] v[i]),
        forall|c: CandidatePick| #[trigger]
            t.outcome.fitted.accepted@.contains(c) <==> v.contains(c),
{
    let n = a.numbers->0;
    let v = choose|v: Seq<CandidatePick>|
        all_used(context, t.settled.observations@, n.predictions@, n.contributions@, v)
            && t.outcome.fitted.accepted@ == #[trigger] sorted(v);
    sorted_members(v);
    v
}

/// What a hypothesis accepts is about an observation that it takes.
proof fn accepted_is_taken(
    context: SolveContext,
    b: Blueprint,
    observations: Seq<PickObservation>,
    a: Attempt,
    t: Trail,
    j: int,
) -> (o: PickObservation)
    requires
        attempted(context, b, observations, a, t),
        0 <= j < t.outcome.fitted.accepted@.len(),
    ensures
        taken(context, b@, observations).contains(o),
        reports(context, o, t.outcome.fitted.accepted@[j]),
{
    let n = a.numbers->0;
    let r = t.outcome.fitted.accepted@;
    let v = unordered_reports(context, b, observations, a, t);
    assert(r.contains(r[j]));
    let k = choose|k: int| 0 <= k < v.len() && v[k] == r[j];
    let stay = t.settled.observations@;
    let o = stay[k];
    assert(reports(context, o, v[k]));
    assert(stay.contains(o));
    let once = t.sifted.observations@;
    trimmed_among(context, once, staying(context, once, n.last@), o);
    let all = t.draft.observations@;
    trimmed_among(context, all, staying(context, all, n.first@), o);
    o
}

/// What stays with the last fit of a solved hypothesis is accepted.
proof fn staying_is_accepted(
    context: SolveContext,
    b: Blueprint,
    observations: Seq<PickObservation>,
    a: Attempt,
    t: Trail,
    o: PickObservation,
) -> (j: int)
    requires
        attempted(context, b, observations, a, t),
        has_solution(context, b@, observations, a),
        t.settled.observations@.contains(o),
    ensures
        0 <= j < t.outcome.fitted.accepted@.len(),
        reports(context, o, t.outcome.fitted.accepted@[j]),
{
    let r = t.outcome.fitted.accepted@;
    let v = unordered_reports(context, b, observations, a, t);
    let stay = t.settled.observations@;
    let k = choose|k: int| 0 <= k < stay.len() && stay[k] == o;
    assert(reports(context, o, v[k]));
    assert(v.contains(v[k]));
    assert(r.contains(v[k]));
    choose|j: int| 0 <= j < r.len() && r[j] == v[k]
}

/// A locked observation that a solved hypothesis takes is accepted.
proof fn locked_is_accepted(
    context: SolveContext,
    b: Blueprint,
    observations: Seq<PickObservation>,
    a: Attempt,
    t: Trail,
    o: PickObservation,
) -> (j: int)
    requires
        attempted(context, b, observations, a, t),
        has_solution(context, b@, observations, a),
        taken(context, b@, observations).contains(o),
        locked(context, o),
    ensures
        0 <= j < t.outcome.fitted.accepted@.len(),
        reports(context, o, t.outcome.fitted.accepted@[j]),
{
    let n = a.numbers->0;
    let all = t.draft.observations@;
    let once = t.sifted.observations@;
    let i = choose|i: int| 0 <= i < all.len() && all[i] == o;
    locked_observations_stay(context, all, staying(context, all, n.first@), i);
    let k = choose|k: int| 0 <= k < once.len() && once[k] == o;
    locked_observations_stay(context, once, staying(context, once, n.last@), k);
    assert(t.settled.observations@.contains(o));
    staying_is_accepted(context, b, observations, a, t, o)
}

/// A candidate reports what its hypothesis accepts and rejects.
proof fn candidate_reports(
    context: SolveContext,
    observations: Seq<PickObservation>,
    hypotheses: Seq<Blueprint>,
    attempts: Seq<Attempt>,
    joint: Option<(Option<i64>, Option<i64>)>,
    w: Account,
    r: Seq<Candidate>,
    j: int,
) -> (i: int)
    requires
        network_solved(context, observations, hypotheses, attempts, joint, w, r),
        0 <= j < r.len(),
    ensures
        0 <= i < hypotheses.len(),
        attempted(context, hypotheses[i], observations, attempts[i], w.trails[i]),
        r[j].event_key@ == hypotheses[i].event_key@,
        r[j].accepted_picks == w.trails[i].outcome.fitted.accepted,
        r[j].rejected_picks == w.trails[i].outcome.fitted.rejected,
        r[j].x_km is Some <==> w.trails[i].outcome.place is Some,
        but_for_rank(r[j], w.all[i]),
        reported(context, hypotheses[i], w.outcomes[i], w.all[i]),
        w.outcomes[i].place == w.trails[i].outcome.place,
        views(w.trails[i].outcome.fitted.warnings@).is_prefix_of(
            views(w.outcomes[i].fitted.warnings@),
        ),
{
    let i = kept_come_from(w.all, j);
    assert(reported(context, hypotheses[i], w.outcomes[i], w.all[i]));
    assert(attempted(context, hypotheses[i], observations, attempts[i], w.trails[i]));
    assert(noted(
        w.trails[i].outcome,
        verdict_note(w.verdict, w.trails[i].record),
        w.outcomes[i],
    ));
    i
}

/// Noise is in no candidate: each rejects it as marked, and none accepts it.
/// It starts no event.
pub proof fn noise_is_always_rejected(
    context: SolveContext,
    observations: Seq<PickObservation>,
    hypotheses: Seq<Blueprint>,
    attempts: Seq<Attempt>,
    joint: Option<(Option<i64>, Option<i64>)>,
    w: Account,
    r: Seq<Candidate>,
    j: int,
    k: int,
)
    requires
        network_planned(context, observations, hypotheses),
        network_solved(context, observations, hypotheses, attempts, joint, w, r),
        0 <= j < r.len(),
        0 <= k < context.picks@.len(),
        context.picks@[k].status == PickStatus::Noise,
        at_known_station(context, k),
        only_one(context.picks@, k),
    ensures
        !reported_in(r[j].accepted_picks@, context.picks@[k].pick_id@),
        rejected_for(r[j].rejected_picks@, context.picks@[k].pick_id@, "marked_as_noise"@),
        forall|o: PickObservation|
            o.pick_index == k ==> !(#[trigger] seeds(context.picks@, o)),
{
    let i = candidate_reports(context, observations, hypotheses, attempts, joint, w, r, j);
    let b = hypotheses[i];
    let t = w.trails[i];
    let m = known_picks_are_observed(context, observations, hypotheses, k);
    left_is_rejected(context, b, observations, attempts[i], t, m);
    taken_is(context, b@, observations);
    let v = r[j].accepted_picks@;
    let id = context.picks@[k].pick_id@;
    assert forall|c: int| 0 <= c < v.len() implies (#[trigger] v[c]).pick_id@ != id by {
        let o = accepted_is_taken(context, b, observations, attempts[i], t, c);
        assert(leaves(context, b@, o) is None);
        let g = choose|g: int| 0 <= g < observations.len() && observations[g] == o;
        assert(observations[g].pick_index < context.picks@.len());
        assert(context.picks@[o.pick_index as int].pick_id@ != id);
    }
}

/// A P arrival is never out of order.
proof fn p_is_in_order(picks: Seq<Pick>, k: int, n: int)
    requires
        0 <= k < picks.len(),
        0 <= n <= picks.len(),
        picks[k].phase == Phase::P,
        only_one(picks, k),
    ensures
        !order_bad(picks, picks[k].pick_id@, n),
    decreases n,
{
    if n > 0 {
        p_is_in_order(picks, k, n - 1);
        if n - 1 != k {
            assert(picks[n - 1].pick_id@ != picks[k].pick_id@);
        }
    }
}

/// A P arrival that is locked to an event is accepted by every candidate of
/// the event that has a place, whatever its residual and its station, and every
/// candidate of another event rejects it as locked.
pub proof fn locked_arrivals_stay_with_their_event(
    context: SolveContext,
    observations: Seq<PickObservation>,
    hypotheses: Seq<Blueprint>,
    attempts: Seq<Attempt>,
    joint: Option<(Option<i64>, Option<i64>)>,
    w: Account,
    r: Seq<Candidate>,
    j: int,
    k: int,
    key: Seq<char>,
)
    requires
        network_planned(context, observations, hypotheses),
        network_solved(context, observations, hypotheses, attempts, joint, w, r),
        0 <= j < r.len(),
        0 <= k < context.picks@.len(),
        context.picks@[k].phase == Phase::P,
        context.picks@[k].status == PickStatus::Locked,
        locked_to(context.locks@, context.picks@[k].pick_id@) == Some(key),
        at_known_station(context, k),
        only_one(context.picks@, k),
    ensures
        r[j].event_key@ == key && r[j].x_km is Some ==> exists|c: int|
            0 <= c < r[j].accepted_picks@.len() && (#[trigger] r[j].accepted_picks@[c]).pick_id@
                == context.picks@[k].pick_id@ && r[j].accepted_picks@[c].locked,
        r[j].event_key@ != key ==> rejected_for(
            r[j].rejected_picks@,
            context.picks@[k].pick_id@,
            "locked_to_other_candidate"@,
        ),
{
    let i = candidate_reports(context, observations, hypotheses, attempts, joint, w, r, j);
    let b = hypotheses[i];
    let t = w.trails[i];
    let m = known_picks_are_observed(context, observations, hypotheses, k);
    let o = observations[m];
    p_is_in_order(context.picks@, k, context.picks@.len() as int);
    if b.event_key@ == key {
        if r[j].x_km is Some {
            taken_is(context, b@, observations);
            assert(observations.contains(o));
            let c = locked_is_accepted(context, b, observations, attempts[i], t, o);
            assert(r[j].accepted_picks@[c].pick_id@ == context.picks@[k].pick_id@);
        }
    } else {
        left_is_rejected(context, b, observations, attempts[i], t, m);
    }
}

/// Positions below a bound that climb are no more than the bound.
proof fn climbing_is_short(s: Seq<usize>, n: int)
    requires
        climbing(s),
        forall|i: int| 0 <= i < s.len() ==> (#[trigger] s[i]) < n,
    ensures
        s.len() <= n || s.len() == 0,
        s.len() > 0 ==> s.last() >= s.len() - 1,
    decreases s.len(),
{
    if s.len() > 1 {
        let t = s.drop_last();
        assert(climbing(t)) by {
            assert forall|i: int, j: int| 0 <= i < j < t.len() implies #[trigger] t[i]
                < #[trigger] t[j] by {
                assert(s[i] < s[j]);
            }
        }
        climbing_is_short(t, n);
        assert(s[s.len() - 2] < s[s.len() - 1]);
    }
    if s.len() > 0 {
        assert(s[s.len() - 1] < n);
    }
}

/// A candidate with a place is that of a hypothesis that takes observations at
/// three stations and three P arrivals.
pub proof fn places_have_three_stations(
    context: SolveContext,
    observations: Seq<PickObservation>,
    hypotheses: Seq<Blueprint>,
    attempts: Seq<Attempt>,
    joint: Option<(Option<i64>, Option<i64>)>,
    w: Account,
    r: Seq<Candidate>,
    j: int,
) -> (i: int)
    requires
        network_solved(context, observations, hypotheses, attempts, joint, w, r),
        0 <= j < r.len(),
        r[j].x_km is Some,
    ensures
        0 <= i < hypotheses.len(),
        r[j].event_key@ == hypotheses[i].event_key@,
        slot_list(taken(context, hypotheses[i]@, observations)).len() >= 3,
        p_count(context.picks@, taken(context, hypotheses[i]@, observations)) >= 3,
{
    candidate_reports(context, observations, hypotheses, attempts, joint, w, r, j)
}

/// A network of fewer than three stations gives no place: every candidate is
/// underdetermined, has no coordinates and no time, and says why.
pub proof fn few_stations_give_no_place(
    context: SolveContext,
    observations: Seq<PickObservation>,
    hypotheses: Seq<Blueprint>,
    attempts: Seq<Attempt>,
    joint: Option<(Option<i64>, Option<i64>)>,
    w: Account,
    r: Seq<Candidate>,
    j: int,
)
    requires
        network_planned(context, observations, hypotheses),
        network_solved(context, observations, hypotheses, attempts, joint, w, r),
        0 <= j < r.len(),
        context.stations@.len() < 3,
    ensures
        r[j].x_km is None,
        r[j].y_km is None,
        r[j].origin_time is None,
        r[j].covariance@.len() == 0,
        r[j].status@ == "underdetermined"@,
        views(r[j].warnings@).contains("fewer_than_three_stations"@),
{
    let i = candidate_reports(context, observations, hypotheses, attempts, joint, w, r, j);
    let b = hypotheses[i];
    let v = taken(context, b@, observations);
    taken_is(context, b@, observations);
    slots_are_stations(v);
    let s = slot_list(v);
    assert forall|g: int| 0 <= g < s.len() implies (#[trigger] s[g]) < context.stations@.len() by {
        assert(s.contains(s[g]));
        let m = choose|m: int| 0 <= m < v.len() && (#[trigger] v[m]).station_index == s[g];
        assert(v.contains(v[m]));
        let h = choose|h: int| 0 <= h < observations.len() && observations[h] == v[m];
        assert(observations[h].station_index < context.stations@.len());
    }
    climbing_is_short(s, context.stations@.len() as int);
    assert(!has_solution(context, b@, observations, attempts[i]));
    let said = views(w.trails[i].outcome.fitted.warnings@);
    assert(said[0] == "fewer_than_three_stations"@);
    assert(views(w.outcomes[i].fitted.warnings@)[0] == "fewer_than_three_stations"@);
    assert(views(r[j].warnings@)[0] == "fewer_than_three_stations"@);
}

/// A candidate with a place reports every arrival at a known station once for
/// each time that it was observed: the accepted in the order of their ids, and
/// the rejected with their reasons.
pub proof fn places_report_every_arrival(
    context: SolveContext,
    observations: Seq<PickObservation>,
    hypotheses: Seq<Blueprint>,
    attempts: Seq<Attempt>,
    joint: Option<(Option<i64>, Option<i64>)>,
    w: Account,
    r: Seq<Candidate>,
    j: int,
)
    requires
        network_solved(context, observations, hypotheses, attempts, joint, w, r),
        forall|i: int|
            0 <= i < attempts.len() ==> attempt_fits(
                context,
                hypotheses[i]@,
                observations,
                #[trigger] attempts[i],
            ),
        attempts.len() == hypotheses.len(),
        0 <= j < r.len(),
        r[j].x_km is Some,
    ensures
        reported_ids(r[j].accepted_picks@ + r[j].rejected_picks@).to_multiset() == ids_of(
            context,
            observations,
        ).to_multiset(),
        in_order(r[j].accepted_picks@),
        forall|c: int|
            0 <= c < r[j].rejected_picks@.len() ==> (#[trigger] r[j].rejected_picks@[c]).reason
                is Some,
{
    let i = candidate_reports(context, observations, hypotheses, attempts, joint, w, r, j);
    let t = w.trails[i];
    let n = attempts[i].numbers->0;
    assert(attempt_fits(context, hypotheses[i]@, observations, attempts[i]));
    every_observation_is_accepted_or_rejected(
        context,
        hypotheses[i],
        observations,
        t.draft,
        n.first@,
        t.sifted,
        n.last@,
        n.x as int,
        n.y as int,
        t.settled,
    );
    let v = choose|v: Seq<CandidatePick>|
        all_used(context, t.settled.observations@, n.predictions@, n.contributions@, v)
            && t.outcome.fitted.accepted@ == #[trigger] sorted(v);
    every_arrival_is_reported(
        context,
        observations,
        t.settled.observations@,
        all_left(t.settled.rejected@),
        n.predictions@,
        n.contributions@,
        v,
        t.outcome.fitted.accepted@,
        t.outcome.fitted.rejected@,
    );
}

/// Whatever a candidate accepts belongs to its event: it is locked to that
/// event; or it has no lock, is not at the station that the hypothesis does
/// without, and is a P arrival within thirty seconds of the start of the event
/// or an S arrival at most fifteen seconds after it.
pub proof fn accepted_arrivals_are_near_their_event(
    context: SolveContext,
    observations: Seq<PickObservation>,
    hypotheses: Seq<Blueprint>,
    attempts: Seq<Attempt>,
    joint: Option<(Option<i64>, Option<i64>)>,
    w: Account,
    r: Seq<Candidate>,
    j: int,
    c: int,
) -> (found: (int, PickObservation))
    requires
        network_planned(context, observations, hypotheses),
        network_solved(context, observations, hypotheses, attempts, joint, w, r),
        0 <= j < r.len(),
        0 <= c < r[j].accepted_picks@.len(),
    ensures
        0 <= found.0 < hypotheses.len(),
        hypotheses[found.0].event_key@ == r[j].event_key@,
        observations.contains(found.1),
        ({
            let (b, o) = (hypotheses[found.0]@, found.1);
            let pick = context.picks@[o.pick_index as int];
            let dt = o.observed_epoch - b.seed_time;
            &&& r[j].accepted_picks@[c].pick_id@ == pick.pick_id@
            &&& pick.status != PickStatus::Noise
            &&& crate::laws_association::tied(context.locks@, pick.pick_id@, r[j].event_key@) || {
                &&& crate::laws_association::free(context.locks@, pick.pick_id@)
                &&& b.omitted_station != Some(pick.station_id@)
                &&& pick.phase == Phase::P ==> -30_000_000_000 <= dt <= 30_000_000_000
                &&& pick.phase == Phase::S ==> 0 <= dt <= 15_000_000_000
            }
        }),
{
    let i = candidate_reports(context, observations, hypotheses, attempts, joint, w, r, j);
    let b = hypotheses[i];
    let o = accepted_is_taken(context, b, observations, attempts[i], w.trails[i], c);
    taken_is(context, b@, observations);
    assert(leaves(context, b@, o) is None);
    crate::laws_association::arrivals_are_taken_by_lock_or_time(context, b@, o);
    (i, o)
}

} // verus!
