//! The network solver gives one result for one network and its fits: whatever
//! meets its contract says the same.
use vstd::prelude::*;

use crate::association::{all_left, Blueprint};
use crate::candidate::{estimated, reported, Candidate, ClockEstimate, Outcome};
use crate::epoch::{millis, written_once};
use crate::network::{
    bias_at, observation_of, observations_are, PickObservation, SolveContext,
};
use crate::network_fit::{
    all_unused, all_used, reports_of, unused, used, CandidatePick, Report, Settled,
};
use crate::order::{inserted, names, sorted, sorted_map, Ranked};
use crate::outcomes::{
    attempted, has_solution, network_solved, noted, records_of, solved, station_ids, Account,
    Attempt, Figures, Numbers, Trail,
};
use crate::ranking::{count_of, kept, p_arrivals, KEPT_PER_EVENT};
use crate::shared_clocks::{
    best_is_best, best_of, event_keys, events_at, joint_settled, joint_stations, occurrence,
    positions, primaries, primary, shared_plan, shared_stations, verdict_note, FitRecord,
    SharedPlan, Verdict,
};
use crate::text::{text_le, views};

verus! {

/// A text or none.
pub open spec fn told(t: Option<String>) -> Option<Seq<char>> {
    match t {
        Some(s) => Some(s@),
        None => None,
    }
}

/// Whether two clock estimates say the same.
pub open spec fn same_clock(a: ClockEstimate, b: ClockEstimate) -> bool {
    &&& a.station_id@ == b.station_id@
    &&& a.estimated_residual_seconds == b.estimated_residual_seconds
    &&& a.sigma_seconds == b.sigma_seconds
    &&& a.reference == b.reference
}

/// Whether two lists of clock estimates say the same.
pub open spec fn same_clocks(a: Seq<ClockEstimate>, b: Seq<ClockEstimate>) -> bool {
    a.len() == b.len() && forall|i: int| 0 <= i < a.len() ==> same_clock(#[trigger] a[i], b[i])
}

/// Whether two matrices have the same rows.
pub open spec fn same_matrix(a: Seq<Vec<i128>>, b: Seq<Vec<i128>>) -> bool {
    a.len() == b.len() && forall|i: int| 0 <= i < a.len() ==> (#[trigger] a[i])@ == b[i]@
}

/// Whether two outcomes of a hypothesis say the same.
pub open spec fn same_outcome(a: Outcome, b: Outcome) -> bool {
    &&& a.place == b.place
    &&& a.fitted.number == b.fitted.number
    &&& a.fitted.stations@ == b.fitted.stations@
    &&& views(a.fitted.warnings@) == views(b.fitted.warnings@)
    &&& reports_of(a.fitted.accepted@) == reports_of(b.fitted.accepted@)
    &&& reports_of(a.fitted.rejected@) == reports_of(b.fitted.rejected@)
    &&& a.fitted.score@ == b.fitted.score@
    &&& a.fitted.score_key == b.fitted.score_key
    &&& a.fitted.seed_number@ == b.fitted.seed_number@
}

/// Whether two records of a hypothesis say the same.
pub open spec fn same_record(a: FitRecord, b: FitRecord) -> bool {
    &&& a.event_key@ == b.event_key@
    &&& a.solved == b.solved
    &&& a.score == b.score
    &&& views(a.stations@) == views(b.stations@)
}

/// Whether two lists of records say the same.
pub open spec fn same_records(v: Seq<FitRecord>, w: Seq<FitRecord>) -> bool {
    v.len() == w.len() && forall|i: int| 0 <= i < v.len() ==> same_record(#[trigger] v[i], w[i])
}

/// Whether two candidates of the network solver say the same.
pub open spec fn alike(a: Candidate, b: Candidate) -> bool {
    &&& a.number == b.number
    &&& a.candidate_id@ == b.candidate_id@
    &&& a.event_key@ == b.event_key@
    &&& a.rank == b.rank
    &&& a.score@ == b.score@
    &&& a.score_key == b.score_key
    &&& a.status@ == b.status@
    &&& a.x_km == b.x_km
    &&& a.y_km == b.y_km
    &&& a.depth_km == b.depth_km
    &&& told(a.origin_time) == told(b.origin_time)
    &&& a.station_count == b.station_count
    &&& a.p_count == b.p_count
    &&& a.s_count == b.s_count
    &&& a.azimuth_gap == b.azimuth_gap
    &&& a.rms_residual_seconds == b.rms_residual_seconds
    &&& views(a.warnings@) == views(b.warnings@)
    &&& views(a.covariance_labels@) == views(b.covariance_labels@)
    &&& same_matrix(a.covariance@, b.covariance@)
    &&& same_clocks(a.clock_estimates@, b.clock_estimates@)
    &&& reports_of(a.accepted_picks@) == reports_of(b.accepted_picks@)
    &&& reports_of(a.rejected_picks@) == reports_of(b.rejected_picks@)
}

/// Whether two lists of candidates of the network solver say the same.
pub open spec fn all_alike(a: Seq<Candidate>, b: Seq<Candidate>) -> bool {
    a.len() == b.len() && forall|i: int| 0 <= i < a.len() ==> alike(#[trigger] a[i], b[i])
}

/// Reports that say the same are of the same phases.
proof fn phases_alike(v: Seq<CandidatePick>, w: Seq<CandidatePick>)
    requires
        reports_of(v) == reports_of(w),
    ensures
        p_arrivals(v) == p_arrivals(w),
    decreases v.len(),
{
    assert(v.len() == reports_of(v).len() && w.len() == reports_of(w).len());
    if v.len() > 0 {
        assert(reports_of(v.drop_last()) =~= reports_of(v).drop_last());
        assert(reports_of(w.drop_last()) =~= reports_of(w).drop_last());
        phases_alike(v.drop_last(), w.drop_last());
        assert(reports_of(v)[v.len() - 1] == v.last()@);
        assert(reports_of(w)[w.len() - 1] == w.last()@);
    }
}

/// Outcomes that say the same are reported alike.
proof fn reported_once(
    context: SolveContext,
    blueprint: Blueprint,
    outcome: Outcome,
    other: Outcome,
    a: Candidate,
    b: Candidate,
)
    requires
        same_outcome(outcome, other),
        reported(context, blueprint, outcome, a),
        reported(context, blueprint, other, b),
    ensures
        alike(a, b),
{
    let (v, w) = (outcome.fitted.accepted@, other.fitted.accepted@);
    phases_alike(v, w);
    assert(v.len() == reports_of(v).len() && w.len() == reports_of(w).len());
    match outcome.place {
        None => {
            assert(views(a.covariance_labels@) =~= views(b.covariance_labels@));
        },
        Some(p) => {
            assert forall|i: int| 0 <= i < 3 implies (#[trigger] a.covariance@[i])@
                == b.covariance@[i]@ by {
                let (s, t) = (a.covariance@[i]@, b.covariance@[i]@);
                assert(t.len() == 3);
                assert forall|j: int| 0 <= j < 3 implies #[trigger] s[j] == t[j] by {
                    assert(b.covariance@[i]@[j] == p.covariance@[i * p.side + j]);
                }
                assert(s =~= t);
            }
            written_once(millis(p.origin as int), a.origin_time->0@, b.origin_time->0@);
            assert forall|i: int| 0 <= i < a.clock_estimates@.len() implies same_clock(
                #[trigger] a.clock_estimates@[i],
                b.clock_estimates@[i],
            ) by {
                let station = outcome.fitted.stations@[i];
                assert(estimated(context, station, p.clocks@[i], i, a.clock_estimates@[i]));
                assert(estimated(context, station, p.clocks@[i], i, b.clock_estimates@[i]));
            }
        },
    }
}

/// Putting candidates that say the same in their places keeps that.
proof fn inserted_alike(a: Seq<Candidate>, x: Candidate, b: Seq<Candidate>, y: Candidate)
    requires
        all_alike(a, b),
        alike(x, y),
    ensures
        all_alike(inserted(a, x), inserted(b, y)),
    decreases a.len(),
{
    if a.len() > 0 {
        assert(alike(a[a.len() - 1], b[b.len() - 1]));
        assert(Candidate::comes_first(a.last(), x) == Candidate::comes_first(b.last(), y));
        let (s, t) = (a.drop_last(), b.drop_last());
        assert forall|i: int| 0 <= i < s.len() implies alike(#[trigger] s[i], t[i]) by {
            assert(alike(a[i], b[i]));
        }
        if !Candidate::comes_first(a.last(), x) {
            inserted_alike(s, x, t, y);
        }
    }
}

/// Sorting candidates that say the same keeps that.
proof fn sorted_alike(a: Seq<Candidate>, b: Seq<Candidate>)
    requires
        all_alike(a, b),
    ensures
        all_alike(sorted(a), sorted(b)),
    decreases a.len(),
{
    if a.len() > 0 {
        let (s, t) = (a.drop_last(), b.drop_last());
        assert forall|i: int| 0 <= i < s.len() implies alike(#[trigger] s[i], t[i]) by {
            assert(alike(a[i], b[i]));
        }
        sorted_alike(s, t);
        assert(alike(a[a.len() - 1], b[b.len() - 1]));
        inserted_alike(sorted(s), a.last(), sorted(t), b.last());
    }
}

/// Candidates that say the same are of the same events.
proof fn counted_alike(a: Seq<Candidate>, b: Seq<Candidate>, key: Seq<char>)
    requires
        all_alike(a, b),
    ensures
        count_of(a, key) == count_of(b, key),
    decreases a.len(),
{
    if a.len() > 0 {
        let (s, t) = (a.drop_last(), b.drop_last());
        assert forall|i: int| 0 <= i < s.len() implies alike(#[trigger] s[i], t[i]) by {
            assert(alike(a[i], b[i]));
        }
        counted_alike(s, t, key);
        assert(alike(a[a.len() - 1], b[b.len() - 1]));
    }
}

/// Of candidates that say the same, the same are kept.
proof fn kept_alike(a: Seq<Candidate>, b: Seq<Candidate>)
    requires
        all_alike(a, b),
    ensures
        all_alike(kept(a), kept(b)),
    decreases a.len(),
{
    if a.len() > 0 {
        let (s, t) = (a.drop_last(), b.drop_last());
        assert forall|i: int| 0 <= i < s.len() implies alike(#[trigger] s[i], t[i]) by {
            assert(alike(a[i], b[i]));
        }
        kept_alike(s, t);
        assert(alike(a[a.len() - 1], b[b.len() - 1]));
        counted_alike(s, t, a.last().event_key@);
        let rank = count_of(s, a.last().event_key@) + 1;
        if rank <= KEPT_PER_EVENT {
            let x = Candidate { rank: rank as usize, ..a.last() };
            let y = Candidate { rank: rank as usize, ..b.last() };
            assert(alike(x, y));
        }
    }
}

/// A network has one list of observations, and so one plan.
pub proof fn network_observations_are_determined(
    context: SolveContext,
    ids: Seq<int>,
    a: Seq<PickObservation>,
    b: Seq<PickObservation>,
)
    requires
        observations_are(context, ids, a),
        observations_are(context, ids, b),
    ensures
        a == b,
{
    assert forall|i: int| 0 <= i < a.len() implies a[i] == b[i] by {
        assert(observation_of(context, ids[i], a[i]));
        assert(observation_of(context, ids[i], b[i]));
    }
    assert(a =~= b);
}

/// Arrivals that were used are reported in one way.
proof fn all_used_once(
    context: SolveContext,
    obs: Seq<PickObservation>,
    predictions: Seq<i128>,
    contributions: Seq<i128>,
    v: Seq<CandidatePick>,
    w: Seq<CandidatePick>,
)
    requires
        all_used(context, obs, predictions, contributions, v),
        all_used(context, obs, predictions, contributions, w),
    ensures
        reports_of(sorted(v)) == reports_of(sorted(w)),
{
    assert forall|i: int| 0 <= i < v.len() implies (#[trigger] v[i])@ == w[i]@ by {
        let (p, c) = (predictions[i] as int, contributions[i] as int);
        assert(used(context, obs[i], p, c, v[i]));
        assert(used(context, obs[i], p, c, w[i]));
        let pick = context.picks@[obs[i].pick_index as int];
        let bias = bias_at(context.segments@, pick.station_id@, obs[i].observed_epoch as int);
        written_once(millis(p + bias), v[i].predicted_time@, w[i].predicted_time@);
    }
    assert(reports_of(v) =~= reports_of(w));
    let f = |c: CandidatePick| c@;
    let first = |a: Report, b: Report| text_le(a.pick_id, b.pick_id);
    sorted_map(v, f, first);
    sorted_map(w, f, first);
}

/// Arrivals that were not used are reported in one way.
proof fn all_unused_once(
    context: SolveContext,
    left: Seq<(PickObservation, Seq<char>)>,
    v: Seq<CandidatePick>,
    w: Seq<CandidatePick>,
)
    requires
        all_unused(context, left, v),
        all_unused(context, left, w),
    ensures
        reports_of(v) == reports_of(w),
{
    assert forall|i: int| 0 <= i < v.len() implies (#[trigger] v[i])@ == w[i]@ by {
        assert(unused(context, left[i], v[i]));
        assert(unused(context, left[i], w[i]));
    }
    assert(reports_of(v) =~= reports_of(w));
}

/// A solution comes to one outcome.
proof fn solved_once(
    context: SolveContext,
    s: Settled,
    r: Settled,
    n: Numbers,
    f: Figures,
    a: Outcome,
    b: Outcome,
)
    requires
        s.observations@ == r.observations@,
        s.stations@ == r.stations@,
        all_left(s.rejected@) == all_left(r.rejected@),
        views(s.warnings@) == views(r.warnings@),
        solved(context, s, n, f, a),
        solved(context, r, n, f, b),
    ensures
        same_outcome(a, b),
{
    let v = choose|v: Seq<CandidatePick>|
        all_used(context, s.observations@, n.predictions@, n.contributions@, v)
            && a.fitted.accepted@ == #[trigger] sorted(v);
    let w = choose|w: Seq<CandidatePick>|
        all_used(context, r.observations@, n.predictions@, n.contributions@, w)
            && b.fitted.accepted@ == #[trigger] sorted(w);
    all_used_once(context, s.observations@, n.predictions@, n.contributions@, v, w);
    all_unused_once(
        context,
        all_left(s.rejected@),
        a.fitted.rejected@,
        b.fitted.rejected@,
    );
}

/// An attempt comes to one outcome and one record.
proof fn attempted_once(
    context: SolveContext,
    b: Blueprint,
    observations: Seq<PickObservation>,
    a: Attempt,
    t: Trail,
    u: Trail,
)
    requires
        attempted(context, b, observations, a, t),
        attempted(context, b, observations, a, u),
    ensures
        same_outcome(t.outcome, u.outcome),
        same_record(t.record, u.record),
{
    if has_solution(context, b@, observations, a) {
        let n = a.numbers->0;
        solved_once(context, t.settled, u.settled, n, a.figures, t.outcome, u.outcome);
    } else {
        all_unused_once(
            context,
            all_left(t.draft.rejected@),
            t.outcome.fitted.rejected@,
            u.outcome.fitted.rejected@,
        );
        assert(reports_of(t.outcome.fitted.accepted@) =~= reports_of(u.outcome.fitted.accepted@));
    }
}

/// The best of an event is at one place.
proof fn best_alike(v: Seq<FitRecord>, w: Seq<FitRecord>, key: Seq<char>, n: int)
    requires
        same_records(v, w),
        0 <= n <= v.len(),
    ensures
        best_of(v, key, n) == best_of(w, key, n),
    decreases n,
{
    if n > 0 {
        best_alike(v, w, key, n - 1);
        best_is_best(v, key, n - 1);
        assert(same_record(v[n - 1], w[n - 1]));
        if let Some(p) = best_of(v, key, n - 1) {
            assert(same_record(v[p], w[p]));
        }
    }
}

/// The best hypotheses are at the same places, which are places of the list.
proof fn primaries_alike(v: Seq<FitRecord>, w: Seq<FitRecord>, keys: Seq<Seq<char>>, n: int)
    requires
        same_records(v, w),
        0 <= n <= keys.len(),
    ensures
        primaries(v, keys, n) == primaries(w, keys, n),
        forall|i: int|
            0 <= i < primaries(v, keys, n).len() ==> 0 <= (#[trigger] primaries(v, keys, n)[i])
                < v.len(),
    decreases n,
{
    if n > 0 {
        primaries_alike(v, w, keys, n - 1);
        best_alike(v, w, keys[n - 1], v.len() as int);
        best_is_best(v, keys[n - 1], v.len() as int);
    }
}

/// Hypotheses that say the same are as often at a station.
proof fn occurrence_alike(
    v: Seq<FitRecord>,
    w: Seq<FitRecord>,
    ids: Seq<int>,
    station: Seq<char>,
)
    requires
        same_records(v, w),
        forall|i: int| 0 <= i < ids.len() ==> 0 <= (#[trigger] ids[i]) < v.len(),
    ensures
        occurrence(v, ids, station) == occurrence(w, ids, station),
    decreases ids.len(),
{
    if ids.len() > 0 {
        let rest = ids.drop_last();
        assert forall|i: int| 0 <= i < rest.len() implies 0 <= (#[trigger] rest[i]) < v.len() by {
            assert(rest[i] == ids[i]);
        }
        occurrence_alike(v, w, rest, station);
        let last = ids[ids.len() - 1];
        assert(same_record(v[last], w[last]));
    }
}

/// Hypotheses that say the same share the same stations.
proof fn stations_alike(
    v: Seq<FitRecord>,
    w: Seq<FitRecord>,
    ids: Seq<int>,
    stations: Seq<Seq<char>>,
)
    requires
        same_records(v, w),
        forall|i: int| 0 <= i < ids.len() ==> 0 <= (#[trigger] ids[i]) < v.len(),
    ensures
        shared_stations(v, ids, stations) == shared_stations(w, ids, stations),
    decreases stations.len(),
{
    if stations.len() > 0 {
        stations_alike(v, w, ids, stations.drop_last());
        occurrence_alike(v, w, ids, stations.last());
    }
}

/// Positions that are the same integers are the same.
proof fn positions_once(a: Seq<usize>, b: Seq<usize>)
    requires
        positions(a) == positions(b),
    ensures
        a == b,
{
    assert(a.len() == positions(a).len() && b.len() == positions(b).len());
    assert forall|i: int| 0 <= i < a.len() implies a[i] == b[i] by {
        assert(positions(a)[i] == a[i] as int);
        assert(positions(b)[i] == b[i] as int);
    }
    assert(a =~= b);
}

/// Whether two verdicts give cause to say the same of each hypothesis.
pub open spec fn same_verdict(a: Verdict, b: Verdict) -> bool {
    forall|f: FitRecord, g: FitRecord|
        same_record(f, g) ==> #[trigger] verdict_note(a, f) == #[trigger] verdict_note(b, g)
}

/// One verdict comes of shared clocks.
proof fn verdict_once(
    v: Seq<FitRecord>,
    w: Seq<FitRecord>,
    stations: Seq<Seq<char>>,
    joint: Option<(Option<i64>, Option<i64>)>,
    p: SharedPlan,
    q: SharedPlan,
    a: Verdict,
    b: Verdict,
)
    requires
        same_records(v, w),
        shared_plan(v, stations, p),
        shared_plan(w, stations, q),
        joint_settled(p, v, joint, a),
        joint_settled(q, w, joint, b),
    ensures
        same_verdict(a, b),
{
    assert forall|i: int| 0 <= i < v.len() implies event_keys(v)[i] == event_keys(w)[i] by {
        assert(same_record(v[i], w[i]));
    }
    assert(event_keys(v) =~= event_keys(w));
    let keys = names(event_keys(v));
    primaries_alike(v, w, keys, keys.len() as int);
    assert(primary(v) == primary(w));
    stations_alike(v, w, primary(v), stations);
    assert(joint_stations(v, stations) == joint_stations(w, stations));
    if let SharedPlan::Joint { primary: x, stations: s } = p {
        if let SharedPlan::Joint { primary: y, stations: t } = q {
            positions_once(x@, y@);
            assert(views(s@)[0] == s@[0]@ && views(t@)[0] == t@[0]@);
            assert forall|i: int| 0 <= i < x@.len() implies events_at(v, x@)[i] == events_at(
                w,
                y@,
            )[i] by {
                assert(primary(v)[i] == positions(x@)[i]);
                assert(same_record(v[x@[i] as int], w[x@[i] as int]));
            }
            assert(events_at(v, x@) =~= events_at(w, y@));
        }
    }
}

/// The network solver says one thing of one network and its fits: equal
/// contexts, plans and numbers of the fits give candidates that say the same,
/// in the same order.
pub proof fn network_results_are_determined(
    context: SolveContext,
    observations: Seq<PickObservation>,
    hypotheses: Seq<Blueprint>,
    attempts: Seq<Attempt>,
    joint: Option<(Option<i64>, Option<i64>)>,
    a: Account,
    b: Account,
    r: Seq<Candidate>,
    q: Seq<Candidate>,
)
    requires
        network_solved(context, observations, hypotheses, attempts, joint, a, r),
        network_solved(context, observations, hypotheses, attempts, joint, b, q),
    ensures
        all_alike(r, q),
{
    let n = hypotheses.len();
    let (v, w) = (records_of(a.trails), records_of(b.trails));
    assert forall|i: int| 0 <= i < n implies same_outcome(
        (#[trigger] a.trails[i]).outcome,
        b.trails[i].outcome,
    ) && same_record(a.trails[i].record, b.trails[i].record) by {
        assert(attempted(context, hypotheses[i], observations, attempts[i], b.trails[i]));
        attempted_once(
            context,
            hypotheses[i],
            observations,
            attempts[i],
            a.trails[i],
            b.trails[i],
        );
    }
    assert forall|i: int| 0 <= i < v.len() implies same_record(#[trigger] v[i], w[i]) by {
        assert(v[i] == a.trails[i].record && w[i] == b.trails[i].record);
    }
    verdict_once(v, w, station_ids(context), joint, a.plan, b.plan, a.verdict, b.verdict);
    assert forall|i: int| 0 <= i < n implies alike(#[trigger] a.all[i], b.all[i]) by {
        let (t, u) = (a.trails[i], b.trails[i]);
        assert(same_outcome(t.outcome, u.outcome) && same_record(t.record, u.record));
        assert(verdict_note(a.verdict, t.record) == verdict_note(b.verdict, u.record));
        assert(noted(t.outcome, verdict_note(a.verdict, t.record), a.outcomes[i]));
        assert(noted(u.outcome, verdict_note(b.verdict, u.record), b.outcomes[i]));
        assert(reported(context, hypotheses[i], b.outcomes[i], b.all[i]));
        reported_once(
            context,
            hypotheses[i],
            a.outcomes[i],
            b.outcomes[i],
            a.all[i],
            b.all[i],
        );
    }
    sorted_alike(a.all, b.all);
    kept_alike(sorted(a.all), sorted(b.all));
}

} // verus!
