//! The network solver as a whole: what comes of each hypothesis, given the
//! numbers of its fits, and what is reported of the network.
use vstd::prelude::*;

use crate::agreement::told;
use crate::association::{
    all_left, network_planned, taken, untaken, Blueprint, LeftPick, Plan,
};
use crate::candidate::{
    report_candidates, reported, Candidate, Fitted, Outcome, Place,
};
use crate::fits::note;
use crate::network::{
    corrected, observations_wf, PickObservation, SolveContext, Station,
};
use crate::network_fit::{
    all_unused, all_used, begin_fit, build_accepted, build_rejected, drafted, fail_fit, fittable,
    is_sifted, late, measured, p_count, rejected_late, scarce_notes, settle_fit, settled, sift_fit,
    slot_list, slots_are_stations, staying, trimmed, CandidatePick, Draft, Settled, Sifted,
};
use crate::order::sorted;
use crate::ranking::kept;
use crate::shared_clocks::{
    joint_settled, plan_shared_clocks, settle_joint, shared_plan, verdict_note, verdict_warning,
    FitRecord, SharedPlan, Verdict,
};
use crate::text::views;

verus! {

/// What the fits of a hypothesis came to: the residuals of the first fit and of
/// the last, where the last puts the event, what it predicts of the arrivals
/// that stay and what they add to the misfit, and the place that is reported.
#[derive(Debug, Clone)]
pub struct Numbers {
    pub first: Vec<i64>,
    pub last: Vec<i64>,
    pub x: i64,
    pub y: i64,
    pub predictions: Vec<i128>,
    pub contributions: Vec<i128>,
    pub place: Place,
}

/// What a hypothesis is told by: its number, its score as JSON writes it and as
/// keys that order as it does, rounded and not, and the text of the time that
/// it starts from.
#[derive(Debug, Clone)]
pub struct Figures {
    pub number: usize,
    pub score: String,
    pub score_key: i64,
    pub fit_key: i64,
    pub seed_number: String,
}

/// What came of fitting a hypothesis; no numbers where it has no unique
/// solution.
#[derive(Debug, Clone)]
pub struct Attempt {
    pub numbers: Option<Numbers>,
    pub figures: Figures,
}

/// What a hypothesis is told by.
pub open spec fn figured(f: Figures, o: Fitted) -> bool {
    &&& o.number == f.number
    &&& o.score@ == f.score@
    &&& o.score_key == f.score_key
    &&& o.seed_number@ == f.seed_number@
}

/// The outcome of a hypothesis without a solution: it has no place, accepts
/// nothing and rejects what it left.
pub open spec fn unsolved(context: SolveContext, d: Draft, f: Figures, o: Outcome) -> bool {
    &&& o.place is None
    &&& figured(f, o.fitted)
    &&& o.fitted.stations@ == d.stations@
    &&& views(o.fitted.warnings@) == views(d.warnings@)
    &&& o.fitted.accepted@.len() == 0
    &&& all_unused(context, all_left(d.rejected@), o.fitted.rejected@)
}

/// The outcome of a hypothesis with a solution: it accepts what stays with the
/// last fit and rejects all else.
pub open spec fn solved(
    context: SolveContext,
    s: Settled,
    n: Numbers,
    f: Figures,
    o: Outcome,
) -> bool {
    &&& o.place == Some(n.place)
    &&& figured(f, o.fitted)
    &&& o.fitted.stations@ == s.stations@
    &&& views(o.fitted.warnings@) == views(s.warnings@)
    &&& exists|v: Seq<CandidatePick>|
        all_used(context, s.observations@, n.predictions@, n.contributions@, v)
            && o.fitted.accepted@ == #[trigger] sorted(v)
    &&& all_unused(context, all_left(s.rejected@), o.fitted.rejected@)
}

/// Whether all that was left is of picks of a context.
pub open spec fn left_wf(context: SolveContext, v: Seq<LeftPick>) -> bool {
    forall|i: int|
        0 <= i < v.len() ==> (#[trigger] v[i]).observation.pick_index < context.picks@.len()
}

/// The outcome of a hypothesis without a solution.
pub fn unsolved_outcome(context: &SolveContext, draft: Draft, figures: Figures) -> (r: Outcome)
    requires
        left_wf(*context, draft.rejected@),
    ensures
        unsolved(*context, draft, figures, r),
{
    let rejected = build_rejected(context, &draft.rejected);
    Outcome {
        fitted: Fitted {
            number: figures.number,
            stations: draft.stations,
            warnings: draft.warnings,
            accepted: Vec::new(),
            rejected,
            score: figures.score,
            score_key: figures.score_key,
            seed_number: figures.seed_number,
        },
        place: None,
    }
}

/// Whether the numbers of a solution are about some observations.
pub open spec fn numbers_fit(n: Numbers, v: Seq<PickObservation>) -> bool {
    &&& n.predictions@.len() == v.len()
    &&& n.contributions@.len() == v.len()
    &&& forall|i: int|
        0 <= i < n.predictions@.len() ==> corrected((#[trigger] n.predictions@[i]) as int)
    &&& forall|i: int|
        0 <= i < n.contributions@.len() ==> measured((#[trigger] n.contributions@[i]) as int)
    &&& n.place.wf(slot_list(v).len())
}

/// The outcome of a hypothesis with a solution.
pub fn settled_outcome(
    context: &SolveContext,
    settled: Settled,
    numbers: Numbers,
    figures: Figures,
) -> (r: Outcome)
    requires
        observations_wf(*context, settled.observations@),
        left_wf(*context, settled.rejected@),
        numbers_fit(numbers, settled.observations@),
    ensures
        solved(*context, settled, numbers, figures, r),
{
    let accepted = build_accepted(
        context,
        &settled.observations,
        &numbers.predictions,
        &numbers.contributions,
    );
    let rejected = build_rejected(context, &settled.rejected);
    Outcome {
        fitted: Fitted {
            number: figures.number,
            stations: settled.stations,
            warnings: settled.warnings,
            accepted,
            rejected,
            score: figures.score,
            score_key: figures.score_key,
            seed_number: figures.seed_number,
        },
        place: Some(numbers.place),
    }
}

/// Whether there is enough to fit a hypothesis.
pub open spec fn ready(context: SolveContext, v: Seq<PickObservation>) -> bool {
    fittable(slot_list(v).len(), p_count(context.picks@, v))
}

/// Whether the numbers of an attempt are about the observations that its
/// hypothesis takes.
pub open spec fn attempt_fits(
    context: SolveContext,
    b: Plan,
    observations: Seq<PickObservation>,
    a: Attempt,
) -> bool {
    let v = taken(context, b, observations);
    match a.numbers {
        Some(n) => ready(context, v) ==> {
            let once = trimmed(context, v, staying(context, v, n.first@));
            &&& n.first@.len() == v.len()
            &&& n.last@.len() == once.len()
            &&& numbers_fit(n, trimmed(context, once, staying(context, once, n.last@)))
        },
        None => true,
    }
}

/// The steps of a hypothesis: what it takes and leaves, what the residuals of
/// its fits do to that, its outcome, and what shared clocks have to know of it.
pub struct Trail {
    pub draft: Draft,
    pub sifted: Sifted,
    pub settled: Settled,
    pub outcome: Outcome,
    pub record: FitRecord,
}

/// Whether an attempt has a solution: it has numbers, and there was enough to
/// fit.
pub open spec fn has_solution(
    context: SolveContext,
    b: Plan,
    observations: Seq<PickObservation>,
    a: Attempt,
) -> bool {
    ready(context, taken(context, b, observations)) && a.numbers is Some
}

/// The ids of the stations of some observations.
pub open spec fn stations_of(context: SolveContext, v: Seq<PickObservation>) -> Seq<Seq<char>> {
    v.map_values(|o: PickObservation| context.picks@[o.pick_index as int].station_id@)
}

/// What comes of a hypothesis, step by step.
pub open spec fn attempted(
    context: SolveContext,
    b: Blueprint,
    observations: Seq<PickObservation>,
    a: Attempt,
    t: Trail,
) -> bool {
    &&& t.record.event_key@ == b.event_key@
    &&& t.record.solved == has_solution(context, b@, observations, a)
    &&& t.record.score == a.figures.fit_key
    &&& if has_solution(context, b@, observations, a) {
        let n = a.numbers->0;
        &&& drafted(context, b, observations, t.draft)
        &&& is_sifted(context, t.draft.observations@, n.first@, t.sifted)
        &&& settled(context, t.draft, t.sifted, n.last@, n.x as int, n.y as int, t.settled)
        &&& solved(context, t.settled, n, a.figures, t.outcome)
        &&& views(t.record.stations@) == stations_of(context, t.settled.observations@)
    } else {
        &&& t.draft.observations@ == taken(context, b@, observations)
        &&& t.draft.stations@ == slot_list(t.draft.observations@)
        &&& all_left(t.draft.rejected@) == untaken(context, b@, observations)
        &&& views(t.draft.warnings@) == scarce_notes(
            t.draft.stations@.len(),
            p_count(context.picks@, t.draft.observations@),
        ) + note(
            ready(context, t.draft.observations@),
            "rank_deficient_or_non_positive_definite_hessian"@,
        )
        &&& unsolved(context, t.draft, a.figures, t.outcome)
        &&& views(t.record.stations@) == stations_of(context, t.draft.observations@)
    }
}

/// What a hypothesis leaves is of picks of the context.
proof fn untaken_wf(context: SolveContext, b: Plan, v: Seq<PickObservation>)
    requires
        observations_wf(context, v),
    ensures
        forall|i: int|
            0 <= i < untaken(context, b, v).len() ==> (#[trigger] untaken(
                context,
                b,
                v,
            )[i]).0.pick_index < context.picks@.len(),
    decreases v.len(),
{
    if v.len() > 0 {
        let t = v.drop_last();
        assert(observations_wf(context, t)) by {
            assert forall|i: int| 0 <= i < t.len() implies (#[trigger] t[i]).pick_index
                < context.picks@.len() && t[i].station_index < context.stations@.len()
                && corrected(t[i].observed_epoch as int) by {
                assert(t[i] == v[i]);
            }
        }
        untaken_wf(context, b, t);
        assert(v[v.len() - 1].pick_index < context.picks@.len());
        let (before, after) = (untaken(context, b, t), untaken(context, b, v));
        assert forall|i: int| 0 <= i < after.len() implies (#[trigger] after[i]).0.pick_index
            < context.picks@.len() by {
            if i < before.len() {
                assert(after[i] == before[i]);
            }
        }
    }
}

/// What the fits reject is of picks of the context.
proof fn late_wf(context: SolveContext, v: Seq<PickObservation>, accepted: Seq<usize>)
    requires
        observations_wf(context, v),
    ensures
        forall|i: int|
            0 <= i < late(v, accepted).len() ==> (#[trigger] late(v, accepted)[i]).0.pick_index
                < context.picks@.len(),
    decreases v.len(),
{
    if v.len() > 0 {
        let t = v.drop_last();
        assert(observations_wf(context, t)) by {
            assert forall|i: int| 0 <= i < t.len() implies (#[trigger] t[i]).pick_index
                < context.picks@.len() && t[i].station_index < context.stations@.len()
                && corrected(t[i].observed_epoch as int) by {
                assert(t[i] == v[i]);
            }
        }
        late_wf(context, t, accepted);
        assert(v[v.len() - 1].pick_index < context.picks@.len());
        let (before, after) = (late(t, accepted), late(v, accepted));
        assert forall|i: int| 0 <= i < after.len() implies (#[trigger] after[i]).0.pick_index
            < context.picks@.len() by {
            if i < before.len() {
                assert(after[i] == before[i]);
            }
        }
    }
}

/// What is left is of picks of the context where its observations are.
proof fn all_left_wf(context: SolveContext, v: Seq<LeftPick>)
    requires
        forall|i: int|
            0 <= i < all_left(v).len() ==> (#[trigger] all_left(v)[i]).0.pick_index
                < context.picks@.len(),
    ensures
        left_wf(context, v),
{
    assert forall|i: int| 0 <= i < v.len() implies (#[trigger] v[i]).observation.pick_index
        < context.picks@.len() by {
        assert(all_left(v)[i].0.pick_index < context.picks@.len());
    }
}

/// The ids of the stations of some observations.
fn station_names(context: &SolveContext, obs: &Vec<PickObservation>) -> (r: Vec<String>)
    requires
        observations_wf(*context, obs@),
    ensures
        views(r@) == stations_of(*context, obs@),
{
    let mut r: Vec<String> = Vec::new();
    let mut i: usize = 0;
    while i < obs.len()
        invariant
            i <= obs@.len(),
            observations_wf(*context, obs@),
            r@.len() == i,
            forall|j: int|
                0 <= j < i ==> (#[trigger] r@[j])@
                    == context.picks@[obs@[j].pick_index as int].station_id@,
        decreases obs@.len() - i,
    {
        assert(obs@[i as int].pick_index < context.picks@.len());
        r.push(context.picks[obs[i].pick_index].station_id.clone());
        i += 1;
    }
    assert(views(r@) =~= stations_of(*context, obs@));
    r
}

/// Slots are stations of the context.
proof fn slots_wf(context: SolveContext, v: Seq<PickObservation>)
    requires
        observations_wf(context, v),
    ensures
        forall|i: int| 0 <= i < slot_list(v).len() ==> (#[trigger] slot_list(v)[i])
            < context.stations@.len(),
{
    slots_are_stations(v);
    assert forall|i: int| 0 <= i < slot_list(v).len() implies (#[trigger] slot_list(v)[i])
        < context.stations@.len() by {
        assert(slot_list(v).contains(slot_list(v)[i]));
        let k = choose|k: int|
            0 <= k < v.len() && (#[trigger] v[k]).station_index == slot_list(v)[i];
        assert(v[k].station_index < context.stations@.len());
    }
}

/// What comes of a hypothesis, given what its fits came to: its outcome, and
/// what shared clocks have to know of it.
pub fn fit_independent(
    context: &SolveContext,
    blueprint: &Blueprint,
    observations: &Vec<PickObservation>,
    attempt: Attempt,
) -> (r: (Outcome, FitRecord))
    requires
        context.wf(),
        corrected(blueprint.seed_time as int),
        observations_wf(*context, observations@),
        attempt_fits(*context, blueprint@, observations@, attempt),
    ensures
        exists|t: Trail| #[trigger]
            attempted(*context, *blueprint, observations@, attempt, t) && t.outcome == r.0
                && t.record == r.1,
        r.0.fits(*context),
{
    let ghost given = attempt;
    let fit_key: i64 = attempt.figures.fit_key;
    let (draft, enough) = begin_fit(context, blueprint, observations);
    let ghost first_draft = draft;
    proof {
        untaken_wf(*context, blueprint@, observations@);
        all_left_wf(*context, draft.rejected@);
        slots_wf(*context, draft.observations@);
    }
    let numbers = match attempt.numbers {
        Some(n) => n,
        None => {
            let mut last = draft;
            if enough {
                last = fail_fit(last);
            }
            assert(views(last.warnings@) =~= views(first_draft.warnings@) + note(
                enough,
                "rank_deficient_or_non_positive_definite_hessian"@,
            ));
            let stations = station_names(context, &last.observations);
            let ghost whole = last;
            let outcome = unsolved_outcome(context, last, attempt.figures);
            let record = FitRecord {
                event_key: blueprint.event_key.clone(),
                solved: false,
                score: fit_key,
                stations,
            };
            proof {
                let t = Trail {
                    draft: whole,
                    sifted: arbitrary(),
                    settled: arbitrary(),
                    outcome,
                    record,
                };
                assert(attempted(*context, *blueprint, observations@, given, t));
            }
            return (outcome, record);
        },
    };
    if !enough {
        let stations = station_names(context, &draft.observations);
        let outcome = unsolved_outcome(context, draft, attempt.figures);
        let record = FitRecord {
            event_key: blueprint.event_key.clone(),
            solved: false,
            score: fit_key,
            stations,
        };
        proof {
            let t = Trail {
                draft: first_draft,
                sifted: arbitrary(),
                settled: arbitrary(),
                outcome,
                record,
            };
            assert(views(first_draft.warnings@) =~= views(first_draft.warnings@) + note(
                false,
                "rank_deficient_or_non_positive_definite_hessian"@,
            ));
            assert(attempted(*context, *blueprint, observations@, given, t));
        }
        return (outcome, record);
    }
    let sifted = sift_fit(context, &draft, &numbers.first);
    let ghost first_sifted = sifted;
    let settled = settle_fit(context, draft, sifted, &numbers.last, numbers.x, numbers.y);
    proof {
        late_wf(
            *context,
            first_draft.observations@,
            staying(*context, first_sifted.observations@, numbers.last@),
        );
        let (a, b) = (
            all_left(first_draft.rejected@),
            rejected_late(*context, first_draft.observations@, first_sifted, numbers.last@),
        );
        assert forall|i: int| 0 <= i < all_left(settled.rejected@).len() implies (
        #[trigger] all_left(settled.rejected@)[i]).0.pick_index < context.picks@.len() by {
            if i < a.len() {
                assert(all_left(settled.rejected@)[i] == a[i]);
            } else {
                assert(all_left(settled.rejected@)[i] == b[i - a.len()]);
            }
        }
        all_left_wf(*context, settled.rejected@);
        slots_wf(*context, settled.observations@);
    }
    let stations = station_names(context, &settled.observations);
    let ghost last_settled = settled;
    let outcome = settled_outcome(context, settled, numbers, attempt.figures);
    let record = FitRecord {
        event_key: blueprint.event_key.clone(),
        solved: true,
        score: fit_key,
        stations,
    };
    proof {
        let t = Trail {
            draft: first_draft,
            sifted: first_sifted,
            settled: last_settled,
            outcome,
            record,
        };
        assert(attempted(*context, *blueprint, observations@, given, t));
    }
    (outcome, record)
}

/// An outcome with one more warning, where there is one.
pub open spec fn noted(o: Outcome, n: Option<Seq<char>>, r: Outcome) -> bool {
    &&& r.place == o.place
    &&& r.fitted == Fitted { warnings: r.fitted.warnings, ..o.fitted }
    &&& views(r.fitted.warnings@) == views(o.fitted.warnings@) + match n {
        Some(text) => seq![text],
        None => Seq::empty(),
    }
}

/// How the candidates of a network came about: the steps of each hypothesis,
/// what was done about shared clocks, the outcomes with what that gave cause to
/// say, and all that could be reported.
pub struct Account {
    pub trails: Seq<Trail>,
    pub plan: SharedPlan,
    pub verdict: Verdict,
    pub outcomes: Seq<Outcome>,
    pub all: Seq<Candidate>,
}

/// What shared clocks have to know of some hypotheses.
pub open spec fn records_of(trails: Seq<Trail>) -> Seq<FitRecord> {
    trails.map_values(|t: Trail| t.record)
}

/// The ids of the stations of a context.
pub open spec fn station_ids(context: SolveContext) -> Seq<Seq<char>> {
    context.stations@.map_values(|s: Station| s.station_id@)
}

/// Whether some candidates are those of a network, given what the fits of its
/// hypotheses and a joint fit came to.
pub open spec fn network_solved(
    context: SolveContext,
    observations: Seq<PickObservation>,
    hypotheses: Seq<Blueprint>,
    attempts: Seq<Attempt>,
    joint: Option<(Option<i64>, Option<i64>)>,
    w: Account,
    r: Seq<Candidate>,
) -> bool {
    let n = hypotheses.len();
    &&& w.trails.len() == n
    &&& w.outcomes.len() == n
    &&& w.all.len() == n
    &&& forall|i: int|
        0 <= i < n ==> attempted(
            context,
            hypotheses[i],
            observations,
            attempts[i],
            #[trigger] w.trails[i],
        )
    &&& shared_plan(records_of(w.trails), station_ids(context), w.plan)
    &&& joint_settled(w.plan, records_of(w.trails), joint, w.verdict)
    &&& forall|i: int|
        0 <= i < n ==> noted(
            w.trails[i].outcome,
            verdict_note(w.verdict, w.trails[i].record),
            #[trigger] w.outcomes[i],
        )
    &&& forall|i: int|
        0 <= i < n ==> reported(context, hypotheses[i], w.outcomes[i], #[trigger] w.all[i])
    &&& r == kept(sorted(w.all))
}

/// Adds a warning to an outcome, where there is one.
fn add_warning(o: Outcome, n: Option<String>) -> (r: Outcome)
    ensures
        noted(o, told(n), r),
{
    let mut warnings = o.fitted.warnings;
    let ghost before = views(warnings@);
    let ghost text = told(n);
    if let Some(text) = n {
        warnings.push(text);
    }
    assert(views(warnings@) =~= before + match text {
        Some(text) => seq![text],
        None => Seq::empty(),
    });
    Outcome {
        fitted: Fitted {
            number: o.fitted.number,
            stations: o.fitted.stations,
            warnings,
            accepted: o.fitted.accepted,
            rejected: o.fitted.rejected,
            score: o.fitted.score,
            score_key: o.fitted.score_key,
            seed_number: o.fitted.seed_number,
        },
        place: o.place,
    }
}

/// The ids of the stations of a context.
fn context_stations(context: &SolveContext) -> (r: Vec<String>)
    ensures
        views(r@) == station_ids(*context),
{
    let mut r: Vec<String> = Vec::new();
    let mut i: usize = 0;
    while i < context.stations.len()
        invariant
            i <= context.stations@.len(),
            r@.len() == i,
            forall|j: int| 0 <= j < i ==> (#[trigger] r@[j])@ == context.stations@[j].station_id@,
        decreases context.stations@.len() - i,
    {
        r.push(context.stations[i].station_id.clone());
        i += 1;
    }
    assert(views(r@) =~= station_ids(*context));
    r
}

/// Solves a network, given its plan, what the fits of its hypotheses came to,
/// and the misfits of a joint fit and of the fits on their own, where there is
/// a joint fit: the best candidates of each event, with their ranks.
pub fn solve_network(
    context: &SolveContext,
    observations: &Vec<PickObservation>,
    hypotheses: &Vec<Blueprint>,
    attempts: Vec<Attempt>,
    joint: Option<(Option<i64>, Option<i64>)>,
) -> (r: Vec<Candidate>)
    requires
        context.wf(),
        network_planned(*context, observations@, hypotheses@),
        attempts@.len() == hypotheses@.len(),
        forall|i: int|
            0 <= i < attempts@.len() ==> attempt_fits(
                *context,
                hypotheses@[i]@,
                observations@,
                #[trigger] attempts@[i],
            ),
    ensures
        exists|w: Account|
            network_solved(
                *context,
                observations@,
                hypotheses@,
                attempts@,
                joint,
                w,
                r@,
            ),
{
    let n: usize = hypotheses.len();
    let ghost given = attempts@;
    let ghost mut trails: Seq<Trail> = Seq::empty();
    let mut rest = attempts;
    let mut fitted: Vec<Outcome> = Vec::new();
    let mut records: Vec<FitRecord> = Vec::new();
    let mut i: usize = 0;
    assert(given.skip(0) =~= given);
    while i < n
        invariant
            i <= n,
            n == hypotheses@.len(),
            n == given.len(),
            context.wf(),
            network_planned(*context, observations@, hypotheses@),
            forall|k: int|
                0 <= k < given.len() ==> attempt_fits(
                    *context,
                    hypotheses@[k]@,
                    observations@,
                    #[trigger] given[k],
                ),
            rest@ == given.skip(i as int),
            trails.len() == i,
            fitted@.len() == i,
            records@.len() == i,
            forall|k: int|
                0 <= k < i ==> attempted(
                    *context,
                    hypotheses@[k],
                    observations@,
                    given[k],
                    #[trigger] trails[k],
                ),
            forall|k: int|
                0 <= k < i ==> (#[trigger] fitted@[k]) == trails[k].outcome && fitted@[k].fits(
                    *context,
                ),
            forall|k: int| 0 <= k < i ==> (#[trigger] records@[k]) == trails[k].record,
        decreases n - i,
    {
        let a = rest.remove(0);
        assert(a == given[i as int]);
        assert(rest@ =~= given.skip(i + 1));
        assert(corrected(hypotheses@[i as int].seed_time as int));
        let (o, record) = fit_independent(context, &hypotheses[i], observations, a);
        proof {
            let t = choose|t: Trail| #[trigger]
                attempted(
                    *context,
                    hypotheses@[i as int],
                    observations@,
                    given[i as int],
                    t,
                ) && t.outcome == o && t.record == record;
            trails = trails.push(t);
        }
        fitted.push(o);
        records.push(record);
        i += 1;
    }
    assert(records@ =~= records_of(trails));
    let plan = plan_shared_clocks(&records, &context_stations(context));
    let verdict = settle_joint(&plan, &records, joint);
    let ghost before = fitted@;
    let mut left = fitted;
    let mut outcomes: Vec<Outcome> = Vec::new();
    let mut k: usize = 0;
    assert(before.skip(0) =~= before);
    while k < n
        invariant
            k <= n,
            n == before.len(),
            n == records@.len(),
            n == trails.len(),
            records@ == records_of(trails),
            left@ == before.skip(k as int),
            outcomes@.len() == k,
            forall|j: int|
                0 <= j < n ==> (#[trigger] before[j]) == trails[j].outcome && before[j].fits(
                    *context,
                ),
            forall|j: int|
                0 <= j < k ==> noted(
                    before[j],
                    verdict_note(verdict, trails[j].record),
                    #[trigger] outcomes@[j],
                ),
            forall|j: int| 0 <= j < k ==> (#[trigger] outcomes@[j]).fits(*context),
        decreases n - k,
    {
        let o = left.remove(0);
        assert(o == before[k as int]);
        assert(left@ =~= before.skip(k + 1));
        let warning = verdict_warning(&verdict, &records[k]);
        assert(records@[k as int] == trails[k as int].record);
        let next = add_warning(o, warning);
        assert(next.fits(*context));
        outcomes.push(next);
        k += 1;
    }
    let ghost all_outcomes = outcomes@;
    let r = report_candidates(context, hypotheses, outcomes);
    proof {
        let all = choose|all: Seq<Candidate>|
            all.len() == all_outcomes.len() && r@ == kept(sorted(all)) && forall|i: int|
                0 <= i < all.len() ==> reported(
                    *context,
                    hypotheses@[i],
                    all_outcomes[i],
                    #[trigger] all[i],
                );
        let w = Account { trails, plan, verdict, outcomes: all_outcomes, all };
        assert forall|i: int| 0 <= i < n implies noted(
            w.trails[i].outcome,
            verdict_note(w.verdict, w.trails[i].record),
            #[trigger] w.outcomes[i],
        ) by {
            assert(before[i] == trails[i].outcome);
        }
        assert(network_solved(
            *context,
            observations@,
            hypotheses@,
            given,
            joint,
            w,
            r@,
        ));
    }
    r
}

} // verus!
