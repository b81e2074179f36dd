//! Fitting one hypothesis: what goes into the fit, what its residuals lead
//! to, and what is reported of each arrival.
use vstd::prelude::*;

use crate::association::{
    all_left, left, taken, triage, untaken, Blueprint, LeftPick,
};
use crate::cluster::climbing;
use crate::decimal::{magnitude, size};
use crate::epoch::{format_epoch, millis, written};
use crate::fits::note;
use crate::model::Phase;
use crate::network::{
    bias_at, corrected, observations_wf, station_bias, Pick, PickObservation, PickStatus,
    SolveContext,
};
use crate::order::{sort, sorted, Ranked};
use crate::precheck::holds_index;
use crate::text::{le, text_le, text_le_total, text_le_transitive, views};
use crate::windows::{place_index, placed, placement};

verus! {

/// How many sigmas a residual may have.
pub const ACCEPTANCE_SIGMA: i128 = 4;

/// The stations of some observations, each once, in rising order.
pub open spec fn slot_list(v: Seq<PickObservation>) -> Seq<usize>
    decreases v.len(),
{
    if v.len() == 0 {
        Seq::empty()
    } else {
        let rest = slot_list(v.drop_last());
        let x = v.last().station_index;
        if rest.contains(x) {
            rest
        } else {
            placed(rest, x)
        }
    }
}

/// The slots are the stations that the observations are at, in rising order.
pub proof fn slots_are_stations(v: Seq<PickObservation>)
    ensures
        climbing(slot_list(v)),
        slot_list(v).len() <= v.len(),
        forall|x: usize| #[trigger]
            slot_list(v).contains(x) <==> exists|i: int|
                0 <= i < v.len() && (#[trigger] v[i]).station_index == x,
    decreases v.len(),
{
    if v.len() > 0 {
        let t = v.drop_last();
        slots_are_stations(t);
        let rest = slot_list(t);
        let x = v.last().station_index;
        if !rest.contains(x) {
            placement(rest, x);
            placed_len(rest, x);
        }
        assert forall|y: usize| #[trigger] slot_list(v).contains(y) <==> exists|i: int|
            0 <= i < v.len() && (#[trigger] v[i]).station_index == y by {
            if rest.contains(y) {
                let i = choose|i: int| 0 <= i < t.len() && (#[trigger] t[i]).station_index == y;
                assert(v[i].station_index == y);
            }
            if exists|i: int| 0 <= i < v.len() && (#[trigger] v[i]).station_index == y {
                let i = choose|i: int| 0 <= i < v.len() && (#[trigger] v[i]).station_index == y;
                if i < t.len() {
                    assert(t[i].station_index == y);
                }
            }
            assert(v[v.len() - 1].station_index == x);
        }
    }
}

/// Placing a position makes a list longer by one.
proof fn placed_len(s: Seq<usize>, x: usize)
    ensures
        placed(s, x).len() == s.len() + 1,
    decreases s.len(),
{
    if s.len() == 0 || s.last() <= x {
    } else {
        placed_len(s.drop_last(), x);
    }
}

/// The stations of some observations, each once, in rising order.
pub fn station_slots(obs: &Vec<PickObservation>) -> (r: Vec<usize>)
    ensures
        r@ == slot_list(obs@),
{
    let mut r: Vec<usize> = Vec::new();
    let mut i: usize = 0;
    assert(obs@.take(0) =~= Seq::<PickObservation>::empty());
    while i < obs.len()
        invariant
            i <= obs@.len(),
            r@ == slot_list(obs@.take(i as int)),
        decreases obs@.len() - i,
    {
        assert(obs@.take(i + 1).drop_last() =~= obs@.take(i as int));
        let x: usize = obs[i].station_index;
        if !holds_index(&r, x) {
            place_index(&mut r, x);
        }
        i += 1;
    }
    assert(obs@.take(i as int) =~= obs@);
    r
}

/// How many observations are of P arrivals.
pub open spec fn p_count(picks: Seq<Pick>, v: Seq<PickObservation>) -> nat
    decreases v.len(),
{
    if v.len() == 0 {
        0
    } else {
        p_count(picks, v.drop_last()) + if picks[v.last().pick_index as int].phase == Phase::P {
            1nat
        } else {
            0nat
        }
    }
}

/// Counts the observations of P arrivals.
fn count_p(picks: &Vec<Pick>, obs: &Vec<PickObservation>) -> (r: usize)
    requires
        forall|i: int| 0 <= i < obs@.len() ==> (#[trigger] obs@[i]).pick_index < picks@.len(),
    ensures
        r == p_count(picks@, obs@),
{
    let n: usize = obs.len();
    let mut r: usize = 0;
    let mut i: usize = 0;
    assert(obs@.take(0) =~= Seq::<PickObservation>::empty());
    while i < n
        invariant
            n == obs@.len(),
            i <= n,
            r <= i,
            forall|j: int| 0 <= j < obs@.len() ==> (#[trigger] obs@[j]).pick_index < picks@.len(),
            r == p_count(picks@, obs@.take(i as int)),
        decreases n - i,
    {
        assert(obs@.take(i + 1).drop_last() =~= obs@.take(i as int));
        assert(obs@[i as int].pick_index < picks@.len());
        if picks[obs[i].pick_index].phase == Phase::P {
            r += 1;
        }
        i += 1;
    }
    assert(obs@.take(i as int) =~= obs@);
    r
}

/// A hypothesis before it is fitted: what it takes, what it leaves, and what
/// is to be said of it.
#[derive(Debug, Clone)]
pub struct Draft {
    pub observations: Vec<PickObservation>,
    pub stations: Vec<usize>,
    pub rejected: Vec<LeftPick>,
    pub warnings: Vec<String>,
}

/// What is said of a hypothesis with few stations or few P arrivals.
pub open spec fn scarce_notes(stations: nat, p: nat) -> Seq<Seq<char>> {
    note(stations < 3, "fewer_than_three_stations"@) + note(p < 3, "fewer_than_three_p_arrivals"@)
}

/// Whether there is enough to fit.
pub open spec fn fittable(stations: nat, p: nat) -> bool {
    stations >= 3 && p >= 3
}

/// A hypothesis before it is fitted.
pub open spec fn drafted(
    context: SolveContext,
    blueprint: Blueprint,
    observations: Seq<PickObservation>,
    d: Draft,
) -> bool {
    &&& d.observations@ == taken(context, blueprint@, observations)
    &&& d.stations@ == slot_list(d.observations@)
    &&& all_left(d.rejected@) == untaken(context, blueprint@, observations)
    &&& views(d.warnings@) == scarce_notes(
        d.stations@.len(),
        p_count(context.picks@, d.observations@),
    )
}

/// Prepares a hypothesis, and tells whether there is enough to fit it.
pub fn begin_fit(
    context: &SolveContext,
    blueprint: &Blueprint,
    observations: &Vec<PickObservation>,
) -> (r: (Draft, bool))
    requires
        context.wf(),
        corrected(blueprint.seed_time as int),
        observations_wf(*context, observations@),
    ensures
        drafted(*context, *blueprint, observations@, r.0),
        observations_wf(*context, r.0.observations@),
        r.1 == fittable(r.0.stations@.len(), p_count(context.picks@, r.0.observations@)),
{
    let (assigned, rejected) = triage(context, blueprint, observations);
    let stations = station_slots(&assigned);
    assert forall|i: int| 0 <= i < assigned@.len() implies (#[trigger] assigned@[i]).pick_index
        < context.picks@.len() by {}
    let p: usize = count_p(&context.picks, &assigned);
    let mut warnings: Vec<String> = Vec::new();
    if stations.len() < 3 {
        warnings.push("fewer_than_three_stations".to_owned());
    }
    if p < 3 {
        warnings.push("fewer_than_three_p_arrivals".to_owned());
    }
    assert(views(warnings@) =~= scarce_notes(stations@.len(), p as nat));
    let ready = stations.len() >= 3 && p >= 3;
    (Draft { observations: assigned, stations, rejected, warnings }, ready)
}

/// What is said of a hypothesis whose fit has no unique solution.
pub fn fail_fit(draft: Draft) -> (r: Draft)
    ensures
        r.observations == draft.observations,
        r.stations == draft.stations,
        r.rejected == draft.rejected,
        views(r.warnings@) == views(draft.warnings@).push(
            "rank_deficient_or_non_positive_definite_hessian"@,
        ),
{
    let mut warnings = draft.warnings;
    let ghost before = warnings@;
    warnings.push("rank_deficient_or_non_positive_definite_hessian".to_owned());
    assert(views(warnings@) =~= views(before).push(
        "rank_deficient_or_non_positive_definite_hessian"@,
    ));
    Draft {
        observations: draft.observations,
        stations: draft.stations,
        rejected: draft.rejected,
        warnings,
    }
}

/// Whether a residual is too large for its observation.
pub open spec fn excessive(o: PickObservation, residual: int) -> bool {
    size(residual) > ACCEPTANCE_SIGMA * o.sigma_seconds
}

/// Whether a pick is locked.
pub open spec fn locked(context: SolveContext, o: PickObservation) -> bool {
    context.picks@[o.pick_index as int].status == PickStatus::Locked
}

/// Whether an observation stays with a fit that leaves it a residual.
pub open spec fn stays(context: SolveContext, o: PickObservation, residual: int) -> bool {
    !excessive(o, residual) || locked(context, o)
}

/// The picks that stay with a fit.
pub open spec fn staying(
    context: SolveContext,
    v: Seq<PickObservation>,
    residuals: Seq<i64>,
) -> Seq<usize>
    decreases v.len(),
{
    if v.len() == 0 {
        Seq::empty()
    } else {
        let rest = staying(context, v.drop_last(), residuals.drop_last());
        if stays(context, v.last(), residuals.last() as int) {
            rest.push(v.last().pick_index)
        } else {
            rest
        }
    }
}

/// Whether a residual is too large for its observation.
fn is_excessive(o: &PickObservation, residual: i64) -> (r: bool)
    ensures
        r == excessive(*o, residual as int),
{
    magnitude(residual) as i128 > ACCEPTANCE_SIGMA * o.sigma_seconds as i128
}

/// The picks that stay with a fit.
pub fn classify_accepted(
    context: &SolveContext,
    obs: &Vec<PickObservation>,
    residuals: &Vec<i64>,
) -> (r: Vec<usize>)
    requires
        observations_wf(*context, obs@),
        residuals@.len() == obs@.len(),
    ensures
        r@ == staying(*context, obs@, residuals@),
{
    let mut r: Vec<usize> = Vec::new();
    let mut i: usize = 0;
    assert(obs@.take(0) =~= Seq::<PickObservation>::empty());
    while i < obs.len()
        invariant
            i <= obs@.len(),
            observations_wf(*context, obs@),
            residuals@.len() == obs@.len(),
            r@ == staying(*context, obs@.take(i as int), residuals@.take(i as int)),
        decreases obs@.len() - i,
    {
        let o: PickObservation = obs[i];
        assert(obs@.take(i + 1).drop_last() =~= obs@.take(i as int));
        assert(residuals@.take(i + 1).drop_last() =~= residuals@.take(i as int));
        assert(obs@[i as int].pick_index < context.picks@.len());
        if !is_excessive(&o, residuals[i]) || context.picks[o.pick_index].status
            == PickStatus::Locked {
            r.push(o.pick_index);
        }
        i += 1;
    }
    assert(obs@.take(i as int) =~= obs@);
    assert(residuals@.take(i as int) =~= residuals@);
    r
}

/// The observations of the picks that stay, and of those that are locked.
pub open spec fn trimmed(
    context: SolveContext,
    v: Seq<PickObservation>,
    accepted: Seq<usize>,
) -> Seq<PickObservation>
    decreases v.len(),
{
    if v.len() == 0 {
        v
    } else {
        let rest = trimmed(context, v.drop_last(), accepted);
        if accepted.contains(v.last().pick_index) || locked(context, v.last()) {
            rest.push(v.last())
        } else {
            rest
        }
    }
}

/// The observations of the picks that stay, and of those that are locked.
fn trim_observations(
    context: &SolveContext,
    obs: &Vec<PickObservation>,
    accepted: &Vec<usize>,
) -> (r: Vec<PickObservation>)
    requires
        observations_wf(*context, obs@),
    ensures
        r@ == trimmed(*context, obs@, accepted@),
        observations_wf(*context, r@),
{
    let mut r: Vec<PickObservation> = Vec::new();
    let mut i: usize = 0;
    assert(obs@.take(0) =~= Seq::<PickObservation>::empty());
    while i < obs.len()
        invariant
            i <= obs@.len(),
            observations_wf(*context, obs@),
            r@ == trimmed(*context, obs@.take(i as int), accepted@),
            observations_wf(*context, r@),
        decreases obs@.len() - i,
    {
        let o: PickObservation = obs[i];
        assert(obs@.take(i + 1).drop_last() =~= obs@.take(i as int));
        assert(obs@[i as int].pick_index < context.picks@.len());
        if holds_index(accepted, o.pick_index) || context.picks[o.pick_index].status
            == PickStatus::Locked {
            r.push(o);
        }
        i += 1;
    }
    assert(obs@.take(i as int) =~= obs@);
    r
}

/// No more picks stay than there were.
proof fn staying_len(context: SolveContext, v: Seq<PickObservation>, residuals: Seq<i64>)
    requires
        v.len() == residuals.len(),
    ensures
        staying(context, v, residuals).len() <= v.len(),
        staying(context, v, residuals).len() == v.len() ==> forall|i: int|
            0 <= i < v.len() ==> staying(context, v, residuals).contains(
                (#[trigger] v[i]).pick_index,
            ),
    decreases v.len(),
{
    if v.len() > 0 {
        let t = v.drop_last();
        let s = staying(context, t, residuals.drop_last());
        let r = staying(context, v, residuals);
        staying_len(context, t, residuals.drop_last());
        if r.len() == v.len() {
            assert forall|i: int| 0 <= i < v.len() implies r.contains(
                (#[trigger] v[i]).pick_index,
            ) by {
                if i < t.len() {
                    assert(s.contains(t[i].pick_index));
                    let k = choose|k: int| 0 <= k < s.len() && s[k] == t[i].pick_index;
                    assert(r[k] == v[i].pick_index);
                } else {
                    assert(r[s.len() as int] == v[i].pick_index);
                }
            }
        }
    }
}

/// What is left of observations that all stay.
proof fn trimmed_all(context: SolveContext, v: Seq<PickObservation>, accepted: Seq<usize>)
    requires
        forall|i: int| 0 <= i < v.len() ==> accepted.contains((#[trigger] v[i]).pick_index),
    ensures
        trimmed(context, v, accepted) == v,
    decreases v.len(),
{
    if v.len() > 0 {
        let t = v.drop_last();
        assert forall|i: int| 0 <= i < t.len() implies accepted.contains(
            (#[trigger] t[i]).pick_index,
        ) by {
            assert(t[i] == v[i]);
        }
        trimmed_all(context, t, accepted);
        assert(accepted.contains(v[v.len() - 1].pick_index));
        assert(t.push(v.last()) =~= v);
    }
}

/// What the residuals of a first fit lead to.
#[derive(Debug, Clone)]
pub struct Sifted {
    pub observations: Vec<PickObservation>,
    pub stations: Vec<usize>,
    pub changed: bool,
    pub refit: bool,
}

/// What the residuals of a first fit lead to: observations that do not stay
/// are taken out, and what is left is fitted again if it is enough.
pub open spec fn is_sifted(
    context: SolveContext,
    v: Seq<PickObservation>,
    residuals: Seq<i64>,
    r: Sifted,
) -> bool {
    let accepted = staying(context, v, residuals);
    &&& r.changed == (accepted.len() != v.len())
    &&& r.observations@ == trimmed(context, v, accepted)
    &&& r.stations@ == slot_list(r.observations@)
    &&& r.refit == (r.changed && r.stations@.len() >= 3 && r.observations@.len() >= 4)
}

/// Sifts the observations by the residuals of a first fit.
pub fn sift_fit(context: &SolveContext, draft: &Draft, residuals: &Vec<i64>) -> (r: Sifted)
    requires
        observations_wf(*context, draft.observations@),
        residuals@.len() == draft.observations@.len(),
    ensures
        is_sifted(*context, draft.observations@, residuals@, r),
        !r.changed ==> r.observations@ == draft.observations@,
        observations_wf(*context, r.observations@),
{
    let accepted = classify_accepted(context, &draft.observations, residuals);
    let observations = trim_observations(context, &draft.observations, &accepted);
    let stations = station_slots(&observations);
    let changed = accepted.len() != draft.observations.len();
    proof {
        if !changed {
            staying_len(*context, draft.observations@, residuals@);
            trimmed_all(*context, draft.observations@, accepted@);
        }
    }
    let refit = changed && stations.len() >= 3 && observations.len() >= 4;
    Sifted { observations, stations, changed, refit }
}

/// A locked observation is never taken out.
pub proof fn locked_observations_stay(
    context: SolveContext,
    v: Seq<PickObservation>,
    accepted: Seq<usize>,
    i: int,
)
    requires
        0 <= i < v.len(),
        locked(context, v[i]),
    ensures
        trimmed(context, v, accepted).contains(v[i]),
    decreases v.len(),
{
    let t = v.drop_last();
    let r = trimmed(context, v, accepted);
    if i < t.len() {
        locked_observations_stay(context, t, accepted, i);
        let u = trimmed(context, t, accepted);
        let k = choose|k: int| 0 <= k < u.len() && u[k] == t[i];
        assert(r[k] == v[i]);
    } else {
        assert(r[r.len() - 1] == v[i]);
    }
}

/// The observations whose picks are not among those that stay.
pub open spec fn late(v: Seq<PickObservation>, accepted: Seq<usize>) -> Seq<
    (PickObservation, Seq<char>),
>
    decreases v.len(),
{
    if v.len() == 0 {
        Seq::empty()
    } else {
        let rest = late(v.drop_last(), accepted);
        if accepted.contains(v.last().pick_index) {
            rest
        } else {
            rest.push((v.last(), "arrival_residual_gt_4sigma"@))
        }
    }
}

/// Whether a locked observation has a residual that is too large.
pub open spec fn lock_contradicted(
    context: SolveContext,
    v: Seq<PickObservation>,
    residuals: Seq<i64>,
) -> bool {
    exists|i: int|
        0 <= i < v.len() && locked(context, #[trigger] v[i]) && excessive(
            v[i],
            residuals[i] as int,
        )
}

/// A hypothesis after it was fitted.
#[derive(Debug, Clone)]
pub struct Settled {
    pub observations: Vec<PickObservation>,
    pub stations: Vec<usize>,
    pub rejected: Vec<LeftPick>,
    pub warnings: Vec<String>,
    pub residual_rejections: usize,
}

/// Whether there are no more observations than parameters.
pub open spec fn no_freedom(picks: nat, stations: nat) -> bool {
    picks <= 3 + if stations == 0 {
        0
    } else {
        stations - 1
    }
}

/// The observations that stay with the last fit.
pub open spec fn remaining(
    context: SolveContext,
    sifted: Sifted,
    residuals: Seq<i64>,
) -> Seq<PickObservation> {
    let v = sifted.observations@;
    trimmed(context, v, staying(context, v, residuals))
}

/// What is said of a hypothesis after it was fitted.
pub open spec fn settled_notes(
    context: SolveContext,
    sifted: Sifted,
    residuals: Seq<i64>,
    x: int,
    y: int,
) -> Seq<Seq<char>> {
    let v = remaining(context, sifted, residuals);
    note(no_freedom(v.len(), slot_list(v).len()), "no_positive_degrees_of_freedom"@) + note(
        !context.model.holds(x, y),
        "solution_outside_velocity_model"@,
    ) + note(
        lock_contradicted(context, sifted.observations@, residuals),
        "locked_arrival_residual_gt_4sigma"@,
    )
}

/// What is rejected for the residuals of the fits: all that went into the
/// first and does not stay with the last.
pub open spec fn rejected_late(
    context: SolveContext,
    before: Seq<PickObservation>,
    sifted: Sifted,
    residuals: Seq<i64>,
) -> Seq<(PickObservation, Seq<char>)> {
    late(before, staying(context, sifted.observations@, residuals))
}

/// A hypothesis after it was fitted: what stays with the last fit, and what
/// does not.
pub open spec fn settled(
    context: SolveContext,
    draft: Draft,
    sifted: Sifted,
    residuals: Seq<i64>,
    x: int,
    y: int,
    r: Settled,
) -> bool {
    let out = rejected_late(context, draft.observations@, sifted, residuals);
    &&& r.observations@ == remaining(context, sifted, residuals)
    &&& r.stations@ == slot_list(r.observations@)
    &&& all_left(r.rejected@) == all_left(draft.rejected@) + out
    &&& r.residual_rejections == out.len()
    &&& views(r.warnings@) == views(draft.warnings@) + settled_notes(
        context,
        sifted,
        residuals,
        x,
        y,
    )
}

/// Rejects the observations whose picks are not among those that stay.
fn reject_late(
    observations: &Vec<PickObservation>,
    accepted: &Vec<usize>,
    rejected: &mut Vec<LeftPick>,
) -> (r: usize)
    ensures
        all_left(final(rejected)@) == all_left(old(rejected)@) + late(observations@, accepted@),
        r == late(observations@, accepted@).len(),
{
    let ghost start = all_left(rejected@);
    let n: usize = observations.len();
    let mut count: usize = 0;
    let mut i: usize = 0;
    assert(observations@.take(0) =~= Seq::<PickObservation>::empty());
    assert(start + Seq::<(PickObservation, Seq<char>)>::empty() =~= start);
    while i < n
        invariant
            n == observations@.len(),
            i <= n,
            count <= i,
            count == late(observations@.take(i as int), accepted@).len(),
            all_left(rejected@) == start + late(observations@.take(i as int), accepted@),
        decreases n - i,
    {
        let o: PickObservation = observations[i];
        let ghost before = rejected@;
        let ghost so_far = late(observations@.take(i as int), accepted@);
        assert(observations@.take(i + 1).drop_last() =~= observations@.take(i as int));
        if !holds_index(accepted, o.pick_index) {
            let item = LeftPick {
                observation: o,
                reason: "arrival_residual_gt_4sigma".to_owned(),
            };
            rejected.push(item);
            count += 1;
            assert(all_left(rejected@) =~= all_left(before).push(left(item)));
            assert(start + so_far.push(left(item)) =~= (start + so_far).push(left(item)));
        }
        i += 1;
    }
    assert(observations@.take(i as int) =~= observations@);
    count
}

/// Whether a locked observation has a residual that is too large.
fn contradicts_lock(
    context: &SolveContext,
    obs: &Vec<PickObservation>,
    residuals: &Vec<i64>,
) -> (r: bool)
    requires
        observations_wf(*context, obs@),
        residuals@.len() == obs@.len(),
    ensures
        r == lock_contradicted(*context, obs@, residuals@),
{
    let mut i: usize = 0;
    while i < obs.len()
        invariant
            i <= obs@.len(),
            observations_wf(*context, obs@),
            residuals@.len() == obs@.len(),
            forall|j: int|
                0 <= j < i ==> !(locked(*context, #[trigger] obs@[j]) && excessive(
                    obs@[j],
                    residuals@[j] as int,
                )),
        decreases obs@.len() - i,
    {
        assert(obs@[i as int].pick_index < context.picks@.len());
        if context.picks[obs[i].pick_index].status == PickStatus::Locked && is_excessive(
            &obs[i],
            residuals[i],
        ) {
            assert(locked(*context, obs@[i as int]));
            return true;
        }
        i += 1;
    }
    false
}

/// Settles a hypothesis by the residuals and the place of its last fit.
pub fn settle_fit(
    context: &SolveContext,
    draft: Draft,
    sifted: Sifted,
    residuals: &Vec<i64>,
    x: i64,
    y: i64,
) -> (r: Settled)
    requires
        observations_wf(*context, sifted.observations@),
        residuals@.len() == sifted.observations@.len(),
    ensures
        settled(*context, draft, sifted, residuals@, x as int, y as int, r),
        observations_wf(*context, r.observations@),
{
    let accepted = classify_accepted(context, &sifted.observations, residuals);
    let observations = trim_observations(context, &sifted.observations, &accepted);
    let stations = station_slots(&observations);
    let mut rejected = draft.rejected;
    let residual_rejections: usize = reject_late(&draft.observations, &accepted, &mut rejected);
    let mut warnings = draft.warnings;
    let ghost said = views(warnings@);
    let fixed: usize = if stations.len() == 0 {
        0
    } else {
        stations.len() - 1
    };
    let picks: usize = observations.len();
    if picks <= 3 || picks - 3 <= fixed {
        warnings.push("no_positive_degrees_of_freedom".to_owned());
    }
    if !context.model.contains(x, y) {
        warnings.push("solution_outside_velocity_model".to_owned());
    }
    if contradicts_lock(context, &sifted.observations, residuals) {
        warnings.push("locked_arrival_residual_gt_4sigma".to_owned());
    }
    assert(views(warnings@) =~= said + settled_notes(
        *context,
        sifted,
        residuals@,
        x as int,
        y as int,
    ));
    Settled { observations, stations, rejected, warnings, residual_rejections }
}

/// What is added to the score of a hypothesis: fifty for each arrival that
/// its residual took out, and a hundred where a station is left out.
pub open spec fn penalty(residual_rejections: int, omitted: bool) -> int {
    50 * residual_rejections + if omitted {
        100int
    } else {
        0int
    }
}

/// What is added to the score of a hypothesis.
pub fn score_penalty(residual_rejections: usize, omitted: bool) -> (r: u128)
    ensures
        r == penalty(residual_rejections as int, omitted),
        r == 50 * residual_rejections + if omitted {
            100int
        } else {
            0int
        },
{
    50 * residual_rejections as u128 + if omitted {
        100
    } else {
        0
    }
}

/// Whether a number of billionths can be rounded.
pub open spec fn measured(v: int) -> bool {
    -1_000_000_000_000_000_000_000_000_000_000_000_000 <= v
        <= 1_000_000_000_000_000_000_000_000_000_000_000_000
}

/// A number of billionths to the nearest thousandth; a tie goes away from
/// zero.
pub fn round_milli(v: i128) -> (r: i128)
    requires
        measured(v as int),
    ensures
        r == millis(v as int) * 1_000_000,
{
    if v >= 0 {
        (v + 500_000) / 1_000_000 * 1_000_000
    } else {
        -((500_000 - v) / 1_000_000 * 1_000_000)
    }
}

/// What is reported of an arrival. Residual and contribution are billionths,
/// rounded to a thousandth; an arrival that was not used has none.
#[derive(Debug, Clone)]
pub struct CandidatePick {
    pub pick_id: String,
    pub station_id: String,
    pub phase: Phase,
    pub observed_time: String,
    pub predicted_time: String,
    pub residual_seconds: Option<i128>,
    pub sigma_seconds: i64,
    pub confidence: i64,
    pub contribution: Option<i128>,
    pub locked: bool,
    pub accepted: bool,
    pub reason: Option<String>,
}

/// What a report of an arrival says.
#[verifier::ext_equal]
pub struct Report {
    pub pick_id: Seq<char>,
    pub station_id: Seq<char>,
    pub phase: Phase,
    pub observed_time: Seq<char>,
    pub predicted_time: Seq<char>,
    pub residual_seconds: Option<i128>,
    pub sigma_seconds: i64,
    pub confidence: i64,
    pub contribution: Option<i128>,
    pub locked: bool,
    pub accepted: bool,
    pub reason: Option<Seq<char>>,
}

impl View for CandidatePick {
    type V = Report;

    open spec fn view(&self) -> Report {
        Report {
            pick_id: self.pick_id@,
            station_id: self.station_id@,
            phase: self.phase,
            observed_time: self.observed_time@,
            predicted_time: self.predicted_time@,
            residual_seconds: self.residual_seconds,
            sigma_seconds: self.sigma_seconds,
            confidence: self.confidence,
            contribution: self.contribution,
            locked: self.locked,
            accepted: self.accepted,
            reason: match self.reason {
                Some(text) => Some(text@),
                None => None,
            },
        }
    }
}

/// What the reports of some arrivals say.
pub open spec fn reports_of(v: Seq<CandidatePick>) -> Seq<Report> {
    v.map_values(|c: CandidatePick| c@)
}

/// What is reported of an arrival in any case.
pub open spec fn reports(context: SolveContext, o: PickObservation, c: CandidatePick) -> bool {
    let pick = context.picks@[o.pick_index as int];
    &&& c.pick_id@ == pick.pick_id@
    &&& c.station_id@ == pick.station_id@
    &&& c.phase == pick.phase
    &&& c.observed_time@ == pick.time@
    &&& c.sigma_seconds == o.sigma_seconds
    &&& c.confidence == o.confidence
    &&& c.locked == locked(context, o)
}

/// What is reported of an arrival that was used: when it was predicted by the
/// clock of its station, and how far off that is.
pub open spec fn used(
    context: SolveContext,
    o: PickObservation,
    prediction: int,
    contribution: int,
    c: CandidatePick,
) -> bool {
    let pick = context.picks@[o.pick_index as int];
    let bias = bias_at(context.segments@, pick.station_id@, o.observed_epoch as int);
    &&& reports(context, o, c)
    &&& written(millis(prediction + bias), c.predicted_time@)
    &&& c.residual_seconds == Some((millis(o.observed_epoch - prediction) * 1_000_000) as i128)
    &&& c.contribution == Some((millis(contribution) * 1_000_000) as i128)
    &&& c.accepted
    &&& c.reason is None
}

/// What is reported of an arrival that was not used.
pub open spec fn unused(context: SolveContext, l: (PickObservation, Seq<char>), c: CandidatePick) -> bool {
    &&& reports(context, l.0, c)
    &&& c.predicted_time@ == "not_estimated"@
    &&& c.residual_seconds is None
    &&& c.contribution is None
    &&& !c.accepted
    &&& match c.reason {
        Some(reason) => reason@ == l.1,
        None => false,
    }
}

/// Reports an arrival that was used.
pub fn make_candidate_pick(
    context: &SolveContext,
    o: &PickObservation,
    prediction: i128,
    contribution: i128,
) -> (r: CandidatePick)
    requires
        o.pick_index < context.picks@.len(),
        corrected(o.observed_epoch as int),
        corrected(prediction as int),
        measured(contribution as int),
    ensures
        used(*context, *o, prediction as int, contribution as int, r),
{
    let pick = &context.picks[o.pick_index];
    let bias: i64 = station_bias(
        &context.segments,
        pick.station_id.as_str(),
        o.observed_epoch,
    );
    CandidatePick {
        pick_id: pick.pick_id.clone(),
        station_id: pick.station_id.clone(),
        phase: pick.phase,
        observed_time: pick.time.clone(),
        predicted_time: format_epoch(prediction + bias as i128),
        residual_seconds: Some(round_milli(o.observed_epoch - prediction)),
        sigma_seconds: o.sigma_seconds,
        confidence: o.confidence,
        contribution: Some(round_milli(contribution)),
        locked: pick.status == PickStatus::Locked,
        accepted: true,
        reason: None,
    }
}

/// Reports an arrival that was not used.
pub fn empty_pick(context: &SolveContext, l: &LeftPick) -> (r: CandidatePick)
    requires
        l.observation.pick_index < context.picks@.len(),
    ensures
        unused(*context, left(*l), r),
{
    let o = &l.observation;
    let pick = &context.picks[o.pick_index];
    CandidatePick {
        pick_id: pick.pick_id.clone(),
        station_id: pick.station_id.clone(),
        phase: pick.phase,
        observed_time: pick.time.clone(),
        predicted_time: "not_estimated".to_owned(),
        residual_seconds: None,
        sigma_seconds: o.sigma_seconds,
        confidence: o.confidence,
        contribution: None,
        locked: pick.status == PickStatus::Locked,
        accepted: false,
        reason: Some(l.reason.clone()),
    }
}

/// What is reported of the arrivals that were not used, in their order.
pub open spec fn all_unused(
    context: SolveContext,
    left: Seq<(PickObservation, Seq<char>)>,
    v: Seq<CandidatePick>,
) -> bool {
    &&& v.len() == left.len()
    &&& forall|i: int| 0 <= i < v.len() ==> unused(context, left[i], #[trigger] v[i])
}

/// Reports the arrivals that were not used.
pub fn build_rejected(context: &SolveContext, rejected: &Vec<LeftPick>) -> (r: Vec<CandidatePick>)
    requires
        forall|i: int|
            0 <= i < rejected@.len() ==> (#[trigger] rejected@[i]).observation.pick_index
                < context.picks@.len(),
    ensures
        all_unused(*context, all_left(rejected@), r@),
{
    let mut r: Vec<CandidatePick> = Vec::new();
    let mut i: usize = 0;
    while i < rejected.len()
        invariant
            i <= rejected@.len(),
            forall|j: int|
                0 <= j < rejected@.len() ==> (#[trigger] rejected@[j]).observation.pick_index
                    < context.picks@.len(),
            r@.len() == i,
            forall|j: int|
                0 <= j < i ==> unused(*context, all_left(rejected@)[j], #[trigger] r@[j]),
        decreases rejected@.len() - i,
    {
        assert(rejected@[i as int].observation.pick_index < context.picks@.len());
        r.push(empty_pick(context, &rejected[i]));
        i += 1;
    }
    r
}

impl Ranked for CandidatePick {
    open spec fn comes_first(a: Self, b: Self) -> bool {
        text_le(a.pick_id@, b.pick_id@)
    }

    proof fn total(a: Self, b: Self) {
        text_le_total(a.pick_id@, b.pick_id@);
    }

    proof fn transitive(a: Self, b: Self, c: Self) {
        text_le_transitive(a.pick_id@, b.pick_id@, c.pick_id@);
    }

    fn first(a: &Self, b: &Self) -> (r: bool) {
        le(a.pick_id.as_str(), b.pick_id.as_str())
    }
}

/// What is reported of the arrivals that were used, in their order.
pub open spec fn all_used(
    context: SolveContext,
    obs: Seq<PickObservation>,
    predictions: Seq<i128>,
    contributions: Seq<i128>,
    v: Seq<CandidatePick>,
) -> bool {
    &&& v.len() == obs.len()
    &&& forall|i: int|
        0 <= i < v.len() ==> used(
            context,
            obs[i],
            predictions[i] as int,
            contributions[i] as int,
            #[trigger] v[i],
        )
}

/// Reports the arrivals that were used, in the order of their ids.
pub fn build_accepted(
    context: &SolveContext,
    obs: &Vec<PickObservation>,
    predictions: &Vec<i128>,
    contributions: &Vec<i128>,
) -> (r: Vec<CandidatePick>)
    requires
        observations_wf(*context, obs@),
        predictions@.len() == obs@.len(),
        contributions@.len() == obs@.len(),
        forall|i: int| 0 <= i < predictions@.len() ==> corrected((#[trigger] predictions@[i]) as int),
        forall|i: int| 0 <= i < contributions@.len() ==> measured((#[trigger] contributions@[i]) as int),
    ensures
        exists|v: Seq<CandidatePick>|
            all_used(*context, obs@, predictions@, contributions@, v) && r@ == #[trigger] sorted(v),
{
    let mut v: Vec<CandidatePick> = Vec::new();
    let mut i: usize = 0;
    while i < obs.len()
        invariant
            i <= obs@.len(),
            observations_wf(*context, obs@),
            predictions@.len() == obs@.len(),
            contributions@.len() == obs@.len(),
            forall|j: int|
                0 <= j < predictions@.len() ==> corrected((#[trigger] predictions@[j]) as int),
            forall|j: int|
                0 <= j < contributions@.len() ==> measured((#[trigger] contributions@[j]) as int),
            v@.len() == i,
            forall|j: int|
                0 <= j < i ==> used(
                    *context,
                    obs@[j],
                    predictions@[j] as int,
                    contributions@[j] as int,
                    #[trigger] v@[j],
                ),
        decreases obs@.len() - i,
    {
        assert(obs@[i as int].pick_index < context.picks@.len());
        assert(corrected(predictions@[i as int] as int));
        assert(measured(contributions@[i as int] as int));
        v.push(make_candidate_pick(context, &obs[i], predictions[i], contributions[i]));
        i += 1;
    }
    assert(all_used(*context, obs@, predictions@, contributions@, v@));
    sort(v)
}

} // verus!
