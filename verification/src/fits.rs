//! Judging the fits of one event, ranking them, and laying out what is known
//! of the event.
//!
//! The magnitudes that are tested against a limit (residuals, deviations,
//! correlations, gaps) are billionths rounded away from zero, so that a test
//! against a limit that is a whole number of billionths keeps its outcome.
use vstd::prelude::*;

use crate::decimal::{
    decimal, decimal_text, hundredths, hundredths_text, magnitude, size, tenths, tenths_text,
};
use crate::locator::{
    observed_stations, phase_counts, phase_counts_of, station_list, PhaseCount,
};
use crate::model::{Phase, UNIT};
use crate::order::{distinct, names, sort, sorted, Ranked};
use crate::solver_types::{
    reject, rejection, rejections, EventWindow, Observation, RejectedPick, Rejection,
};
use crate::text::{
    concat2, concat3, le, same, text_le, text_le_total, text_le_transitive, views,
};

verus! {

/// The residual within which a pick supports a fit.
pub const RESIDUAL_SOFT: u64 = 2_000_000_001;

/// The residual beyond which a fit contradicts a pick.
pub const RESIDUAL_HARD: u64 = 4_000_000_000;

/// How many candidates an event has.
pub const CANDIDATES: usize = 3;

/// One standard deviation of each coordinate of the source, in billionths.
#[derive(Debug, Clone, Copy)]
pub struct SourceSigma {
    pub x_m: u64,
    pub y_m: u64,
    pub depth_m: u64,
    pub origin_time_s: u64,
}

/// What is known of the covariance of a fit. The condition number is rounded
/// up to a whole number. The correlations are those of the origin time with
/// the clock biases, in billionths, in the order of the parameters.
#[derive(Debug, Clone)]
pub struct CovarianceSummary {
    pub positive_definite: bool,
    pub rank: usize,
    pub condition_number: Option<u64>,
    pub source_sigma: SourceSigma,
    pub correlations: Vec<u64>,
    pub parameter_names: Vec<String>,
}

impl CovarianceSummary {
    /// There is a correlation for each bias, which come behind the first four
    /// parameters.
    pub open spec fn wf(&self) -> bool {
        self.correlations@.len() == 0 || self.correlations@.len() + 4
            <= self.parameter_names@.len()
    }
}

/// The clock bias of a station.
#[derive(Debug, Clone)]
pub struct StationBias {
    pub station_id: String,
    pub bias_s: i64,
}

/// What one fit makes of one observation.
#[derive(Debug, Clone)]
pub struct PickAssignment {
    pub observation_id: String,
    pub station_id: String,
    pub phase: Phase,
    pub corrected_time: i64,
    pub residual_s: Option<i64>,
    pub uncertainty_s: i64,
    pub confidence: i64,
    pub weight: u64,
    pub locked: bool,
    pub source: String,
}

/// A fit of an event. Its number tells it from the other fits; score, misfit
/// and source are given by keys that order as they do.
#[derive(Debug, Clone)]
pub struct Fit {
    pub number: usize,
    pub score: i64,
    pub rms: i64,
    pub x: i64,
    pub y: i64,
    pub depth: i64,
    pub origin_time: i64,
    pub azimuthal_gap: u64,
    pub biases: Vec<StationBias>,
    pub covariance: CovarianceSummary,
    pub assignments: Vec<PickAssignment>,
}

/// What a fit is worth.
#[derive(Debug, Clone, Copy, PartialEq, Eq, Structural)]
pub enum Status {
    Located,
    Degraded,
    Underdetermined,
    Contradiction,
}

/// The rank of a status, from the best.
pub open spec fn status_rank(s: Status) -> int {
    match s {
        Status::Located => 0,
        Status::Degraded => 1,
        Status::Underdetermined => 2,
        Status::Contradiction => 3,
    }
}

/// The word for a status.
pub open spec fn status_word(s: Status) -> Seq<char> {
    match s {
        Status::Located => "located"@,
        Status::Degraded => "degraded"@,
        Status::Underdetermined => "underdetermined"@,
        Status::Contradiction => "contradiction"@,
    }
}

/// The rank of a status, from the best.
pub fn status_order(s: Status) -> (r: u8)
    ensures
        r == status_rank(s),
{
    match s {
        Status::Located => 0,
        Status::Degraded => 1,
        Status::Underdetermined => 2,
        Status::Contradiction => 3,
    }
}

/// The word for a status.
pub fn status_text(s: Status) -> (r: &'static str)
    ensures
        r@ == status_word(s),
{
    match s {
        Status::Located => "located",
        Status::Degraded => "degraded",
        Status::Underdetermined => "underdetermined",
        Status::Contradiction => "contradiction",
    }
}

/// The size of an assignment's residual; none counts as zero.
pub open spec fn residual_size(a: PickAssignment) -> nat {
    match a.residual_s {
        Some(r) => size(r as int),
        None => 0,
    }
}

/// The size of an assignment's residual.
fn residual_of(a: &PickAssignment) -> (r: u64)
    ensures
        r == residual_size(*a),
{
    match a.residual_s {
        Some(v) => magnitude(v),
        None => 0,
    }
}

/// Whether an observation supports a fit that leaves it a residual.
pub open spec fn supports(locked: bool, residual: int) -> bool {
    locked || size(residual) <= RESIDUAL_SOFT
}

/// Whether an observation supports a fit that leaves it a residual.
pub fn supports_fit(locked: bool, residual: i64) -> (r: bool)
    ensures
        r == supports(locked, residual as int),
{
    locked || magnitude(residual) <= RESIDUAL_SOFT
}

/// Whether an assignment supports its fit.
pub open spec fn supporting(a: PickAssignment) -> bool {
    a.locked || residual_size(a) <= RESIDUAL_SOFT
}

/// How many assignments support their fit.
pub open spec fn support_count(v: Seq<PickAssignment>) -> nat
    decreases v.len(),
{
    if v.len() == 0 {
        0
    } else {
        support_count(v.drop_last()) + if supporting(v.last()) {
            1nat
        } else {
            0nat
        }
    }
}

/// What the correlations of the first `n` biases give cause to say.
pub open spec fn correlation_notes(c: CovarianceSummary, n: int) -> Seq<Seq<char>>
    decreases n,
{
    if n <= 0 {
        Seq::empty()
    } else {
        let before = correlation_notes(c, n - 1);
        if c.correlations@[n - 1] > 990_000_000 {
            before.push(
                "origin time is nearly indistinguishable from "@ + c.parameter_names@[n + 3]@,
            )
        } else {
            before
        }
    }
}

/// One note where it is due.
pub open spec fn note(due: bool, text: Seq<char>) -> Seq<Seq<char>> {
    if due {
        seq![text]
    } else {
        Seq::empty()
    }
}

/// Whether the observations do not tell all parameters apart.
pub open spec fn rank_deficient(c: CovarianceSummary) -> bool {
    c.rank + 1 < c.parameter_names@.len()
}

/// Whether the condition number is too high.
pub open spec fn ill_conditioned(c: CovarianceSummary) -> bool {
    match c.condition_number {
        Some(n) => n > 10_000_000_000,
        None => false,
    }
}

/// What a covariance gives cause to say.
pub open spec fn covariance_notes(c: CovarianceSummary) -> Seq<Seq<char>> {
    note(!c.positive_definite, "posterior covariance is not positive definite"@) + note(
        rank_deficient(c),
        "weighted Jacobian rank "@ + decimal(c.rank as nat) + " is below parameter count "@
            + decimal(c.parameter_names@.len()),
    ) + note(ill_conditioned(c), "covariance condition number exceeds 1e10"@) + correlation_notes(
        c,
        c.correlations@.len() as int,
    )
}

/// What the residuals of some assignments give cause to say.
pub open spec fn residual_notes(v: Seq<PickAssignment>) -> Seq<Seq<char>>
    decreases v.len(),
{
    if v.len() == 0 {
        Seq::empty()
    } else {
        let before = residual_notes(v.drop_last());
        let a = v.last();
        if residual_size(a) > RESIDUAL_HARD && !a.locked {
            before.push(
                a.observation_id@ + " has a "@ + hundredths(residual_size(a))
                    + " s rejected residual"@,
            )
        } else {
            before
        }
    }
}

/// All that a fit gives cause to say.
pub open spec fn fit_notes(f: Fit) -> Seq<Seq<char>> {
    covariance_notes(f.covariance) + residual_notes(f.assignments@) + note(
        support_count(f.assignments@) < 2,
        "fewer than two picks support this candidate"@,
    ) + note(
        f.azimuthal_gap > 180 * UNIT,
        "azimuthal gap "@ + tenths(f.azimuthal_gap as nat) + "\u{b0} exceeds 180\u{b0}"@,
    )
}

/// Adds a note where it is due.
fn add_note(notes: &mut Vec<String>, due: bool, text: String)
    ensures
        views(final(notes)@) == views(old(notes)@) + note(due, text@),
{
    let ghost before = notes@;
    if due {
        notes.push(text);
    }
    assert(views(notes@) =~= views(before) + note(due, text@));
}

/// What a covariance gives cause to say.
pub fn covariance_warnings(c: &CovarianceSummary) -> (r: Vec<String>)
    requires
        c.wf(),
    ensures
        views(r@) == covariance_notes(*c),
{
    let mut r: Vec<String> = Vec::new();
    let ghost none = views(r@);
    assert(none =~= Seq::<Seq<char>>::empty());
    add_note(
        &mut r,
        !c.positive_definite,
        "posterior covariance is not positive definite".to_owned(),
    );
    let count: usize = c.parameter_names.len();
    let start = concat2("weighted Jacobian rank ", decimal_text(c.rank as u64).as_str());
    add_note(
        &mut r,
        c.rank < count && c.rank + 1 < count,
        concat3(
            start.as_str(),
            " is below parameter count ",
            decimal_text(count as u64).as_str(),
        ),
    );
    let high = match c.condition_number {
        Some(n) => n > 10_000_000_000,
        None => false,
    };
    add_note(&mut r, high, "covariance condition number exceeds 1e10".to_owned());
    let ghost head = views(r@);
    let n: usize = c.correlations.len();
    let mut i: usize = 0;
    assert(head + Seq::<Seq<char>>::empty() =~= head);
    while i < n
        invariant
            i <= n,
            n == c.correlations@.len(),
            count == c.parameter_names@.len(),
            c.wf(),
            views(r@) == head + correlation_notes(*c, i as int),
        decreases n - i,
    {
        let ghost before = views(r@);
        let close = c.correlations[i] > 990_000_000;
        add_note(
            &mut r,
            close,
            concat2(
                "origin time is nearly indistinguishable from ",
                c.parameter_names[i + 4].as_str(),
            ),
        );
        assert(views(r@) =~= head + correlation_notes(*c, i + 1));
        i += 1;
    }
    assert(views(r@) =~= covariance_notes(*c));
    r
}

/// What the residuals give cause to say, behind what was said before; and how
/// many assignments support the fit.
fn residual_warnings(assignments: &Vec<PickAssignment>, notes: &mut Vec<String>) -> (r: usize)
    ensures
        r == support_count(assignments@),
        views(final(notes)@) == views(old(notes)@) + residual_notes(assignments@),
{
    let ghost head = views(notes@);
    let n: usize = assignments.len();
    let mut supported: usize = 0;
    let mut i: usize = 0;
    assert(assignments@.take(0) =~= Seq::<PickAssignment>::empty());
    assert(head + Seq::<Seq<char>>::empty() =~= head);
    while i < n
        invariant
            i <= n,
            n == assignments@.len(),
            supported <= i,
            supported == support_count(assignments@.take(i as int)),
            views(notes@) == head + residual_notes(assignments@.take(i as int)),
        decreases n - i,
    {
        let a = &assignments[i];
        assert(assignments@.take(i + 1).drop_last() =~= assignments@.take(i as int));
        let residual: u64 = residual_of(a);
        if a.locked || residual <= RESIDUAL_SOFT {
            supported += 1;
        }
        let start = concat3(
            a.observation_id.as_str(),
            " has a ",
            hundredths_text(residual).as_str(),
        );
        add_note(
            notes,
            residual > RESIDUAL_HARD && !a.locked,
            concat2(start.as_str(), " s rejected residual"),
        );
        assert(views(notes@) =~= head + residual_notes(assignments@.take(i + 1)));
        i += 1;
    }
    assert(assignments@.take(i as int) =~= assignments@);
    supported
}

/// The warnings of a fit, each once, in rising order.
pub fn fit_warnings(f: &Fit) -> (r: Vec<String>)
    requires
        f.covariance.wf(),
    ensures
        views(r@) == names(fit_notes(*f)),
{
    let mut all = covariance_warnings(&f.covariance);
    let supported: usize = residual_warnings(&f.assignments, &mut all);
    add_note(
        &mut all,
        supported < 2,
        "fewer than two picks support this candidate".to_owned(),
    );
    add_note(
        &mut all,
        f.azimuthal_gap > 180_000_000_000,
        concat3(
            "azimuthal gap ",
            tenths_text(f.azimuthal_gap).as_str(),
            "\u{b0} exceeds 180\u{b0}",
        ),
    );
    assert(views(all@) =~= fit_notes(*f));
    distinct(&all)
}

/// Whether an assignment contradicts its fit.
pub open spec fn contradicts(a: PickAssignment) -> bool {
    residual_size(a) > RESIDUAL_HARD
}

/// The stations of some assignments.
pub open spec fn assigned_stations(v: Seq<PickAssignment>) -> Seq<Seq<char>> {
    v.map_values(|a: PickAssignment| a.station_id@)
}

/// The stations of those assignments that weigh in.
pub open spec fn weighted_stations(v: Seq<PickAssignment>) -> Seq<Seq<char>>
    decreases v.len(),
{
    if v.len() == 0 {
        Seq::empty()
    } else {
        let before = weighted_stations(v.drop_last());
        if v.last().weight > 0 {
            before.push(v.last().station_id@)
        } else {
            before
        }
    }
}

/// Whether a locked observation contradicts a fit.
pub open spec fn hard_locked(v: Seq<PickAssignment>) -> bool {
    exists|i: int| 0 <= i < v.len() && (#[trigger] v[i]).locked && contradicts(v[i])
}

/// Whether an observation that is not locked contradicts a fit.
pub open spec fn unsupported(v: Seq<PickAssignment>) -> bool {
    exists|i: int| 0 <= i < v.len() && !(#[trigger] v[i]).locked && contradicts(v[i])
}

/// Whether a coordinate of the source is known too loosely.
pub open spec fn weak_sigma(s: SourceSigma) -> bool {
    s.x_m > 10_000 * UNIT || s.y_m > 10_000 * UNIT || s.depth_m > 15_000 * UNIT || s.origin_time_s
        > UNIT
}

/// What a fit is worth.
pub open spec fn fit_status(f: Fit) -> Status {
    let v = f.assignments@;
    let c = f.covariance;
    if hard_locked(v) || names(weighted_stations(v)).len() < 2 {
        Status::Contradiction
    } else if names(assigned_stations(v)).len() < 3 || c.rank < 6 || !c.positive_definite {
        Status::Underdetermined
    } else if ill_conditioned(c) || weak_sigma(c.source_sigma) || f.azimuthal_gap > 180 * UNIT
        || unsupported(v) || rank_deficient(c) {
        Status::Degraded
    } else {
        Status::Located
    }
}

/// How many stations weigh in, how many there are, and whether a locked and a
/// free observation contradict the fit.
fn tally(v: &Vec<PickAssignment>) -> (r: (usize, usize, bool, bool))
    ensures
        r.0 == names(weighted_stations(v@)).len(),
        r.1 == names(assigned_stations(v@)).len(),
        r.2 == hard_locked(v@),
        r.3 == unsupported(v@),
{
    let mut weighted: Vec<String> = Vec::new();
    let mut all: Vec<String> = Vec::new();
    let mut hard = false;
    let mut loose = false;
    let mut i: usize = 0;
    assert(v@.take(0) =~= Seq::<PickAssignment>::empty());
    assert(views(weighted@) =~= Seq::<Seq<char>>::empty());
    assert(views(all@) =~= assigned_stations(v@.take(0)));
    while i < v.len()
        invariant
            i <= v@.len(),
            views(weighted@) == weighted_stations(v@.take(i as int)),
            views(all@) == assigned_stations(v@.take(i as int)),
            hard == hard_locked(v@.take(i as int)),
            loose == unsupported(v@.take(i as int)),
        decreases v@.len() - i,
    {
        let a = &v[i];
        let ghost t = v@.take(i + 1);
        let ghost before = weighted@;
        let ghost seen = all@;
        assert(t.drop_last() =~= v@.take(i as int));
        let bad = residual_of(a) > RESIDUAL_HARD;
        proof {
            let u = v@.take(i as int);
            assert(t[i as int] == *a);
            assert forall|j: int| 0 <= j < i implies t[j] == u[j] by {}
            if hard_locked(u) {
                let j = choose|j: int| 0 <= j < u.len() && (#[trigger] u[j]).locked && contradicts(u[j]);
                assert(t[j].locked && contradicts(t[j]));
            }
            if unsupported(u) {
                let j = choose|j: int| 0 <= j < u.len() && !(#[trigger] u[j]).locked && contradicts(u[j]);
                assert(!t[j].locked && contradicts(t[j]));
            }
            if hard_locked(t) {
                let j = choose|j: int| 0 <= j < t.len() && (#[trigger] t[j]).locked && contradicts(t[j]);
                if j < i {
                    assert(u[j].locked && contradicts(u[j]));
                }
            }
            if unsupported(t) {
                let j = choose|j: int| 0 <= j < t.len() && !(#[trigger] t[j]).locked && contradicts(t[j]);
                if j < i {
                    assert(!u[j].locked && contradicts(u[j]));
                }
            }
        }
        if bad {
            if a.locked {
                hard = true;
            } else {
                loose = true;
            }
        }
        if a.weight > 0 {
            weighted.push(a.station_id.clone());
            assert(views(weighted@) =~= views(before).push(a.station_id@));
        }
        all.push(a.station_id.clone());
        assert(views(all@) =~= views(seen).push(a.station_id@));
        assert(assigned_stations(t) =~= assigned_stations(v@.take(i as int)).push(a.station_id@));
        i += 1;
    }
    assert(v@.take(i as int) =~= v@);
    let some = distinct(&weighted);
    let every = distinct(&all);
    proof {
        assert(views(some@).len() == some@.len());
        assert(views(every@).len() == every@.len());
    }
    (some.len(), every.len(), hard, loose)
}

/// Judges a fit.
pub fn candidate_status(f: &Fit) -> (r: Status)
    ensures
        r == fit_status(*f),
{
    let (weighted, stations, hard, loose) = tally(&f.assignments);
    let c = &f.covariance;
    let s = &c.source_sigma;
    let high = match c.condition_number {
        Some(n) => n > 10_000_000_000,
        None => false,
    };
    let count: usize = c.parameter_names.len();
    if hard || weighted < 2 {
        Status::Contradiction
    } else if stations < 3 || c.rank < 6 || !c.positive_definite {
        Status::Underdetermined
    } else if high || s.x_m > 10_000_000_000_000 || s.y_m > 10_000_000_000_000 || s.depth_m
        > 15_000_000_000_000 || s.origin_time_s > 1_000_000_000 || f.azimuthal_gap
        > 180_000_000_000 || loose || (c.rank < count && c.rank + 1 < count) {
        Status::Degraded
    } else {
        Status::Located
    }
}

/// Whether a fit is as good as another or better: by status, then by a higher
/// score, a lower misfit, and the source.
pub open spec fn better(a: Fit, b: Fit) -> bool {
    let s = status_rank(fit_status(a));
    let t = status_rank(fit_status(b));
    s < t || (s == t && (a.score > b.score || (a.score == b.score && (a.rms < b.rms || (a.rms
        == b.rms && (a.x < b.x || (a.x == b.x && (a.y < b.y || (a.y == b.y && (a.depth < b.depth
        || (a.depth == b.depth && a.origin_time <= b.origin_time)))))))))))
}

impl Ranked for Fit {
    open spec fn comes_first(a: Self, b: Self) -> bool {
        better(a, b)
    }

    proof fn total(a: Self, b: Self) {
    }

    proof fn transitive(a: Self, b: Self, c: Self) {
    }

    fn first(a: &Self, b: &Self) -> (r: bool) {
        let s: u8 = status_order(candidate_status(a));
        let t: u8 = status_order(candidate_status(b));
        s < t || (s == t && (a.score > b.score || (a.score == b.score && (a.rms < b.rms || (a.rms
            == b.rms && (a.x < b.x || (a.x == b.x && (a.y < b.y || (a.y == b.y && (a.depth
            < b.depth || (a.depth == b.depth && a.origin_time <= b.origin_time)))))))))))
    }
}

/// Located fits come before all others, and fits of one status by score.
pub proof fn better_means(a: Fit, b: Fit)
    ensures
        fit_status(a) == Status::Located && fit_status(b) != Status::Located ==> better(a, b)
            && !better(b, a),
        fit_status(a) == Status::Contradiction && better(a, b) ==> fit_status(b)
            == Status::Contradiction,
        fit_status(a) == fit_status(b) && a.score > b.score ==> better(a, b) && !better(b, a),
{
}

impl Ranked for PickAssignment {
    open spec fn comes_first(a: Self, b: Self) -> bool {
        text_le(a.observation_id@, b.observation_id@)
    }

    proof fn total(a: Self, b: Self) {
        text_le_total(a.observation_id@, b.observation_id@);
    }

    proof fn transitive(a: Self, b: Self, c: Self) {
        text_le_transitive(a.observation_id@, b.observation_id@, c.observation_id@);
    }

    fn first(a: &Self, b: &Self) -> (r: bool) {
        le(a.observation_id.as_str(), b.observation_id.as_str())
    }
}

/// What a fit predicts for an observation: the residual that it leaves, and
/// the weight of the observation in it.
#[derive(Debug, Clone, Copy)]
pub struct Prediction {
    pub residual_s: i64,
    pub weight: u64,
}

/// An observation, with what a fit makes of it.
pub open spec fn assigned(
    a: PickAssignment,
    o: Observation,
    residual: Option<i64>,
    weight: u64,
) -> bool {
    &&& a.observation_id@ == o.pick.id@
    &&& a.station_id@ == o.pick.station_id@
    &&& a.phase == o.pick.phase
    &&& a.corrected_time == o.pick.corrected_time
    &&& a.residual_s == residual
    &&& a.uncertainty_s == o.pick.uncertainty_s
    &&& a.confidence == o.pick.confidence
    &&& a.weight == weight
    &&& a.locked == o.locked
    &&& a.source@ == o.pick.source@
}

/// An observation, with what a fit makes of it.
fn assign(o: &Observation, residual: Option<i64>, weight: u64) -> (r: PickAssignment)
    ensures
        assigned(r, *o, residual, weight),
{
    PickAssignment {
        observation_id: o.pick.id.clone(),
        station_id: o.pick.station_id.clone(),
        phase: o.pick.phase,
        corrected_time: o.pick.corrected_time,
        residual_s: residual,
        uncertainty_s: o.pick.uncertainty_s,
        confidence: o.pick.confidence,
        weight,
        locked: o.locked,
        source: o.pick.source.clone(),
    }
}

/// The weight of an observation that leaves a residual: none unless it
/// supports the fit.
pub open spec fn weight_of(o: Observation, p: Prediction) -> u64 {
    if supports(o.locked, p.residual_s as int) {
        p.weight
    } else {
        0
    }
}

/// Pairs the observations with what a fit predicts for them. An observation
/// that does not support the fit has no weight in it.
pub fn assign_all(observations: &Vec<Observation>, predictions: &Vec<Prediction>) -> (r: Vec<
    PickAssignment,
>)
    requires
        observations@.len() == predictions@.len(),
    ensures
        r@.len() == observations@.len(),
        forall|i: int|
            0 <= i < r@.len() ==> assigned(
                #[trigger] r@[i],
                observations@[i],
                Some(predictions@[i].residual_s),
                weight_of(observations@[i], predictions@[i]),
            ),
{
    let mut r: Vec<PickAssignment> = Vec::new();
    let mut i: usize = 0;
    while i < observations.len()
        invariant
            i <= observations@.len(),
            observations@.len() == predictions@.len(),
            r@.len() == i,
            forall|j: int|
                0 <= j < i ==> assigned(
                    #[trigger] r@[j],
                    observations@[j],
                    Some(predictions@[j].residual_s),
                    weight_of(observations@[j], predictions@[j]),
                ),
        decreases observations@.len() - i,
    {
        let p: Prediction = predictions[i];
        let o = &observations[i];
        let weight: u64 = if supports_fit(o.locked, p.residual_s) {
            p.weight
        } else {
            0
        };
        r.push(assign(o, Some(p.residual_s), weight));
        i += 1;
    }
    r
}

/// Where a fit puts an event, and how sure that is: a fit but for what it makes
/// of the observations.
#[derive(Debug, Clone)]
pub struct Location {
    pub number: usize,
    pub score: i64,
    pub rms: i64,
    pub x: i64,
    pub y: i64,
    pub depth: i64,
    pub origin_time: i64,
    pub azimuthal_gap: u64,
    pub biases: Vec<StationBias>,
    pub covariance: CovarianceSummary,
}

/// Whether a fit is about some observations: it lists each of them, in order.
pub open spec fn fit_over(observations: Seq<Observation>, f: Fit) -> bool {
    &&& f.assignments@.len() == observations.len()
    &&& forall|i: int|
        0 <= i < observations.len() ==> (#[trigger] f.assignments@[i]).residual_s is Some
            && assigned(
            f.assignments@[i],
            observations[i],
            f.assignments@[i].residual_s,
            f.assignments@[i].weight,
        )
}

/// A fit of some observations, given where it puts the event and what it
/// predicts for each of them.
pub fn make_fit(
    observations: &Vec<Observation>,
    predictions: &Vec<Prediction>,
    location: Location,
) -> (r: Fit)
    requires
        observations@.len() == predictions@.len(),
    ensures
        r.number == location.number,
        r.score == location.score,
        r.rms == location.rms,
        r.x == location.x,
        r.y == location.y,
        r.depth == location.depth,
        r.origin_time == location.origin_time,
        r.azimuthal_gap == location.azimuthal_gap,
        r.biases == location.biases,
        r.covariance == location.covariance,
        r.assignments@.len() == observations@.len(),
        forall|i: int|
            0 <= i < observations@.len() ==> assigned(
                #[trigger] r.assignments@[i],
                observations@[i],
                Some(predictions@[i].residual_s),
                weight_of(observations@[i], predictions@[i]),
            ),
        fit_over(observations@, r),
{
    let assignments = assign_all(observations, predictions);
    Fit {
        number: location.number,
        score: location.score,
        rms: location.rms,
        x: location.x,
        y: location.y,
        depth: location.depth,
        origin_time: location.origin_time,
        azimuthal_gap: location.azimuthal_gap,
        biases: location.biases,
        covariance: location.covariance,
        assignments,
    }
}

/// One of the places where an event may be. A candidate without a fit has no
/// coordinates.
#[derive(Debug, Clone)]
pub struct CandidateResult {
    pub rank: usize,
    pub status: Status,
    pub fit: Option<usize>,
    pub station_bias: Vec<StationBias>,
    pub covariance: CovarianceSummary,
    pub warnings: Vec<String>,
    pub assignments: Vec<PickAssignment>,
}

/// The covariance of a candidate that has no fit: of the origin time alone,
/// by one second.
pub open spec fn bare_covariance(c: CovarianceSummary) -> bool {
    &&& c.positive_definite
    &&& c.rank == 0
    &&& c.condition_number == Some(1u64)
    &&& c.source_sigma == (SourceSigma { x_m: 0, y_m: 0, depth_m: 0, origin_time_s: UNIT as u64 })
    &&& c.correlations@ == Seq::<u64>::empty()
    &&& views(c.parameter_names@) == seq!["origin_time"@]
}

/// Biases of zero for some stations.
pub open spec fn zero_biases(v: Seq<StationBias>, stations: Seq<Seq<char>>) -> bool {
    &&& v.len() == stations.len()
    &&& forall|i: int|
        0 <= i < v.len() ==> (#[trigger] v[i]).station_id@ == stations[i] && v[i].bias_s == 0
}

/// A candidate that the observations do not determine, for a reason.
pub open spec fn bare_candidate(
    c: CandidateResult,
    observations: Seq<Observation>,
    reason: Seq<char>,
) -> bool {
    &&& c.status == Status::Underdetermined
    &&& c.fit is None
    &&& zero_biases(c.station_bias@, names(observed_stations(observations)))
    &&& bare_covariance(c.covariance)
    &&& views(c.warnings@) == seq![reason]
    &&& c.assignments@.len() == observations.len()
    &&& forall|i: int|
        0 <= i < observations.len() ==> assigned(
            #[trigger] c.assignments@[i],
            observations[i],
            None,
            0,
        )
}

/// A candidate that a fit gives.
pub open spec fn fitted_candidate(c: CandidateResult, f: Fit) -> bool {
    &&& c.status == fit_status(f)
    &&& c.fit == Some(f.number)
    &&& c.station_bias == f.biases
    &&& c.covariance == f.covariance
    &&& views(c.warnings@) == names(fit_notes(f))
    &&& c.assignments@ == sorted(f.assignments@)
}

/// A candidate that the observations do not determine, for a reason.
pub fn underdetermined_candidate(
    rank: usize,
    observations: &Vec<Observation>,
    reason: &str,
) -> (r: CandidateResult)
    ensures
        r.rank == rank,
        bare_candidate(r, observations@, reason@),
{
    let stations = station_list(observations);
    let mut station_bias: Vec<StationBias> = Vec::new();
    let mut i: usize = 0;
    while i < stations.len()
        invariant
            i <= stations@.len(),
            station_bias@.len() == i,
            forall|j: int|
                0 <= j < i ==> (#[trigger] station_bias@[j]).station_id@ == stations@[j]@
                    && station_bias@[j].bias_s == 0,
        decreases stations@.len() - i,
    {
        station_bias.push(StationBias { station_id: stations[i].clone(), bias_s: 0 });
        i += 1;
    }
    let mut parameter_names: Vec<String> = Vec::new();
    parameter_names.push("origin_time".to_owned());
    assert(views(parameter_names@) =~= seq!["origin_time"@]);
    let mut warnings: Vec<String> = Vec::new();
    warnings.push(reason.to_owned());
    assert(views(warnings@) =~= seq![reason@]);
    let mut assignments: Vec<PickAssignment> = Vec::new();
    let mut k: usize = 0;
    while k < observations.len()
        invariant
            k <= observations@.len(),
            assignments@.len() == k,
            forall|j: int|
                0 <= j < k ==> assigned(#[trigger] assignments@[j], observations@[j], None, 0),
        decreases observations@.len() - k,
    {
        assignments.push(assign(&observations[k], None, 0));
        k += 1;
    }
    proof {
        assert(views(stations@) == names(observed_stations(observations@)));
        assert(forall|j: int| 0 <= j < stations@.len() ==> views(stations@)[j] == stations@[j]@);
    }
    CandidateResult {
        rank,
        status: Status::Underdetermined,
        fit: None,
        station_bias,
        covariance: CovarianceSummary {
            positive_definite: true,
            rank: 0,
            condition_number: Some(1),
            source_sigma: SourceSigma { x_m: 0, y_m: 0, depth_m: 0, origin_time_s: 1_000_000_000 },
            correlations: Vec::new(),
            parameter_names,
        },
        warnings,
        assignments,
    }
}

/// The candidate that a fit gives.
pub fn candidate_from_fit(f: Fit, rank: usize) -> (r: CandidateResult)
    requires
        f.covariance.wf(),
    ensures
        r.rank == rank,
        fitted_candidate(r, f),
{
    let status = candidate_status(&f);
    let warnings = fit_warnings(&f);
    CandidateResult {
        rank,
        status,
        fit: Some(f.number),
        station_bias: f.biases,
        covariance: f.covariance,
        warnings,
        assignments: sort(f.assignments),
    }
}

/// Why a window with some observations at some stations is not fitted, if it
/// is not.
pub open spec fn hold(picks: nat, stations: nat) -> Option<Seq<char>> {
    if picks < 2 {
        Some("fewer than two usable observations"@)
    } else if stations < 3 {
        Some("fewer than three stations; source and clock terms are not separable"@)
    } else {
        None
    }
}

/// Why a window with some observations at some stations is not fitted, if it
/// is not.
pub fn hold_reason(picks: usize, stations: usize) -> (r: Option<&'static str>)
    ensures
        match r {
            Some(reason) => hold(picks as nat, stations as nat) == Some(reason@),
            None => hold(picks as nat, stations as nat) is None,
        },
{
    if picks < 2 {
        Some("fewer than two usable observations")
    } else if stations < 3 {
        Some("fewer than three stations; source and clock terms are not separable")
    } else {
        None
    }
}

/// The reason for a candidate that no fit is left for.
pub open spec fn no_more_fits() -> Seq<char> {
    "velocity model bounds produced fewer than three distinct local solutions"@
}

/// The candidate of a given rank, counted from zero.
pub open spec fn candidate_at(
    c: CandidateResult,
    observations: Seq<Observation>,
    fits: Seq<Fit>,
    i: int,
) -> bool {
    &&& c.rank == i + 1
    &&& match hold(observations.len(), names(observed_stations(observations)).len()) {
        Some(reason) => bare_candidate(c, observations, reason),
        None => if i < sorted(fits).len() {
            fitted_candidate(c, sorted(fits)[i])
        } else {
            bare_candidate(c, observations, no_more_fits())
        },
    }
}

/// The candidates of an event: the best fits, and as many bare candidates as
/// it takes to make up the number.
pub fn rank_candidates(observations: &Vec<Observation>, fits: Vec<Fit>) -> (r: Vec<CandidateResult>)
    requires
        forall|i: int| 0 <= i < fits@.len() ==> (#[trigger] fits@[i]).covariance.wf(),
    ensures
        r@.len() == CANDIDATES,
        forall|i: int|
            0 <= i < CANDIDATES ==> candidate_at(#[trigger] r@[i], observations@, fits@, i),
{
    let stations = station_list(observations);
    proof {
        assert(views(stations@).len() == stations@.len());
    }
    let held = hold_reason(observations.len(), stations.len());
    let ghost given = fits@;
    let mut rest = sort(fits);
    let ghost all = rest@;
    proof {
        crate::order::sorted_members(given);
        assert forall|i: int| 0 <= i < all.len() implies (#[trigger] all[i]).covariance.wf() by {
            assert(all.contains(all[i]));
            let j = choose|j: int| 0 <= j < given.len() && given[j] == all[i];
            assert(given[j].covariance.wf());
        }
        assert(all.skip(0) =~= all);
    }
    let mut r: Vec<CandidateResult> = Vec::new();
    while r.len() < CANDIDATES
        invariant
            r@.len() <= CANDIDATES,
            all == sorted(given),
            match held {
                Some(reason) => hold(
                    observations@.len(),
                    names(observed_stations(observations@)).len(),
                ) == Some(reason@),
                None => hold(observations@.len(), names(observed_stations(observations@)).len())
                    is None,
            },
            held is None ==> rest@ == all.skip(
                if r@.len() < all.len() {
                    r@.len() as int
                } else {
                    all.len() as int
                },
            ),
            forall|i: int| 0 <= i < all.len() ==> (#[trigger] all[i]).covariance.wf(),
            forall|i: int|
                0 <= i < r@.len() ==> candidate_at(#[trigger] r@[i], observations@, given, i),
        decreases CANDIDATES - r@.len(),
    {
        let rank: usize = r.len() + 1;
        let ghost done = r@.len() as int;
        let c = match held {
            Some(reason) => underdetermined_candidate(rank, observations, reason),
            None => if rest.len() > 0 {
                let ghost before = rest@;
                let f = rest.remove(0);
                proof {
                    assert(f == all[done]);
                    assert(rest@ =~= all.skip(done + 1));
                }
                candidate_from_fit(f, rank)
            } else {
                underdetermined_candidate(
                    rank,
                    observations,
                    "velocity model bounds produced fewer than three distinct local solutions",
                )
            },
        };
        assert(candidate_at(c, observations@, given, done));
        r.push(c);
    }
    r
}

/// Whether an assignment of a candidate gives weight to a pick.
pub open spec fn weighs(v: Seq<PickAssignment>, id: Seq<char>) -> bool {
    exists|k: int| 0 <= k < v.len() && (#[trigger] v[k]).weight > 0 && v[k].observation_id@ == id
}

/// Whether some candidate gives weight to a pick.
pub open spec fn supported(candidates: Seq<CandidateResult>, id: Seq<char>) -> bool {
    exists|i: int| 0 <= i < candidates.len() && weighs((#[trigger] candidates[i]).assignments@, id)
}

/// The observations that no candidate gives weight to.
pub open spec fn left_over(
    observations: Seq<Observation>,
    candidates: Seq<CandidateResult>,
) -> Seq<Rejection>
    decreases observations.len(),
{
    if observations.len() == 0 {
        Seq::empty()
    } else {
        let before = left_over(observations.drop_last(), candidates);
        let pick = observations.last().pick;
        if supported(candidates, pick.id@) {
            before
        } else {
            before.push(
                rejection(pick, "arrival residual exceeds every candidate's support threshold"@),
            )
        }
    }
}

/// Whether an assignment gives weight to a pick.
fn weighs_pick(v: &Vec<PickAssignment>, id: &str) -> (r: bool)
    ensures
        r == weighs(v@, id@),
{
    let mut i: usize = 0;
    while i < v.len()
        invariant
            i <= v@.len(),
            forall|k: int|
                0 <= k < i ==> !((#[trigger] v@[k]).weight > 0 && v@[k].observation_id@ == id@),
        decreases v@.len() - i,
    {
        if v[i].weight > 0 && same(v[i].observation_id.as_str(), id) {
            return true;
        }
        i += 1;
    }
    false
}

/// Whether some candidate gives weight to a pick.
fn is_supported(candidates: &Vec<CandidateResult>, id: &str) -> (r: bool)
    ensures
        r == supported(candidates@, id@),
{
    let mut i: usize = 0;
    while i < candidates.len()
        invariant
            i <= candidates@.len(),
            forall|k: int| 0 <= k < i ==> !weighs((#[trigger] candidates@[k]).assignments@, id@),
        decreases candidates@.len() - i,
    {
        if weighs_pick(&candidates[i].assignments, id) {
            return true;
        }
        i += 1;
    }
    false
}

/// Rejects the observations that no candidate gives weight to.
pub fn reject_left_over(
    observations: &Vec<Observation>,
    candidates: &Vec<CandidateResult>,
    rejected: &mut Vec<RejectedPick>,
)
    ensures
        rejections(final(rejected)@) == rejections(old(rejected)@) + left_over(
            observations@,
            candidates@,
        ),
{
    let ghost start = rejections(rejected@);
    let ghost obs = observations@;
    assert(obs.take(0) =~= Seq::<Observation>::empty());
    assert(start + Seq::<Rejection>::empty() =~= start);
    let mut i: usize = 0;
    while i < observations.len()
        invariant
            i <= obs.len(),
            obs == observations@,
            rejections(rejected@) == start + left_over(obs.take(i as int), candidates@),
        decreases obs.len() - i,
    {
        let pick = &observations[i].pick;
        let ghost before = rejected@;
        assert(obs.take(i + 1).drop_last() =~= obs.take(i as int));
        if !is_supported(candidates, pick.id.as_str()) {
            let item = reject(
                pick,
                "arrival residual exceeds every candidate's support threshold",
            );
            rejected.push(item);
            assert(rejections(rejected@) =~= rejections(before).push(item@));
            assert(start + left_over(obs.take(i as int), candidates@).push(item@) =~= (start
                + left_over(obs.take(i as int), candidates@)).push(item@));
        }
        i += 1;
    }
    assert(obs.take(i as int) =~= obs);
}

/// Rejects every observation of an event whose fit failed.
fn reject_failed(
    observations: &Vec<Observation>,
    message: &str,
    rejected: &mut Vec<RejectedPick>,
)
    ensures
        rejections(final(rejected)@) == rejections(old(rejected)@) + observations@.map_values(
            |o: Observation| rejection(o.pick, message@),
        ),
{
    let ghost start = rejections(rejected@);
    let mut i: usize = 0;
    while i < observations.len()
        invariant
            i <= observations@.len(),
            rejected@.len() == start.len() + i,
            forall|k: int| 0 <= k < start.len() ==> (#[trigger] rejected@[k])@ == start[k],
            forall|k: int|
                start.len() <= k < start.len() + i ==> (#[trigger] rejected@[k])@ == rejection(
                    observations@[k - start.len()].pick,
                    message@,
                ),
        decreases observations@.len() - i,
    {
        rejected.push(reject(&observations[i].pick, message));
        i += 1;
    }
    assert(rejections(rejected@) =~= start + observations@.map_values(
        |o: Observation| rejection(o.pick, message@),
    ));
}

/// What is known of an event.
#[derive(Debug, Clone)]
pub struct EventResult {
    pub event_key: String,
    pub label: String,
    pub station_count: usize,
    pub pick_count: usize,
    pub phase_counts: Vec<PhaseCount>,
    pub azimuthal_gap: u64,
    pub candidates: Vec<CandidateResult>,
}

/// The gap in azimuth around an event: that of its best fit, or all round
/// where it has none.
pub open spec fn event_gap(observations: Seq<Observation>, fits: Seq<Fit>) -> u64 {
    if hold(observations.len(), names(observed_stations(observations)).len()) is None && fits.len()
        > 0 {
        sorted(fits)[0].azimuthal_gap
    } else {
        (360 * UNIT) as u64
    }
}

/// The best of some fits, by its place.
fn best_fit(fits: &Vec<Fit>) -> (r: usize)
    requires
        fits@.len() > 0,
    ensures
        r < fits@.len(),
        fits@[r as int] == sorted(fits@)[0],
{
    let mut best: usize = 0;
    let mut i: usize = 1;
    proof {
        assert(fits@.take(1).drop_last() =~= Seq::<Fit>::empty());
        reveal_with_fuel(sorted, 2);
        reveal_with_fuel(crate::order::inserted, 2);
        assert(sorted(fits@.take(1)) =~= seq![fits@[0]]);
    }
    while i < fits.len()
        invariant
            1 <= i <= fits@.len(),
            best < i,
            fits@[best as int] == sorted(fits@.take(i as int))[0],
            sorted(fits@.take(i as int)).len() == i,
        decreases fits@.len() - i,
    {
        proof {
            let t = fits@.take(i + 1);
            assert(t.drop_last() =~= fits@.take(i as int));
            assert(t.last() == fits@[i as int]);
            crate::order::sorted_in_order(t.drop_last());
            crate::order::sorted_items(t);
            head_of_inserted(sorted(t.drop_last()), t.last());
        }
        if !Fit::first(&fits[best], &fits[i]) {
            best = i;
        }
        i += 1;
    }
    assert(fits@.take(i as int) =~= fits@);
    best
}

/// The head of a sorted list into which an item is put.
proof fn head_of_inserted<T: Ranked>(s: Seq<T>, x: T)
    requires
        s.len() > 0,
        crate::order::in_order(s),
    ensures
        crate::order::inserted(s, x)[0] == if T::comes_first(s[0], x) {
            s[0]
        } else {
            x
        },
    decreases s.len(),
{
    if T::comes_first(s.last(), x) {
        assert(T::comes_first(s[0], s[s.len() - 1]));
        T::transitive(s[0], s.last(), x);
    } else {
        let t = s.drop_last();
        crate::order::inserted_items(t, x);
        if t.len() > 0 {
            assert forall|i: int, j: int| 0 <= i <= j < t.len() implies T::comes_first(
                #[trigger] t[i],
                #[trigger] t[j],
            ) by {
                assert(T::comes_first(s[i], s[j]));
            }
            head_of_inserted(t, x);
        } else {
            assert(crate::order::inserted(t, x) =~= seq![x]);
        }
    }
}

/// What a window's event is known by.
pub open spec fn settled(
    e: EventResult,
    window: EventWindow,
    observations: Seq<Observation>,
    fits: Seq<Fit>,
) -> bool {
    &&& e.event_key@ == window.key@
    &&& e.label@ == window.label@
    &&& e.station_count == names(observed_stations(observations)).len()
    &&& e.pick_count == observations.len()
    &&& e.phase_counts@ == phase_counts_of(observations)
    &&& e.azimuthal_gap == event_gap(observations, fits)
    &&& e.candidates@.len() == CANDIDATES
    &&& forall|i: int|
        0 <= i < CANDIDATES ==> candidate_at(#[trigger] e.candidates@[i], observations, fits, i)
}

/// What stops an event: a fit that failed, where the observations allow one.
pub open spec fn failure(
    observations: Seq<Observation>,
    trouble: Option<Seq<char>>,
) -> Option<Seq<char>> {
    match hold(observations.len(), names(observed_stations(observations)).len()) {
        Some(_) => None,
        None => trouble,
    }
}

/// Why a fit failed, if one did.
pub open spec fn trouble(fits: Result<Vec<Fit>, String>) -> Option<Seq<char>> {
    match fits {
        Ok(_) => None,
        Err(m) => Some(m@),
    }
}

/// The fits that were made; none where one failed.
pub open spec fn made(fits: Result<Vec<Fit>, String>) -> Seq<Fit> {
    match fits {
        Ok(v) => v@,
        Err(_) => Seq::empty(),
    }
}

/// Whether the covariances of all fits that were made have their parts.
pub open spec fn fits_wf(fits: Result<Vec<Fit>, String>) -> bool {
    forall|i: int| 0 <= i < made(fits).len() ==> (#[trigger] made(fits)[i]).covariance.wf()
}

/// Lays out what is known of an event, given its fits or why one failed, and
/// rejects the observations that no candidate uses; all of them where a fit
/// failed.
pub fn locate_window(
    window: &EventWindow,
    observations: &Vec<Observation>,
    fits: Result<Vec<Fit>, String>,
    rejected: &mut Vec<RejectedPick>,
) -> (r: Result<EventResult, String>)
    requires
        fits_wf(fits),
    ensures
        match r {
            Ok(e) => failure(observations@, trouble(fits)) is None && settled(
                e,
                *window,
                observations@,
                made(fits),
            ) && rejections(final(rejected)@) == rejections(old(rejected)@) + left_over(
                observations@,
                e.candidates@,
            ),
            Err(m) => failure(observations@, trouble(fits)) == Some(m@) && rejections(final(rejected)@)
                == rejections(old(rejected)@) + observations@.map_values(
                |o: Observation| rejection(o.pick, m@),
            ),
        },
{
    let stations = station_list(observations);
    proof {
        assert(views(stations@).len() == stations@.len());
    }
    let held = hold_reason(observations.len(), stations.len());
    let fits: Vec<Fit> = match fits {
        Ok(v) => v,
        Err(m) => match held {
            Some(_) => Vec::new(),
            None => {
                reject_failed(observations, m.as_str(), rejected);
                return Err(m);
            },
        },
    };
    let azimuthal_gap: u64 = match held {
        Some(_) => 360_000_000_000,
        None => if fits.len() > 0 {
            fits[best_fit(&fits)].azimuthal_gap
        } else {
            360_000_000_000
        },
    };
    let candidates = rank_candidates(observations, fits);
    reject_left_over(observations, &candidates, rejected);
    Ok(
        EventResult {
            event_key: window.key.clone(),
            label: window.label.clone(),
            station_count: stations.len(),
            pick_count: observations.len(),
            phase_counts: phase_counts(observations),
            azimuthal_gap,
            candidates,
        },
    )
}

/// A candidate that locates an event has the support of two stations, and
/// no locked observation contradicts it.
pub proof fn located_candidates_are_supported(f: Fit)
    requires
        fit_status(f) != Status::Contradiction,
    ensures
        !hard_locked(f.assignments@),
        names(weighted_stations(f.assignments@)).len() >= 2,
        fit_status(f) != Status::Underdetermined ==> f.covariance.positive_definite
            && names(assigned_stations(f.assignments@)).len() >= 3,
        fit_status(f) == Status::Located ==> !unsupported(f.assignments@),
{
}

/// Better candidates come first.
pub proof fn candidates_in_order(
    observations: Seq<Observation>,
    fits: Seq<Fit>,
    a: CandidateResult,
    b: CandidateResult,
    i: int,
    j: int,
)
    requires
        0 <= i <= j < CANDIDATES,
        j < fits.len(),
        candidate_at(a, observations, fits, i),
        candidate_at(b, observations, fits, j),
    ensures
        status_rank(a.status) <= status_rank(b.status),
{
    crate::order::sorted_in_order(fits);
    crate::order::sorted_items(fits);
    let s = sorted(fits);
    assert(Fit::comes_first(s[i], s[j]));
}

} // verus!
