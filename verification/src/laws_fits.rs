//! Laws of fits: what a fit of the window solver is worth, which comes first,
//! and what is said of it.
use vstd::prelude::*;

use crate::decimal::{decimal, hundredths, size, tenths};
use crate::fits::{
    assigned, assigned_stations, better, candidate_at, correlation_notes, covariance_notes,
    fit_notes, fit_status, fitted_candidate, hard_locked, left_over, residual_notes, settled,
    status_rank, support_count, supported, unsupported, weighs, weight_of, weighted_stations,
    CandidateResult, CovarianceSummary, EventResult, Fit, PickAssignment, Prediction, Status,
};
use crate::locator::{observed_stations, phase_count, PhaseCount};
use crate::model::Phase;
use crate::order::{
    names, names_is, sorted, sorted_in_order, sorted_items, sorted_members, text_lt, Ranked,
};
use crate::solver_types::{rejection, EventWindow, Observation, Rejection};
use crate::text::views;

verus! {

/// Whether two texts of a list differ.
pub open spec fn two_differ(v: Seq<Seq<char>>) -> bool {
    exists|i: int, j: int|
        0 <= i < v.len() && 0 <= j < v.len() && #[trigger] v[i] != #[trigger] v[j]
}

/// Whether three texts of a list differ from each other.
pub open spec fn three_differ(v: Seq<Seq<char>>) -> bool {
    exists|i: int, j: int, k: int|
        0 <= i < v.len() && 0 <= j < v.len() && 0 <= k < v.len() && #[trigger] v[i]
            != #[trigger] v[j] && v[i] != #[trigger] v[k] && v[j] != v[k]
}

/// A list has two names where two differ.
pub proof fn two_names_differ(v: Seq<Seq<char>>)
    ensures
        names(v).len() >= 2 <==> two_differ(v),
{
    let list = names(v);
    names_is(v);
    if list.len() >= 2 {
        assert(text_lt(list[0], list[1]));
        assert(list.contains(list[0]) && list.contains(list[1]));
        let i = choose|i: int| 0 <= i < v.len() && v[i] == list[0];
        let j = choose|j: int| 0 <= j < v.len() && v[j] == list[1];
        assert(v[i] != v[j]);
    }
    if two_differ(v) {
        let (i, j) = choose|i: int, j: int|
            0 <= i < v.len() && 0 <= j < v.len() && #[trigger] v[i] != #[trigger] v[j];
        assert(list.contains(v[i]) && list.contains(v[j]));
        let a = choose|a: int| 0 <= a < list.len() && list[a] == v[i];
        let b = choose|b: int| 0 <= b < list.len() && list[b] == v[j];
        assert(a != b);
    }
}

/// A list has three names where three differ.
pub proof fn three_names_differ(v: Seq<Seq<char>>)
    ensures
        names(v).len() >= 3 <==> three_differ(v),
{
    let list = names(v);
    names_is(v);
    if list.len() >= 3 {
        assert(text_lt(list[0], list[1]) && text_lt(list[0], list[2]) && text_lt(list[1], list[2]));
        assert(list.contains(list[0]) && list.contains(list[1]) && list.contains(list[2]));
        let i = choose|i: int| 0 <= i < v.len() && v[i] == list[0];
        let j = choose|j: int| 0 <= j < v.len() && v[j] == list[1];
        let k = choose|k: int| 0 <= k < v.len() && v[k] == list[2];
        assert(v[i] != v[j] && v[i] != v[k] && v[j] != v[k]);
    }
    if three_differ(v) {
        let (i, j, k) = choose|i: int, j: int, k: int|
            0 <= i < v.len() && 0 <= j < v.len() && 0 <= k < v.len() && #[trigger] v[i]
                != #[trigger] v[j] && v[i] != #[trigger] v[k] && v[j] != v[k];
        assert(list.contains(v[i]) && list.contains(v[j]) && list.contains(v[k]));
        let a = choose|a: int| 0 <= a < list.len() && list[a] == v[i];
        let b = choose|b: int| 0 <= b < list.len() && list[b] == v[j];
        let c = choose|c: int| 0 <= c < list.len() && list[c] == v[k];
        assert(a != b && a != c && b != c);
    }
}

/// Whether a residual is more than four seconds, either way.
pub open spec fn beyond_four_seconds(a: PickAssignment) -> bool {
    a.residual_s matches Some(r) && (r > 4_000_000_000 || r < -4_000_000_000)
}

/// Whether some pick that is locked, or is not, has a residual of more than
/// four seconds.
pub open spec fn contradicted(v: Seq<PickAssignment>, locked: bool) -> bool {
    exists|i: int| 0 <= i < v.len() && (#[trigger] v[i]).locked == locked && beyond_four_seconds(v[i])
}

/// Whether picks of two stations have weight.
pub open spec fn two_stations_weigh(v: Seq<PickAssignment>) -> bool {
    exists|i: int, j: int|
        0 <= i < v.len() && 0 <= j < v.len() && (#[trigger] v[i]).weight > 0 && (
        #[trigger] v[j]).weight > 0 && v[i].station_id@ != v[j].station_id@
}

/// Whether there are picks of three stations.
pub open spec fn three_stations(v: Seq<PickAssignment>) -> bool {
    exists|i: int, j: int, k: int|
        0 <= i < v.len() && 0 <= j < v.len() && 0 <= k < v.len() && (#[trigger] v[i]).station_id@
            != (#[trigger] v[j]).station_id@ && v[i].station_id@ != (#[trigger] v[k]).station_id@
            && v[j].station_id@ != v[k].station_id@
}

/// The stations of the picks that have weight.
proof fn weighted_holds(v: Seq<PickAssignment>, s: Seq<char>)
    ensures
        weighted_stations(v).contains(s) <==> exists|i: int|
            0 <= i < v.len() && (#[trigger] v[i]).weight > 0 && v[i].station_id@ == s,
    decreases v.len(),
{
    if v.len() > 0 {
        let w = v.drop_last();
        weighted_holds(w, s);
        let (before, after) = (weighted_stations(w), weighted_stations(v));
        assert forall|i: int| 0 <= i < w.len() implies #[trigger] w[i] == v[i] by {}
        let n = v.len() - 1;
        if before.contains(s) {
            let i = choose|i: int| 0 <= i < before.len() && before[i] == s;
            assert(after[i] == s);
            let k = choose|k: int|
                0 <= k < w.len() && (#[trigger] w[k]).weight > 0 && w[k].station_id@ == s;
            assert(v[k].weight > 0);
        }
        if after.contains(s) && !before.contains(s) {
            let i = choose|i: int| 0 <= i < after.len() && after[i] == s;
            if i < before.len() {
                assert(before[i] == s);
            }
            assert(v[n].weight > 0);
        }
        if exists|i: int| 0 <= i < v.len() && (#[trigger] v[i]).weight > 0 && v[i].station_id@ == s {
            let i = choose|i: int|
                0 <= i < v.len() && (#[trigger] v[i]).weight > 0 && v[i].station_id@ == s;
            if i < n {
                assert(w[i].weight > 0);
                let m = choose|m: int| 0 <= m < before.len() && before[m] == s;
                assert(after[m] == s);
            } else {
                assert(after[after.len() - 1] == s);
            }
        }
    }
}

/// Two stations have weight where two names of such stations differ.
proof fn weighted_differ(v: Seq<PickAssignment>)
    ensures
        names(weighted_stations(v)).len() >= 2 <==> two_stations_weigh(v),
{
    let w = weighted_stations(v);
    two_names_differ(w);
    if two_differ(w) {
        let (a, b) = choose|a: int, b: int|
            0 <= a < w.len() && 0 <= b < w.len() && #[trigger] w[a] != #[trigger] w[b];
        weighted_holds(v, w[a]);
        weighted_holds(v, w[b]);
        assert(w.contains(w[a]) && w.contains(w[b]));
        let i = choose|i: int|
            0 <= i < v.len() && (#[trigger] v[i]).weight > 0 && v[i].station_id@ == w[a];
        let j = choose|j: int|
            0 <= j < v.len() && (#[trigger] v[j]).weight > 0 && v[j].station_id@ == w[b];
        assert(v[i].weight > 0 && v[j].weight > 0);
    }
    if two_stations_weigh(v) {
        let (i, j) = choose|i: int, j: int|
            0 <= i < v.len() && 0 <= j < v.len() && (#[trigger] v[i]).weight > 0 && (
            #[trigger] v[j]).weight > 0 && v[i].station_id@ != v[j].station_id@;
        weighted_holds(v, v[i].station_id@);
        weighted_holds(v, v[j].station_id@);
        assert(v[i].weight > 0 && v[j].weight > 0);
        let a = choose|a: int| 0 <= a < w.len() && w[a] == v[i].station_id@;
        let b = choose|b: int| 0 <= b < w.len() && w[b] == v[j].station_id@;
        assert(w[a] != w[b]);
    }
}

/// Three stations are assigned where three names of them differ.
proof fn assigned_differ(v: Seq<PickAssignment>)
    ensures
        names(assigned_stations(v)).len() >= 3 <==> three_stations(v),
{
    let w = assigned_stations(v);
    three_names_differ(w);
    if three_differ(w) {
        let (i, j, k) = choose|i: int, j: int, k: int|
            0 <= i < w.len() && 0 <= j < w.len() && 0 <= k < w.len() && #[trigger] w[i]
                != #[trigger] w[j] && w[i] != #[trigger] w[k] && w[j] != w[k];
        assert(v[i].station_id@ != v[j].station_id@ && v[i].station_id@ != v[k].station_id@);
    }
    if three_stations(v) {
        let (i, j, k) = choose|i: int, j: int, k: int|
            0 <= i < v.len() && 0 <= j < v.len() && 0 <= k < v.len() && (
            #[trigger] v[i]).station_id@ != (#[trigger] v[j]).station_id@ && v[i].station_id@ != (
            #[trigger] v[k]).station_id@ && v[j].station_id@ != v[k].station_id@;
        assert(w[i] != w[j] && w[i] != w[k] && w[j] != w[k]);
    }
}

/// A contradicted pick has a residual that is too large.
proof fn contradictions(v: Seq<PickAssignment>)
    ensures
        hard_locked(v) <==> contradicted(v, true),
        unsupported(v) <==> contradicted(v, false),
{
    if hard_locked(v) {
        let i = choose|i: int|
            0 <= i < v.len() && (#[trigger] v[i]).locked && crate::fits::contradicts(v[i]);
        assert(v[i].locked == true && beyond_four_seconds(v[i]));
    }
    if unsupported(v) {
        let i = choose|i: int|
            0 <= i < v.len() && !(#[trigger] v[i]).locked && crate::fits::contradicts(v[i]);
        assert(v[i].locked == false && beyond_four_seconds(v[i]));
    }
    if contradicted(v, true) {
        let i = choose|i: int|
            0 <= i < v.len() && (#[trigger] v[i]).locked == true && beyond_four_seconds(v[i]);
        assert(v[i].locked && crate::fits::contradicts(v[i]));
    }
    if contradicted(v, false) {
        let i = choose|i: int|
            0 <= i < v.len() && (#[trigger] v[i]).locked == false && beyond_four_seconds(v[i]);
        assert(!v[i].locked && crate::fits::contradicts(v[i]));
    }
}

/// A fit is contradicted by a locked pick more than four seconds off, or where
/// picks of fewer than two stations have weight. Else it is underdetermined
/// where it is about fewer than three stations, has a rank below six, or a
/// covariance that is not positive definite. Else it is located where the
/// source is sure to 10 km in either direction, 15 km in depth and a second in
/// time, the condition number is at most 1e10, the gap between stations at most
/// half a turn, no pick is more than four seconds off, and the rank is at most
/// one short; and degraded where one of these fails.
pub proof fn fits_are_judged(f: Fit)
    ensures
        ({
            let v = f.assignments@;
            let c = f.covariance;
            let s = c.source_sigma;
            let refused = contradicted(v, true) || !two_stations_weigh(v);
            let open = !three_stations(v) || c.rank < 6 || !c.positive_definite;
            let sure = s.x_m <= 10_000_000_000_000 && s.y_m <= 10_000_000_000_000 && s.depth_m
                <= 15_000_000_000_000 && s.origin_time_s <= 1_000_000_000;
            let sound = (c.condition_number matches Some(n) ==> n <= 10_000_000_000)
                && f.azimuthal_gap <= 180_000_000_000 && !contradicted(v, false) && c.rank + 1
                >= c.parameter_names@.len();
            &&& fit_status(f) == Status::Contradiction <==> refused
            &&& fit_status(f) == Status::Underdetermined <==> !refused && open
            &&& fit_status(f) == Status::Located <==> !refused && !open && sure && sound
            &&& fit_status(f) == Status::Degraded <==> !refused && !open && !(sure && sound)
        }),
{
    contradictions(f.assignments@);
    weighted_differ(f.assignments@);
    assigned_differ(f.assignments@);
}

/// The worth of a fit decides first, from located to contradicted; then the
/// higher score, the lower misfit, and where the source is: the lower x, y,
/// depth and time.
pub proof fn better_fits_come_first(a: Fit, b: Fit)
    ensures
        fit_status(a) == Status::Located && fit_status(b) != Status::Located ==> better(a, b)
            && !better(b, a),
        fit_status(a) == Status::Degraded && (fit_status(b) == Status::Underdetermined || fit_status(
            b,
        ) == Status::Contradiction) ==> better(a, b) && !better(b, a),
        fit_status(a) == Status::Underdetermined && fit_status(b) == Status::Contradiction
            ==> better(a, b) && !better(b, a),
        fit_status(a) == fit_status(b) ==> {
            &&& a.score > b.score ==> better(a, b) && !better(b, a)
            &&& a.score == b.score ==> {
                &&& a.rms < b.rms ==> better(a, b) && !better(b, a)
                &&& a.rms == b.rms ==> {
                    &&& a.x < b.x ==> better(a, b) && !better(b, a)
                    &&& a.x == b.x && a.y < b.y ==> better(a, b) && !better(b, a)
                    &&& a.x == b.x && a.y == b.y && a.depth < b.depth ==> better(a, b) && !better(
                        b,
                        a,
                    )
                    &&& a.x == b.x && a.y == b.y && a.depth == b.depth && a.origin_time
                        < b.origin_time ==> better(a, b) && !better(b, a)
                    &&& a.x == b.x && a.y == b.y && a.depth == b.depth && a.origin_time
                        == b.origin_time ==> better(a, b) && better(b, a)
                }
            }
        },
{
}

/// Whether an event has too little to be fitted: fewer than two observations,
/// or observations of fewer than three stations.
pub open spec fn too_little(v: Seq<Observation>) -> bool {
    v.len() < 2 || !(exists|i: int, j: int, k: int|
        0 <= i < v.len() && 0 <= j < v.len() && 0 <= k < v.len() && (
        #[trigger] v[i]).pick.station_id@ != (#[trigger] v[j]).pick.station_id@
            && v[i].pick.station_id@ != (#[trigger] v[k]).pick.station_id@ && v[j].pick.station_id@
            != v[k].pick.station_id@)
}

/// Three stations are observed where three names of them differ.
proof fn observed_differ(v: Seq<Observation>)
    ensures
        too_little(v) <==> v.len() < 2 || names(observed_stations(v)).len() < 3,
{
    let w = observed_stations(v);
    three_names_differ(w);
    if three_differ(w) {
        let (i, j, k) = choose|i: int, j: int, k: int|
            0 <= i < w.len() && 0 <= j < w.len() && 0 <= k < w.len() && #[trigger] w[i]
                != #[trigger] w[j] && w[i] != #[trigger] w[k] && w[j] != w[k];
        assert(v[i].pick.station_id@ != v[j].pick.station_id@ && v[i].pick.station_id@
            != v[k].pick.station_id@);
    }
    if exists|i: int, j: int, k: int|
        0 <= i < v.len() && 0 <= j < v.len() && 0 <= k < v.len() && (
        #[trigger] v[i]).pick.station_id@ != (#[trigger] v[j]).pick.station_id@
            && v[i].pick.station_id@ != (#[trigger] v[k]).pick.station_id@ && v[j].pick.station_id@
            != v[k].pick.station_id@ {
        let (i, j, k) = choose|i: int, j: int, k: int|
            0 <= i < v.len() && 0 <= j < v.len() && 0 <= k < v.len() && (
            #[trigger] v[i]).pick.station_id@ != (#[trigger] v[j]).pick.station_id@
                && v[i].pick.station_id@ != (#[trigger] v[k]).pick.station_id@
                && v[j].pick.station_id@ != v[k].pick.station_id@;
        assert(w[i] != w[j] && w[i] != w[k] && w[j] != w[k]);
    }
}

/// Each event has three candidates, ranked from one. Where there is enough to
/// fit, they are of its best fits, best first: no fit is better than one that
/// it comes behind. All others are underdetermined, of no fit, and give no
/// pick weight.
pub proof fn events_have_their_best_fits(
    e: EventResult,
    window: EventWindow,
    observations: Seq<Observation>,
    fits: Seq<Fit>,
    i: int,
)
    requires
        settled(e, window, observations, fits),
        0 <= i < 3,
    ensures
        e.candidates@.len() == 3,
        e.candidates@[i].rank == i + 1,
        e.candidates@[i].fit is Some <==> !too_little(observations) && i < fits.len(),
        e.candidates@[i].fit is Some ==> fits.contains(sorted(fits)[i]) && e.candidates@[i].fit
            == Some(sorted(fits)[i].number) && e.candidates@[i].status == fit_status(
            sorted(fits)[i],
        ) && e.candidates@[i].station_bias == sorted(fits)[i].biases && e.candidates@[i].covariance
            == sorted(fits)[i].covariance,
        forall|j: int| i <= j < fits.len() ==> better(sorted(fits)[i], #[trigger] sorted(fits)[j]),
        e.candidates@[i].fit is None ==> {
            &&& e.candidates@[i].status == Status::Underdetermined
            &&& e.candidates@[i].warnings@.len() == 1
            &&& forall|k: int|
                0 <= k < e.candidates@[i].station_bias@.len() ==> (
                #[trigger] e.candidates@[i].station_bias@[k]).bias_s == 0
            &&& forall|k: int|
                0 <= k < e.candidates@[i].assignments@.len() ==> (
                #[trigger] e.candidates@[i].assignments@[k]).weight == 0
                    && e.candidates@[i].assignments@[k].residual_s is None
        },
{
    let c = e.candidates@[i];
    observed_differ(observations);
    assert(candidate_at(c, observations, fits, i));
    sorted_items(fits);
    sorted_members(fits);
    sorted_in_order(fits);
    if i < fits.len() {
        assert(sorted(fits).contains(sorted(fits)[i]));
        assert forall|j: int| i <= j < fits.len() implies better(
            sorted(fits)[i],
            #[trigger] sorted(fits)[j],
        ) by {
            assert(Fit::comes_first(sorted(fits)[i], sorted(fits)[j]));
        }
    }
    if c.fit is None {
        assert(views(c.warnings@).len() == c.warnings@.len());
        assert forall|k: int| 0 <= k < c.assignments@.len() implies (
        #[trigger] c.assignments@[k]).weight == 0 && c.assignments@[k].residual_s is None by {
            assert(assigned(c.assignments@[k], observations[k], None, 0));
        }
    }
}

/// An event tells how many observations it has, of each phase and in all, and
/// how many stations; its gap is that of its best fit, or a full turn.
pub proof fn events_count_what_they_have(
    e: EventResult,
    window: EventWindow,
    observations: Seq<Observation>,
    fits: Seq<Fit>,
    phase: Phase,
)
    requires
        settled(e, window, observations, fits),
        observations.len() <= usize::MAX,
    ensures
        e.event_key@ == window.key@,
        e.label@ == window.label@,
        e.pick_count == observations.len(),
        e.station_count == names(observed_stations(observations)).len(),
        ({
            let n = observations.filter(|o: Observation| o.pick.phase == phase).len();
            n > 0 ==> e.phase_counts@.contains(PhaseCount { phase, count: n as usize })
        }),
        forall|k: int|
            0 <= k < e.phase_counts@.len() && (#[trigger] e.phase_counts@[k]).phase == phase
                ==> e.phase_counts@[k].count == observations.filter(
                |o: Observation| o.pick.phase == phase,
            ).len(),
        too_little(observations) || fits.len() == 0 ==> e.azimuthal_gap == 360_000_000_000,
        !too_little(observations) && fits.len() > 0 ==> e.azimuthal_gap == sorted(
            fits,
        )[0].azimuthal_gap,
{
    observed_differ(observations);
    phases_are_counted(observations, phase);
    phases_are_counted(observations, Phase::P);
    phases_are_counted(observations, Phase::S);
    let p = phase_count(observations, Phase::P);
    let s = phase_count(observations, Phase::S);
    if phase == Phase::P && p > 0 {
        assert(e.phase_counts@[0] == (PhaseCount { phase, count: p as usize }));
    }
    if phase == Phase::S && s > 0 {
        assert(e.phase_counts@[e.phase_counts@.len() - 1] == (PhaseCount {
            phase,
            count: s as usize,
        }));
    }
}

/// The observations of a phase are counted.
proof fn phases_are_counted(v: Seq<Observation>, phase: Phase)
    ensures
        phase_count(v, phase) == v.filter(|o: Observation| o.pick.phase == phase).len(),
        phase_count(v, phase) <= v.len(),
    decreases v.len(),
{
    reveal(Seq::filter);
    if v.len() > 0 {
        phases_are_counted(v.drop_last(), phase);
    }
}

/// A pick keeps the weight that its fit gives it where it is locked or at most
/// two seconds off, give or take a billionth; else it has none.
pub proof fn picks_weigh_within_two_seconds(a: PickAssignment, o: Observation, p: Prediction)
    requires
        assigned(a, o, Some(p.residual_s), weight_of(o, p)),
    ensures
        o.locked || -2_000_000_001 <= p.residual_s <= 2_000_000_001 ==> a.weight == p.weight,
        !o.locked && !(-2_000_000_001 <= p.residual_s <= 2_000_000_001) ==> a.weight == 0,
        a.residual_s == Some(p.residual_s),
        a.observation_id@ == o.pick.id@,
        a.station_id@ == o.pick.station_id@,
        a.locked == o.locked,
{
}

/// What is said of a correlation.
pub open spec fn correlation_said(c: CovarianceSummary, w: Seq<char>, k: int) -> bool {
    &&& 0 <= k < c.correlations@.len()
    &&& c.correlations@[k] > 990_000_000
    &&& w == "origin time is nearly indistinguishable from "@ + c.parameter_names@[k + 4]@
}

/// What is said of a residual.
pub open spec fn residual_said(v: Seq<PickAssignment>, w: Seq<char>, k: int) -> bool {
    &&& 0 <= k < v.len()
    &&& !v[k].locked
    &&& beyond_four_seconds(v[k])
    &&& w == v[k].observation_id@ + " has a "@ + hundredths(size(v[k].residual_s->0 as int))
        + " s rejected residual"@
}

/// The warnings about correlations.
proof fn correlations_are_said(c: CovarianceSummary, n: int, w: Seq<char>)
    requires
        0 <= n <= c.correlations@.len(),
    ensures
        correlation_notes(c, n).contains(w) <==> exists|k: int|
            k < n && #[trigger] correlation_said(c, w, k),
    decreases n,
{
    if n > 0 {
        correlations_are_said(c, n - 1, w);
        let (before, after) = (correlation_notes(c, n - 1), correlation_notes(c, n));
        if before.contains(w) {
            let i = choose|i: int| 0 <= i < before.len() && before[i] == w;
            assert(after[i] == w);
        }
        if after.contains(w) && !before.contains(w) {
            let i = choose|i: int| 0 <= i < after.len() && after[i] == w;
            if i < before.len() {
                assert(before[i] == w);
            }
            assert(correlation_said(c, w, n - 1));
        }
        if exists|k: int| k < n && #[trigger] correlation_said(c, w, k) {
            let k = choose|k: int| k < n && #[trigger] correlation_said(c, w, k);
            if k == n - 1 {
                assert(after[after.len() - 1] == w);
            } else {
                assert(before.contains(w));
            }
        }
    }
}

/// The warnings about residuals.
proof fn residuals_are_said(v: Seq<PickAssignment>, w: Seq<char>)
    ensures
        residual_notes(v).contains(w) <==> exists|k: int| #[trigger] residual_said(v, w, k),
    decreases v.len(),
{
    if v.len() > 0 {
        let t = v.drop_last();
        let n = v.len() - 1;
        residuals_are_said(t, w);
        let (before, after) = (residual_notes(t), residual_notes(v));
        if before.contains(w) {
            let i = choose|i: int| 0 <= i < before.len() && before[i] == w;
            assert(after[i] == w);
            let k = choose|k: int| #[trigger] residual_said(t, w, k);
            assert(residual_said(v, w, k));
        }
        if after.contains(w) && !before.contains(w) {
            let i = choose|i: int| 0 <= i < after.len() && after[i] == w;
            if i < before.len() {
                assert(before[i] == w);
            }
            assert(residual_said(v, w, n));
        }
        if exists|k: int| #[trigger] residual_said(v, w, k) {
            let k = choose|k: int| #[trigger] residual_said(v, w, k);
            if k == n {
                assert(after[after.len() - 1] == w);
            } else {
                assert(residual_said(t, w, k));
                let i = choose|i: int| 0 <= i < before.len() && before[i] == w;
                assert(after[i] == w);
            }
        }
    }
}

/// What is in a list that was made of two.
proof fn joined(a: Seq<Seq<char>>, b: Seq<Seq<char>>, w: Seq<char>)
    ensures
        (a + b).contains(w) <==> a.contains(w) || b.contains(w),
{
    let c = a + b;
    if a.contains(w) {
        let i = choose|i: int| 0 <= i < a.len() && a[i] == w;
        assert(c[i] == w);
    }
    if b.contains(w) {
        let i = choose|i: int| 0 <= i < b.len() && b[i] == w;
        assert(c[a.len() + i] == w);
    }
    if c.contains(w) {
        let i = choose|i: int| 0 <= i < c.len() && c[i] == w;
        if i < a.len() {
            assert(a[i] == w);
        } else {
            assert(b[i - a.len()] == w);
        }
    }
}

/// What is in a note.
proof fn noted(due: bool, text: Seq<char>, w: Seq<char>)
    ensures
        crate::fits::note(due, text).contains(w) <==> due && w == text,
{
    let n = crate::fits::note(due, text);
    if due {
        assert(n[0] == text);
    }
}

/// The picks that support a fit are counted.
proof fn support_is_counted(v: Seq<PickAssignment>)
    ensures
        support_count(v) == v.filter(
            |a: PickAssignment|
                a.locked || a.residual_s is None || -2_000_000_001 <= a.residual_s->0
                    <= 2_000_000_001,
        ).len(),
    decreases v.len(),
{
    reveal(Seq::filter);
    if v.len() > 0 {
        support_is_counted(v.drop_last());
    }
}

/// A candidate of a fit has the warnings that its fit gives cause for, and no
/// others: each once, in rising order.
pub proof fn fits_are_warned_of(c: CandidateResult, f: Fit, w: Seq<char>)
    requires
        fitted_candidate(c, f),
    ensures
        crate::order::rising(views(c.warnings@)),
        views(c.warnings@).contains(w) <==> {
            let k = f.covariance;
            ||| !k.positive_definite && w == "posterior covariance is not positive definite"@
            ||| k.rank + 1 < k.parameter_names@.len() && w == "weighted Jacobian rank "@ + decimal(
                k.rank as nat,
            ) + " is below parameter count "@ + decimal(k.parameter_names@.len())
            ||| (k.condition_number matches Some(n) && n > 10_000_000_000) && w
                == "covariance condition number exceeds 1e10"@
            ||| exists|i: int| #[trigger] correlation_said(k, w, i)
            ||| exists|i: int| #[trigger] residual_said(f.assignments@, w, i)
            ||| f.assignments@.filter(
                |a: PickAssignment|
                    a.locked || a.residual_s is None || -2_000_000_001 <= a.residual_s->0
                        <= 2_000_000_001,
            ).len() < 2 && w == "fewer than two picks support this candidate"@
            ||| f.azimuthal_gap > 180_000_000_000 && w == "azimuthal gap "@ + tenths(
                f.azimuthal_gap as nat,
            ) + "\u{b0} exceeds 180\u{b0}"@
        },
{
    let k = f.covariance;
    let v = f.assignments@;
    names_is(fit_notes(f));
    support_is_counted(v);
    let a = crate::fits::note(
        !k.positive_definite,
        "posterior covariance is not positive definite"@,
    );
    let rank = "weighted Jacobian rank "@ + decimal(k.rank as nat) + " is below parameter count "@
        + decimal(k.parameter_names@.len());
    let b = crate::fits::note(k.rank + 1 < k.parameter_names@.len(), rank);
    let ill = k.condition_number matches Some(n) && n > 10_000_000_000;
    let d = crate::fits::note(ill, "covariance condition number exceeds 1e10"@);
    let e = correlation_notes(k, k.correlations@.len() as int);
    let g = residual_notes(v);
    let few = support_count(v) < 2;
    let h = crate::fits::note(few, "fewer than two picks support this candidate"@);
    let wide = "azimuthal gap "@ + tenths(f.azimuthal_gap as nat) + "\u{b0} exceeds 180\u{b0}"@;
    let m = crate::fits::note(f.azimuthal_gap > 180_000_000_000, wide);
    assert(covariance_notes(k) == a + b + d + e);
    assert(fit_notes(f) == covariance_notes(k) + g + h + m);
    noted(!k.positive_definite, "posterior covariance is not positive definite"@, w);
    noted(k.rank + 1 < k.parameter_names@.len(), rank, w);
    noted(ill, "covariance condition number exceeds 1e10"@, w);
    noted(few, "fewer than two picks support this candidate"@, w);
    noted(f.azimuthal_gap > 180_000_000_000, wide, w);
    correlations_are_said(k, k.correlations@.len() as int, w);
    residuals_are_said(v, w);
    joined(a, b, w);
    joined(a + b, d, w);
    joined(a + b + d, e, w);
    joined(a + b + d + e, g, w);
    joined(a + b + d + e + g, h, w);
    joined(a + b + d + e + g + h, m, w);
    if exists|i: int| #[trigger] correlation_said(k, w, i) {
        let i = choose|i: int| #[trigger] correlation_said(k, w, i);
        assert(i < k.correlations@.len());
    }
}

/// An observation is rejected exactly where no candidate of its event gives
/// its pick weight.
pub proof fn unsupported_observations_are_rejected(
    observations: Seq<Observation>,
    candidates: Seq<CandidateResult>,
    x: Rejection,
)
    ensures
        left_over(observations, candidates).contains(x) <==> exists|k: int|
            0 <= k < observations.len() && x == rejection(
                (#[trigger] observations[k]).pick,
                "arrival residual exceeds every candidate's support threshold"@,
            ) && forall|i: int, a: int|
                0 <= i < candidates.len() && 0 <= a < candidates[i].assignments@.len()
                    && #[trigger] candidates[i].assignments@[a].observation_id@
                    == observations[k].pick.id@ ==> candidates[i].assignments@[a].weight == 0,
    decreases observations.len(),
{
    if observations.len() > 0 {
        let t = observations.drop_last();
        let n = observations.len() - 1;
        unsupported_observations_are_rejected(t, candidates, x);
        let (before, after) = (left_over(t, candidates), left_over(observations, candidates));
        let pick = observations[n].pick;
        let item = rejection(
            pick,
            "arrival residual exceeds every candidate's support threshold"@,
        );
        no_weight(candidates, pick.id@);
        assert forall|k: int| 0 <= k < t.len() implies #[trigger] t[k] == observations[k] by {}
        if before.contains(x) {
            let i = choose|i: int| 0 <= i < before.len() && before[i] == x;
            assert(after[i] == x);
            let k = choose|k: int|
                0 <= k < t.len() && x == rejection(
                    (#[trigger] t[k]).pick,
                    "arrival residual exceeds every candidate's support threshold"@,
                ) && forall|i: int, a: int|
                    0 <= i < candidates.len() && 0 <= a < candidates[i].assignments@.len()
                        && #[trigger] candidates[i].assignments@[a].observation_id@
                        == t[k].pick.id@ ==> candidates[i].assignments@[a].weight == 0;
            assert(observations[k] == t[k]);
        }
        if after.contains(x) && !before.contains(x) {
            let i = choose|i: int| 0 <= i < after.len() && after[i] == x;
            if i < before.len() {
                assert(before[i] == x);
            }
            assert(x == item);
            assert(observations[n].pick == pick);
        }
        if exists|k: int|
            0 <= k < observations.len() && x == rejection(
                (#[trigger] observations[k]).pick,
                "arrival residual exceeds every candidate's support threshold"@,
            ) && forall|i: int, a: int|
                0 <= i < candidates.len() && 0 <= a < candidates[i].assignments@.len()
                    && #[trigger] candidates[i].assignments@[a].observation_id@
                    == observations[k].pick.id@ ==> candidates[i].assignments@[a].weight == 0 {
            let k = choose|k: int|
                0 <= k < observations.len() && x == rejection(
                    (#[trigger] observations[k]).pick,
                    "arrival residual exceeds every candidate's support threshold"@,
                ) && forall|i: int, a: int|
                    0 <= i < candidates.len() && 0 <= a < candidates[i].assignments@.len()
                        && #[trigger] candidates[i].assignments@[a].observation_id@
                        == observations[k].pick.id@ ==> candidates[i].assignments@[a].weight == 0;
            if k < n {
                assert(t[k] == observations[k]);
                let i = choose|i: int| 0 <= i < before.len() && before[i] == x;
                assert(after[i] == x);
            } else {
                assert(after[after.len() - 1] == x);
            }
        }
    }
}

/// No candidate supports a pick where each gives it no weight.
proof fn no_weight(candidates: Seq<CandidateResult>, id: Seq<char>)
    ensures
        !supported(candidates, id) <==> forall|i: int, a: int|
            0 <= i < candidates.len() && 0 <= a < candidates[i].assignments@.len()
                && #[trigger] candidates[i].assignments@[a].observation_id@ == id
                ==> candidates[i].assignments@[a].weight == 0,
{
    if supported(candidates, id) {
        let i = choose|i: int|
            0 <= i < candidates.len() && weighs((#[trigger] candidates[i]).assignments@, id);
        let v = candidates[i].assignments@;
        let a = choose|a: int|
            0 <= a < v.len() && (#[trigger] v[a]).weight > 0 && v[a].observation_id@ == id;
        assert(candidates[i].assignments@[a].observation_id@ == id);
    } else {
        assert forall|i: int, a: int|
            0 <= i < candidates.len() && 0 <= a < candidates[i].assignments@.len()
                && #[trigger] candidates[i].assignments@[a].observation_id@ == id implies candidates[i].assignments@[a].weight
            == 0 by {
            let v = candidates[i].assignments@;
            if v[a].weight > 0 {
                assert(weighs(v, id));
                assert(supported(candidates, id));
            }
        }
    }
}

/// An event that is held is told why: fewer than two observations, or else
/// fewer than three stations. One with fewer than three fits is told that of
/// the candidates that it lacks.
pub proof fn held_events_are_told_why(
    e: EventResult,
    window: EventWindow,
    observations: Seq<Observation>,
    fits: Seq<Fit>,
    i: int,
)
    requires
        settled(e, window, observations, fits),
        0 <= i < 3,
        e.candidates@[i].fit is None,
    ensures
        e.candidates@[i].warnings@.len() == 1,
        e.candidates@[i].warnings@[0]@ == if observations.len() < 2 {
            "fewer than two usable observations"@
        } else if too_little(observations) {
            "fewer than three stations; source and clock terms are not separable"@
        } else {
            "velocity model bounds produced fewer than three distinct local solutions"@
        },
        e.candidates@[i].covariance.rank == 0,
        e.candidates@[i].covariance.source_sigma.x_m == 0,
        e.candidates@[i].covariance.source_sigma.y_m == 0,
        e.candidates@[i].covariance.source_sigma.depth_m == 0,
        e.candidates@[i].covariance.source_sigma.origin_time_s == 1_000_000_000,
        e.candidates@[i].covariance.condition_number == Some(1u64),
        e.candidates@[i].covariance.positive_definite,
        e.candidates@[i].assignments@.len() == observations.len(),
        e.candidates@[i].station_bias@.len() == names(observed_stations(observations)).len(),
{
    let c = e.candidates@[i];
    observed_differ(observations);
    assert(candidate_at(c, observations, fits, i));
    sorted_items(fits);
    assert(views(c.warnings@).len() == c.warnings@.len());
    assert(views(c.warnings@)[0] == c.warnings@[0]@);
}

/// The worth of fits is told by words of its own, and ranked from located to
/// contradicted.
pub proof fn worths_are_told_apart(s: Status, t: Status)
    ensures
        crate::fits::status_word(s) == crate::fits::status_word(t) ==> s == t,
        status_rank(Status::Located) < status_rank(Status::Degraded) < status_rank(
            Status::Underdetermined,
        ) < status_rank(Status::Contradiction),
        crate::fits::status_word(Status::Located) == "located"@,
        crate::fits::status_word(Status::Degraded) == "degraded"@,
        crate::fits::status_word(Status::Underdetermined) == "underdetermined"@,
        crate::fits::status_word(Status::Contradiction) == "contradiction"@,
{
    reveal_strlit("located");
    reveal_strlit("degraded");
    reveal_strlit("underdetermined");
    reveal_strlit("contradiction");
    assert("located"@.len() != "degraded"@.len());
    assert("located"@.len() != "underdetermined"@.len());
    assert("located"@.len() != "contradiction"@.len());
    assert("degraded"@.len() != "underdetermined"@.len());
    assert("degraded"@.len() != "contradiction"@.len());
    assert("underdetermined"@.len() != "contradiction"@.len());
}

} // verus!
