//! Laws of places: when a candidate of the network solver can be relied on,
//! and how its numbers are rounded.
use vstd::prelude::*;

use crate::association::Blueprint;
use crate::candidate::{placed, slot_parameter, rounded, Candidate, Fitted, Place};
use crate::epoch::millis;
use crate::network::{SolveContext, VelocityModel};
use crate::ranking::{conditional, doubtful, doubts_are_doubtful};
use crate::text::{has, views};

verus! {

/// Whether two numbers are less than 0.3 km apart.
pub open spec fn within_300_m(a: int, b: int) -> bool {
    -300_000_000 < a - b < 300_000_000
}

/// A candidate with a place has the warning of the edge exactly where it is
/// less than 0.3 km from the western, the eastern, the southern or the northern
/// side of the model, or was warned of before; it is then conditional.
pub proof fn places_near_a_side_are_conditional(
    context: SolveContext,
    b: Blueprint,
    f: Fitted,
    p: Place,
    c: Candidate,
)
    requires
        placed(context, b, f, p, c),
    ensures
        ({
            let m = context.model;
            let near = within_300_m(p.x as int, m.x_min_km as int) || within_300_m(
                p.x as int,
                m.x_max_km as int,
            ) || within_300_m(p.y as int, m.y_min_km as int) || within_300_m(
                p.y as int,
                m.y_max_km as int,
            );
            let wide = p.azimuth_gap matches Some(gap) && gap > 180_000;
            &&& views(c.warnings@).contains("solution_on_velocity_model_boundary"@) <==> near
                || views(f.warnings@).contains("solution_on_velocity_model_boundary"@)
            &&& views(c.warnings@).contains("azimuthal_gap_greater_than_180_degrees"@) <==> wide
                || views(f.warnings@).contains("azimuthal_gap_greater_than_180_degrees"@)
            &&& near ==> c.status@ == "conditional"@
            &&& wide ==> c.status@ == "conditional"@
            &&& c.status@ == "reliable"@ ==> !near && !wide
        }),
{
    reveal_strlit("solution_on_velocity_model_boundary");
    reveal_strlit("azimuthal_gap_greater_than_180_degrees");
    reveal_strlit("conditional");
    reveal_strlit("reliable");
    doubts_are_doubtful();
    let (edge, gap) = (
        "solution_on_velocity_model_boundary"@,
        "azimuthal_gap_greater_than_180_degrees"@,
    );
    assert(edge.len() != gap.len());
    assert("conditional"@.len() != "reliable"@.len());
    let m = context.model;
    let (v, w) = (views(f.warnings@), views(c.warnings@));
    let near = within_300_m(p.x as int, m.x_min_km as int) || within_300_m(
        p.x as int,
        m.x_max_km as int,
    ) || within_300_m(p.y as int, m.y_min_km as int) || within_300_m(
        p.y as int,
        m.y_max_km as int,
    );
    let wide = p.azimuth_gap matches Some(gap) && gap > 180_000;
    let tail = crate::fits::note(wide, gap) + crate::fits::note(near, edge);
    assert(w == v + tail);
    appended(v, tail, edge);
    appended(v, tail, gap);
    if near {
        assert(tail[tail.len() - 1] == edge);
        assert(tail.contains(edge));
        let i = choose|i: int| 0 <= i < w.len() && w[i] == edge;
        assert(doubtful(w[i]));
    }
    if wide {
        assert(tail[0] == gap);
        assert(tail.contains(gap));
        let i = choose|i: int| 0 <= i < w.len() && w[i] == gap;
        assert(doubtful(w[i]));
    }
}

/// What is in a list that was made of two.
proof fn appended(a: Seq<Seq<char>>, b: Seq<Seq<char>>, x: Seq<char>)
    ensures
        (a + b).contains(x) <==> a.contains(x) || b.contains(x),
{
    let c = a + b;
    if a.contains(x) {
        let i = choose|i: int| 0 <= i < a.len() && a[i] == x;
        assert(c[i] == x);
    }
    if b.contains(x) {
        let i = choose|i: int| 0 <= i < b.len() && b[i] == x;
        assert(c[a.len() + i] == x);
    }
    if c.contains(x) {
        let i = choose|i: int| 0 <= i < c.len() && c[i] == x;
        if i < a.len() {
            assert(a[i] == x);
        } else {
            assert(b[i - a.len()] == x);
        }
    }
}

/// A candidate with a place keeps every warning of its fit, and is conditional
/// exactly where one of its warnings tells of a doubt.
pub proof fn doubts_make_candidates_conditional(
    context: SolveContext,
    b: Blueprint,
    f: Fitted,
    p: Place,
    c: Candidate,
    w: Seq<char>,
)
    requires
        placed(context, b, f, p, c),
    ensures
        views(f.warnings@).contains(w) ==> views(c.warnings@).contains(w),
        c.status@ == "conditional"@ || c.status@ == "reliable"@,
        views(c.warnings@).contains(w) && (has(w, "out_of"@) || has(w, "outside"@) || has(
            w,
            "boundary"@,
        ) || has(w, "rank"@) || has(w, "fewer"@) || has(w, "not_identifiable"@) || has(
            w,
            "azimuthal_gap"@,
        ) || has(w, "no_positive_degrees"@)) ==> c.status@ == "conditional"@,
        (forall|i: int| 0 <= i < c.warnings@.len() ==> !told_doubt((#[trigger] c.warnings@[i])@))
            ==> c.status@ == "reliable"@,
{
    let notes = views(c.warnings@);
    let tail = crate::ranking::place_notes(
        context.model,
        p.x as int,
        p.y as int,
        p.azimuth_gap,
    );
    appended(views(f.warnings@), tail, w);
    if notes.contains(w) && told_doubt(w) {
        let i = choose|i: int| 0 <= i < notes.len() && notes[i] == w;
        assert(doubtful(notes[i]));
    }
    if forall|i: int| 0 <= i < c.warnings@.len() ==> !told_doubt((#[trigger] c.warnings@[i])@) {
        assert(!conditional(notes)) by {
            if conditional(notes) {
                let i = choose|i: int| 0 <= i < notes.len() && doubtful(#[trigger] notes[i]);
                assert(!told_doubt(c.warnings@[i]@));
            }
        }
    }
}

/// Whether a warning tells of a doubt.
pub open spec fn told_doubt(w: Seq<char>) -> bool {
    has(w, "out_of"@) || has(w, "outside"@) || has(w, "boundary"@) || has(w, "rank"@) || has(
        w,
        "fewer"@,
    ) || has(w, "not_identifiable"@) || has(w, "azimuthal_gap"@) || has(w, "no_positive_degrees"@)
}

/// Numbers are rounded to the nearest thousandth, and halves away from zero.
pub proof fn thousandths_are_nearest(v: int)
    ensures
        rounded(v) % 1_000_000 == 0,
        -500_000 <= rounded(v) - v <= 500_000,
        v >= 0 ==> rounded(v) - v > -500_000,
        v < 0 ==> rounded(v) - v < 500_000,
        rounded(-v) == -rounded(v),
{
    let m = millis(v);
    if v >= 0 {
        assert(m == (v + 500_000) / 1_000_000);
        if v > 0 {
            assert(millis(-v) == -((500_000 + v) / 1_000_000));
        }
    } else {
        assert(m == -((500_000 - v) / 1_000_000));
        assert(millis(-v) == (500_000 - v) / 1_000_000);
    }
}

/// A candidate with a place tells of it to the thousandth, counts the arrivals
/// that it uses by their phases, and has a clock for each of its stations, of
/// which the first is the reference and has no sigma.
pub proof fn places_are_told(
    context: SolveContext,
    b: Blueprint,
    f: Fitted,
    p: Place,
    c: Candidate,
    i: int,
)
    requires
        placed(context, b, f, p, c),
        0 <= i < f.stations@.len(),
    ensures
        c.x_km is Some && c.y_km is Some && c.origin_time is Some,
        -500_000 <= c.x_km->0 - p.x <= 500_000,
        -500_000 <= c.y_km->0 - p.y <= 500_000,
        c.station_count == f.stations@.len(),
        c.p_count + c.s_count == f.accepted@.len(),
        c.azimuth_gap == p.azimuth_gap,
        c.accepted_picks == f.accepted,
        c.rejected_picks == f.rejected,
        c.event_key@ == b.event_key@,
        c.clock_estimates@.len() == f.stations@.len(),
        c.clock_estimates@[i].station_id@
            == context.stations@[f.stations@[i] as int].station_id@,
        c.clock_estimates@[i].reference <==> i == 0,
        -500_000 <= c.clock_estimates@[i].estimated_residual_seconds - p.clocks@[i].residual
            <= 500_000,
        i == 0 ==> c.clock_estimates@[i].sigma_seconds is None,
        i > 0 ==> (c.clock_estimates@[i].sigma_seconds is Some <==> p.clocks@[i].sigma is Some),
        i > 0 && p.clocks@[i].sigma is Some ==> -500_000 <= c.clock_estimates@[i].sigma_seconds->0
            - p.clocks@[i].sigma->0 <= 500_000,
{
    thousandths_are_nearest(p.x as int);
    thousandths_are_nearest(p.y as int);
    thousandths_are_nearest(p.clocks@[i].residual as int);
    assert(crate::candidate::estimated(
        context,
        f.stations@[i],
        p.clocks@[i],
        i,
        c.clock_estimates@[i],
    ));
    if p.clocks@[i].sigma is Some {
        thousandths_are_nearest(p.clocks@[i].sigma->0 as int);
    }
}

/// P waves go at the speed of P waves, and S waves at that of S waves.
pub proof fn waves_have_their_speeds(m: VelocityModel, x: int, y: int)
    ensures
        m.speed(crate::model::Phase::P) == m.vp_kms,
        m.speed(crate::model::Phase::S) == m.vs_kms,
        m.holds(x, y) <==> m.x_min_km <= x && x <= m.x_max_km && m.y_min_km <= y && y <= m.y_max_km,
{
}

/// A candidate without a place tells of none: no arrival is used or counted,
/// and its warnings are those of its hypothesis.
pub proof fn candidates_without_a_place_count_nothing(b: Blueprint, f: Fitted, c: Candidate)
    requires
        crate::candidate::bare(b, f, c),
    ensures
        c.x_km is None && c.y_km is None && c.origin_time is None && c.azimuth_gap is None
            && c.rms_residual_seconds is None,
        c.station_count == 0 && c.p_count == 0 && c.s_count == 0,
        c.clock_estimates@.len() == 0 && c.covariance@.len() == 0,
        c.status@ == "underdetermined"@,
        c.warnings == f.warnings,
        c.accepted_picks == f.accepted,
        c.rejected_picks == f.rejected,
        c.event_key@ == b.event_key@,
        c.score_key == f.score_key,
{
}

/// The covariance of a candidate is of its place and its time: the corner of
/// that of its fit, given row by row.
pub proof fn covariances_are_of_place_and_time(
    context: SolveContext,
    b: Blueprint,
    f: Fitted,
    p: Place,
    c: Candidate,
    i: int,
    j: int,
)
    requires
        placed(context, b, f, p, c),
        0 <= i < 3,
        0 <= j < 3,
    ensures
        views(c.covariance_labels@) == seq!["x_km"@, "y_km"@, "origin_seconds"@],
        c.covariance@.len() == 3,
        c.covariance@[i]@.len() == 3,
        c.covariance@[i]@[j] == p.covariance@[i * p.side + j],
        c.depth_km == 0,
{
}

/// The clock of each station of a fit but the first has a parameter behind the
/// place and the time, where the fit has so many.
pub proof fn clocks_come_behind_place_and_time(slot: int, dimension: int)
    ensures
        slot_parameter(0, dimension) is None,
        0 < slot < dimension - 2 ==> slot_parameter(slot, dimension) == Some(3 + (slot - 1)),
        slot >= dimension - 2 ==> slot_parameter(slot, dimension) is None,
{
}

} // verus!
