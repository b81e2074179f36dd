//! Laws of residuals: which arrivals stay with a fit of the network solver, and
//! what is said of it.
use vstd::prelude::*;

use crate::arrivals::distinct_picks;
use crate::association::{all_left, Blueprint};
use crate::epoch::{millis, written};
use crate::fits::note;
use crate::model::Phase;
use crate::network::{bias_at, Pick, PickObservation, PickStatus, SolveContext};
use crate::network_fit::{
    drafted, excessive, is_sifted, late, lock_contradicted, locked, p_count, penalty, settled, slot_list,
    slots_are_stations, stays, staying, trimmed, unused, used, CandidatePick, Draft, Settled,
    Sifted,
};
use crate::outcomes::{attempted, Attempt, Trail};
use crate::ranking::p_arrivals;
use crate::text::views;

verus! {

/// Whether a residual is at most four sigmas, either way.
pub open spec fn within_four_sigmas(o: PickObservation, residual: i64) -> bool {
    -4 * o.sigma_seconds <= residual <= 4 * o.sigma_seconds
}

/// Whether an observation may stay with a fit that leaves it a residual: it is
/// of a locked pick, or the residual is at most four sigmas.
pub open spec fn may_stay(context: SolveContext, o: PickObservation, residual: i64) -> bool {
    context.picks@[o.pick_index as int].status == PickStatus::Locked || within_four_sigmas(
        o,
        residual,
    )
}

/// The picks that stay are those of the observations that do.
proof fn staying_holds(
    context: SolveContext,
    v: Seq<PickObservation>,
    residuals: Seq<i64>,
    k: usize,
)
    requires
        v.len() == residuals.len(),
    ensures
        staying(context, v, residuals).contains(k) <==> exists|i: int|
            0 <= i < v.len() && (#[trigger] v[i]).pick_index == k && may_stay(
                context,
                v[i],
                residuals[i],
            ),
        staying(context, v, residuals).len() <= v.len(),
        staying(context, v, residuals).len() == v.len() <==> forall|i: int|
            0 <= i < v.len() ==> may_stay(context, #[trigger] v[i], residuals[i]),
    decreases v.len(),
{
    if v.len() > 0 {
        let (w, s) = (v.drop_last(), residuals.drop_last());
        let n = v.len() - 1;
        staying_holds(context, w, s, k);
        let (before, after) = (staying(context, w, s), staying(context, v, residuals));
        assert(stays(context, v[n], residuals[n] as int) == may_stay(context, v[n], residuals[n]));
        assert forall|i: int| 0 <= i < n implies #[trigger] w[i] == v[i] && s[i] == residuals[i] by {}
        if before.contains(k) {
            let i = choose|i: int| 0 <= i < before.len() && before[i] == k;
            assert(after[i] == k);
            let m = choose|m: int|
                0 <= m < w.len() && (#[trigger] w[m]).pick_index == k && may_stay(
                    context,
                    w[m],
                    s[m],
                );
            assert(v[m].pick_index == k);
        }
        if after.contains(k) && !before.contains(k) {
            let i = choose|i: int| 0 <= i < after.len() && after[i] == k;
            if i < before.len() {
                assert(before[i] == k);
            }
            assert(v[n].pick_index == k);
        }
        if exists|i: int|
            0 <= i < v.len() && (#[trigger] v[i]).pick_index == k && may_stay(
                context,
                v[i],
                residuals[i],
            ) {
            let i = choose|i: int|
                0 <= i < v.len() && (#[trigger] v[i]).pick_index == k && may_stay(
                    context,
                    v[i],
                    residuals[i],
                );
            if i < n {
                assert(w[i].pick_index == k);
                let m = choose|m: int| 0 <= m < before.len() && before[m] == k;
                assert(after[m] == k);
            } else {
                assert(after[after.len() - 1] == k);
            }
        }
        if after.len() == v.len() {
            assert forall|i: int| 0 <= i < v.len() implies may_stay(
                context,
                #[trigger] v[i],
                residuals[i],
            ) by {
                if i < n {
                    assert(may_stay(context, w[i], s[i]));
                }
            }
        }
        if forall|i: int| 0 <= i < v.len() ==> may_stay(context, #[trigger] v[i], residuals[i]) {
            assert(may_stay(context, v[n], residuals[n]));
            assert forall|i: int| 0 <= i < w.len() implies may_stay(
                context,
                #[trigger] w[i],
                s[i],
            ) by {
                assert(may_stay(context, v[i], residuals[i]));
            }
        }
    }
}

/// What stays are the observations of the picks that do, and of locked ones.
proof fn trimmed_holds(
    context: SolveContext,
    v: Seq<PickObservation>,
    accepted: Seq<usize>,
    o: PickObservation,
)
    ensures
        trimmed(context, v, accepted).contains(o) <==> v.contains(o) && (accepted.contains(
            o.pick_index,
        ) || locked(context, o)),
    decreases v.len(),
{
    if v.len() > 0 {
        let (w, last) = (v.drop_last(), v.last());
        trimmed_holds(context, w, accepted, o);
        let (before, after) = (trimmed(context, w, accepted), trimmed(context, v, accepted));
        if w.contains(o) {
            let i = choose|i: int| 0 <= i < w.len() && w[i] == o;
            assert(v[i] == o);
        }
        if v.contains(o) && o != last {
            let i = choose|i: int| 0 <= i < v.len() && v[i] == o;
            assert(w[i] == o);
        }
        assert(v[v.len() - 1] == last);
        if before.contains(o) {
            let i = choose|i: int| 0 <= i < before.len() && before[i] == o;
            assert(after[i] == o);
        }
        if after.contains(o) && o != last {
            let i = choose|i: int| 0 <= i < after.len() && after[i] == o;
            assert(before[i] == o);
        }
        if accepted.contains(last.pick_index) || locked(context, last) {
            assert(after[after.len() - 1] == last);
        }
    }
}

/// What is rejected are the observations of the picks that do not stay.
proof fn late_holds(
    v: Seq<PickObservation>,
    accepted: Seq<usize>,
    o: PickObservation,
    reason: Seq<char>,
)
    ensures
        late(v, accepted).contains((o, reason)) <==> v.contains(o) && !accepted.contains(
            o.pick_index,
        ) && reason == "arrival_residual_gt_4sigma"@,
    decreases v.len(),
{
    if v.len() > 0 {
        let (w, last) = (v.drop_last(), v.last());
        late_holds(w, accepted, o, reason);
        let (before, after) = (late(w, accepted), late(v, accepted));
        if w.contains(o) {
            let i = choose|i: int| 0 <= i < w.len() && w[i] == o;
            assert(v[i] == o);
        }
        if v.contains(o) && o != last {
            let i = choose|i: int| 0 <= i < v.len() && v[i] == o;
            assert(w[i] == o);
        }
        assert(v[v.len() - 1] == last);
        if before.contains((o, reason)) {
            let i = choose|i: int| 0 <= i < before.len() && before[i] == (o, reason);
            assert(after[i] == (o, reason));
        }
        if after.contains((o, reason)) && !before.contains((o, reason)) {
            let i = choose|i: int| 0 <= i < after.len() && after[i] == (o, reason);
            if i < before.len() {
                assert(before[i] == (o, reason));
            }
        }
        if !accepted.contains(last.pick_index) {
            assert(after[after.len() - 1] == (last, "arrival_residual_gt_4sigma"@));
        }
    }
}

/// In a list of distinct picks the picks that stay tell which observations do.
proof fn stays_by_place(
    context: SolveContext,
    v: Seq<PickObservation>,
    residuals: Seq<i64>,
    i: int,
)
    requires
        distinct_picks(v),
        v.len() == residuals.len(),
        0 <= i < v.len(),
    ensures
        staying(context, v, residuals).contains(v[i].pick_index) <==> may_stay(
            context,
            v[i],
            residuals[i],
        ),
{
    let k = v[i].pick_index;
    staying_holds(context, v, residuals, k);
    if exists|m: int|
        0 <= m < v.len() && (#[trigger] v[m]).pick_index == k && may_stay(
            context,
            v[m],
            residuals[m],
        ) {
        let m = choose|m: int|
            0 <= m < v.len() && (#[trigger] v[m]).pick_index == k && may_stay(
                context,
                v[m],
                residuals[m],
            );
        if m < i {
            assert(v[m].pick_index != v[i].pick_index);
        } else if i < m {
            assert(v[i].pick_index != v[m].pick_index);
        }
    }
}

/// Of the observations that went into a first fit, those go into the next that
/// are of locked picks or at most four sigmas off. There is another fit where
/// some went out, and three stations and four observations are left.
pub proof fn first_fits_sift_by_four_sigmas(
    context: SolveContext,
    v: Seq<PickObservation>,
    residuals: Seq<i64>,
    r: Sifted,
    i: int,
)
    requires
        distinct_picks(v),
        v.len() == residuals.len(),
        is_sifted(context, v, residuals, r),
        0 <= i < v.len(),
    ensures
        r.observations@.contains(v[i]) <==> may_stay(context, v[i], residuals[i]),
        forall|o: PickObservation| #[trigger] r.observations@.contains(o) ==> v.contains(o),
        r.changed <==> exists|k: int|
            0 <= k < v.len() && !may_stay(context, #[trigger] v[k], residuals[k]),
        r.refit <==> r.changed && slot_list(r.observations@).len() >= 3 && r.observations@.len() >= 4,
{
    let accepted = staying(context, v, residuals);
    stays_by_place(context, v, residuals, i);
    staying_holds(context, v, residuals, 0);
    trimmed_holds(context, v, accepted, v[i]);
    assert(v.contains(v[i]));
    assert forall|o: PickObservation| #[trigger] r.observations@.contains(o) implies v.contains(
        o,
    ) by {
        trimmed_holds(context, v, accepted, o);
    }
}

/// Of the observations that went into the last fit, those are accepted that are
/// of locked picks or at most four sigmas off; all others that went into the
/// first are rejected for their residuals.
pub proof fn last_fits_settle_by_four_sigmas(
    context: SolveContext,
    draft: Draft,
    sifted: Sifted,
    residuals: Seq<i64>,
    x: int,
    y: int,
    r: Settled,
    i: int,
    o: PickObservation,
)
    requires
        distinct_picks(sifted.observations@),
        sifted.observations@.len() == residuals.len(),
        settled(context, draft, sifted, residuals, x, y, r),
        0 <= i < residuals.len(),
        draft.observations@.contains(o),
        forall|p: PickObservation|
            #![trigger sifted.observations@.contains(p)]
            sifted.observations@.contains(p) ==> draft.observations@.contains(p),
        distinct_picks(draft.observations@),
    ensures
        r.observations@.contains(sifted.observations@[i]) <==> may_stay(
            context,
            sifted.observations@[i],
            residuals[i],
        ),
        forall|p: PickObservation| #[trigger]
            r.observations@.contains(p) ==> sifted.observations@.contains(p),
        all_left(r.rejected@).contains((o, "arrival_residual_gt_4sigma"@)) <==> all_left(
            draft.rejected@,
        ).contains((o, "arrival_residual_gt_4sigma"@)) || !r.observations@.contains(o),
{
    let v = sifted.observations@;
    let accepted = staying(context, v, residuals);
    stays_by_place(context, v, residuals, i);
    trimmed_holds(context, v, accepted, v[i]);
    assert(v.contains(v[i]));
    assert forall|p: PickObservation| #[trigger] r.observations@.contains(p) implies v.contains(
        p,
    ) by {
        trimmed_holds(context, v, accepted, p);
    }
    let reason = "arrival_residual_gt_4sigma"@;
    late_holds(draft.observations@, accepted, o, reason);
    let (a, b) = (all_left(draft.rejected@), late(draft.observations@, accepted));
    pairs_joined(a, b, (o, reason));
    trimmed_holds(context, v, accepted, o);
    assert(r.observations@.contains(o) <==> accepted.contains(o.pick_index)) by {
        if r.observations@.contains(o) {
            let k = choose|k: int| 0 <= k < v.len() && v[k] == o;
            stays_by_place(context, v, residuals, k);
        }
        if accepted.contains(o.pick_index) {
            staying_holds(context, v, residuals, o.pick_index);
            let k = choose|k: int|
                0 <= k < v.len() && (#[trigger] v[k]).pick_index == o.pick_index && may_stay(
                    context,
                    v[k],
                    residuals[k],
                );
            assert(v.contains(v[k]));
            let d = draft.observations@;
            assert(d.contains(v[k]));
            let p = choose|p: int| 0 <= p < d.len() && d[p] == v[k];
            let q = choose|q: int| 0 <= q < d.len() && d[q] == o;
            if p < q {
                assert(d[p].pick_index != d[q].pick_index);
            } else if q < p {
                assert(d[q].pick_index != d[p].pick_index);
            }
        }
    }
}

/// What is in a list that was made of two.
proof fn pairs_joined(
    a: Seq<(PickObservation, Seq<char>)>,
    b: Seq<(PickObservation, Seq<char>)>,
    x: (PickObservation, Seq<char>),
)
    ensures
        (a + b).contains(x) <==> a.contains(x) || b.contains(x),
{
    let c = a + b;
    if a.contains(x) {
        let i = choose|i: int| 0 <= i < a.len() && a[i] == x;
        assert(c[i] == x);
    }
    if b.contains(x) {
        let i = choose|i: int| 0 <= i < b.len() && b[i] == x;
        assert(c[a.len() + i] == x);
    }
    if c.contains(x) {
        let i = choose|i: int| 0 <= i < c.len() && c[i] == x;
        if i < a.len() {
            assert(a[i] == x);
        } else {
            assert(b[i - a.len()] == x);
        }
    }
}

/// What is in a list of texts that was made of two.
proof fn texts_joined(a: Seq<Seq<char>>, b: Seq<Seq<char>>, x: Seq<char>)
    ensures
        (a + b).contains(x) <==> a.contains(x) || b.contains(x),
{
    let c = a + b;
    if a.contains(x) {
        let i = choose|i: int| 0 <= i < a.len() && a[i] == x;
        assert(c[i] == x);
    }
    if b.contains(x) {
        let i = choose|i: int| 0 <= i < b.len() && b[i] == x;
        assert(c[a.len() + i] == x);
    }
    if c.contains(x) {
        let i = choose|i: int| 0 <= i < c.len() && c[i] == x;
        if i < a.len() {
            assert(a[i] == x);
        } else {
            assert(b[i - a.len()] == x);
        }
    }
}

/// What is in a note.
proof fn note_holds(due: bool, text: Seq<char>, w: Seq<char>)
    ensures
        note(due, text).contains(w) <==> due && w == text,
{
    if due {
        assert(note(due, text)[0] == text);
    }
}

/// The P arrivals among observations are counted.
proof fn p_arrivals_are_counted(picks: Seq<Pick>, v: Seq<PickObservation>)
    ensures
        p_count(picks, v) == v.filter(
            |o: PickObservation| picks[o.pick_index as int].phase == Phase::P,
        ).len(),
    decreases v.len(),
{
    reveal(Seq::filter);
    if v.len() > 0 {
        p_arrivals_are_counted(picks, v.drop_last());
    }
}

/// The P arrivals among reports are counted.
pub proof fn reported_p_arrivals_are_counted(v: Seq<CandidatePick>)
    ensures
        p_arrivals(v) == v.filter(|c: CandidatePick| c.phase == Phase::P).len(),
    decreases v.len(),
{
    reveal(Seq::filter);
    if v.len() > 0 {
        reported_p_arrivals_are_counted(v.drop_last());
    }
}

/// A hypothesis is warned of before it is fitted where it has fewer than three
/// stations or fewer than three P arrivals.
pub proof fn scarce_hypotheses_are_warned_of(
    context: SolveContext,
    b: Blueprint,
    observations: Seq<PickObservation>,
    d: Draft,
    w: Seq<char>,
)
    requires
        drafted(context, b, observations, d),
    ensures
        d.stations@ == slot_list(d.observations@),
        views(d.warnings@).contains(w) <==> {
            ||| d.stations@.len() < 3 && w == "fewer_than_three_stations"@
            ||| d.observations@.filter(
                |o: PickObservation| context.picks@[o.pick_index as int].phase == Phase::P,
            ).len() < 3 && w == "fewer_than_three_p_arrivals"@
        },
{
    let p = p_count(context.picks@, d.observations@);
    p_arrivals_are_counted(context.picks@, d.observations@);
    let (x, y) = (
        note(d.stations@.len() < 3, "fewer_than_three_stations"@),
        note(p < 3, "fewer_than_three_p_arrivals"@),
    );
    note_holds(d.stations@.len() < 3, "fewer_than_three_stations"@, w);
    note_holds(p < 3, "fewer_than_three_p_arrivals"@, w);
    texts_joined(x, y, w);
}

/// A fitted hypothesis keeps its warnings, and is warned of where it has no
/// more observations than parameters (a place, a time, and a clock for each
/// station but the first), where it is outside of the model, and where a locked
/// arrival is more than four sigmas off; and of nothing else.
pub proof fn fitted_hypotheses_are_warned_of(
    context: SolveContext,
    draft: Draft,
    sifted: Sifted,
    residuals: Seq<i64>,
    x: int,
    y: int,
    r: Settled,
    w: Seq<char>,
)
    requires
        settled(context, draft, sifted, residuals, x, y, r),
        sifted.observations@.len() == residuals.len(),
    ensures
        r.stations@ == slot_list(r.observations@),
        views(r.warnings@).contains(w) <==> {
            let n = r.observations@.len() as int;
            let m = r.stations@.len() as int;
            let model = context.model;
            ||| views(draft.warnings@).contains(w)
            ||| (if m == 0 {
                n <= 3
            } else {
                n <= m + 2
            }) && w == "no_positive_degrees_of_freedom"@
            ||| (x < model.x_min_km || x > model.x_max_km || y < model.y_min_km || y
                > model.y_max_km) && w == "solution_outside_velocity_model"@
            ||| (exists|i: int|
                0 <= i < residuals.len() && context.picks@[(
                #[trigger] sifted.observations@[i]).pick_index as int].status == PickStatus::Locked
                    && !within_four_sigmas(sifted.observations@[i], residuals[i])) && w
                == "locked_arrival_residual_gt_4sigma"@
        },
{
    let v = r.observations@;
    let s = sifted.observations@;
    let free = crate::network_fit::no_freedom(v.len(), slot_list(v).len());
    let out = !context.model.holds(x, y);
    let off = lock_contradicted(context, s, residuals);
    let a = note(free, "no_positive_degrees_of_freedom"@);
    let b = note(out, "solution_outside_velocity_model"@);
    let c = note(off, "locked_arrival_residual_gt_4sigma"@);
    note_holds(free, "no_positive_degrees_of_freedom"@, w);
    note_holds(out, "solution_outside_velocity_model"@, w);
    note_holds(off, "locked_arrival_residual_gt_4sigma"@, w);
    texts_joined(a, b, w);
    texts_joined(a + b, c, w);
    texts_joined(views(draft.warnings@), a + b + c, w);
    if off {
        let i = choose|i: int|
            0 <= i < s.len() && locked(context, #[trigger] s[i]) && excessive(
                s[i],
                residuals[i] as int,
            );
        assert(!within_four_sigmas(s[i], residuals[i]));
    }
    if exists|i: int|
        0 <= i < residuals.len() && context.picks@[(#[trigger] s[i]).pick_index as int].status
            == PickStatus::Locked && !within_four_sigmas(s[i], residuals[i]) {
        let i = choose|i: int|
            0 <= i < residuals.len() && context.picks@[(#[trigger] s[i]).pick_index as int].status
                == PickStatus::Locked && !within_four_sigmas(s[i], residuals[i]);
        assert(locked(context, s[i]) && excessive(s[i], residuals[i] as int));
    }
}

/// The stations of some observations are each there once, in rising order.
pub proof fn stations_are_listed_once(v: Seq<PickObservation>, s: usize)
    ensures
        slot_list(v).contains(s) <==> exists|i: int|
            0 <= i < v.len() && (#[trigger] v[i]).station_index == s,
        forall|i: int, j: int|
            0 <= i < j < slot_list(v).len() ==> (#[trigger] slot_list(v)[i])
                < #[trigger] slot_list(v)[j],
{
    slots_are_stations(v);
}

/// A report of an arrival that was used tells how far its time is from the
/// predicted one, and what that adds to the misfit, to the thousandth, and when
/// it was due by the clock of its station.
pub proof fn used_arrivals_are_told(
    context: SolveContext,
    o: PickObservation,
    prediction: int,
    contribution: int,
    c: CandidatePick,
)
    requires
        used(context, o, prediction, contribution, c),
        i64::MIN * 100 <= o.observed_epoch - prediction <= i64::MAX * 100,
        i64::MIN * 100 <= contribution <= i64::MAX * 100,
    ensures
        ({
            let pick = context.picks@[o.pick_index as int];
            let bias = bias_at(context.segments@, pick.station_id@, o.observed_epoch as int);
            let due = millis(prediction + bias);
            &&& c.pick_id@ == pick.pick_id@
            &&& c.station_id@ == pick.station_id@
            &&& c.phase == pick.phase
            &&& c.observed_time@ == pick.time@
            &&& c.sigma_seconds == o.sigma_seconds
            &&& c.confidence == o.confidence
            &&& c.locked == (pick.status == PickStatus::Locked)
            &&& c.accepted && c.reason is None
            &&& c.residual_seconds matches Some(s) && -500_000 <= s - (o.observed_epoch
                - prediction) <= 500_000
            &&& c.contribution matches Some(s) && -500_000 <= s - contribution <= 500_000
            &&& written(due, c.predicted_time@)
            &&& -500_000 <= due * 1_000_000 - (prediction + bias) <= 500_000
        }),
{
    crate::laws_places::thousandths_are_nearest(o.observed_epoch - prediction);
    crate::laws_places::thousandths_are_nearest(contribution);
    let pick = context.picks@[o.pick_index as int];
    let bias = bias_at(context.segments@, pick.station_id@, o.observed_epoch as int);
    crate::laws_places::thousandths_are_nearest(prediction + bias);
}

/// A report of an arrival that was not used tells why, and no numbers.
pub proof fn unused_arrivals_are_told(
    context: SolveContext,
    o: PickObservation,
    reason: Seq<char>,
    c: CandidatePick,
)
    requires
        unused(context, (o, reason), c),
    ensures
        c.pick_id@ == context.picks@[o.pick_index as int].pick_id@,
        c.station_id@ == context.picks@[o.pick_index as int].station_id@,
        c.observed_time@ == context.picks@[o.pick_index as int].time@,
        c.predicted_time@ == "not_estimated"@,
        c.residual_seconds is None && c.contribution is None,
        !c.accepted,
        c.reason is Some && c.reason->0@ == reason,
{
}

/// A hypothesis is solved exactly where three stations and three P arrivals
/// belong to it and its fit has numbers; only then does it have a place.
pub proof fn hypotheses_are_solved_with_three_of_each(
    context: SolveContext,
    b: Blueprint,
    observations: Seq<PickObservation>,
    a: Attempt,
    t: Trail,
)
    requires
        attempted(context, b, observations, a, t),
    ensures
        ({
            let v = crate::association::taken(context, b@, observations);
            &&& t.record.solved <==> a.numbers is Some && slot_list(v).len() >= 3 && v.filter(
                |o: PickObservation| context.picks@[o.pick_index as int].phase == Phase::P,
            ).len() >= 3
            &&& t.outcome.place is Some <==> t.record.solved
            &&& !t.record.solved ==> t.outcome.fitted.accepted@.len() == 0
            &&& t.record.event_key@ == b.event_key@
        }),
{
    p_arrivals_are_counted(
        context.picks@,
        crate::association::taken(context, b@, observations),
    );
}

/// A hypothesis counts the arrivals that it rejects for their residuals: all
/// that it rejects beyond those that it left from the start.
pub proof fn residual_rejections_are_counted(
    context: SolveContext,
    draft: Draft,
    sifted: Sifted,
    residuals: Seq<i64>,
    x: int,
    y: int,
    r: Settled,
)
    requires
        settled(context, draft, sifted, residuals, x, y, r),
    ensures
        r.rejected@.len() == draft.rejected@.len() + r.residual_rejections,
        forall|i: int|
            0 <= i < draft.rejected@.len() ==> (#[trigger] r.rejected@[i]).observation
                == draft.rejected@[i].observation && r.rejected@[i].reason@
                == draft.rejected@[i].reason@,
{
    let (a, b) = (all_left(draft.rejected@), all_left(r.rejected@));
    assert(a.len() == draft.rejected@.len() && b.len() == r.rejected@.len());
    assert forall|i: int| 0 <= i < draft.rejected@.len() implies (
    #[trigger] r.rejected@[i]).observation == draft.rejected@[i].observation
        && r.rejected@[i].reason@ == draft.rejected@[i].reason@ by {
        assert(b[i] == a[i]);
        assert(b[i] == crate::association::left(r.rejected@[i]));
        assert(a[i] == crate::association::left(draft.rejected@[i]));
    }
}

/// A hypothesis that is not solved is warned of for what it lacks; where it
/// lacks nothing, for having no unique solution.
pub proof fn unsolved_hypotheses_are_warned_of(
    context: SolveContext,
    b: Blueprint,
    observations: Seq<PickObservation>,
    a: Attempt,
    t: Trail,
    w: Seq<char>,
)
    requires
        attempted(context, b, observations, a, t),
        !t.record.solved,
    ensures
        ({
            let v = crate::association::taken(context, b@, observations);
            let stations = slot_list(v).len();
            let p = v.filter(
                |o: PickObservation| context.picks@[o.pick_index as int].phase == Phase::P,
            ).len();
            views(t.outcome.fitted.warnings@).contains(w) <==> {
                ||| stations < 3 && w == "fewer_than_three_stations"@
                ||| p < 3 && w == "fewer_than_three_p_arrivals"@
                ||| stations >= 3 && p >= 3 && w
                    == "rank_deficient_or_non_positive_definite_hessian"@
            }
        }),
{
    let v = crate::association::taken(context, b@, observations);
    let n = slot_list(v).len();
    let p = p_count(context.picks@, v);
    p_arrivals_are_counted(context.picks@, v);
    let hessian = "rank_deficient_or_non_positive_definite_hessian"@;
    let (x, y, z) = (
        note(n < 3, "fewer_than_three_stations"@),
        note(p < 3, "fewer_than_three_p_arrivals"@),
        note(n >= 3 && p >= 3, hessian),
    );
    note_holds(n < 3, "fewer_than_three_stations"@, w);
    note_holds(p < 3, "fewer_than_three_p_arrivals"@, w);
    note_holds(n >= 3 && p >= 3, hessian, w);
    texts_joined(x, y, w);
    texts_joined(x + y, z, w);
}

/// Each arrival that a hypothesis rejects for its residual counts fifty against
/// it, and doing without a station a hundred.
pub proof fn rejections_count_against_a_hypothesis(n: int, omitted: bool)
    ensures
        penalty(0, false) == 0,
        penalty(n + 1, omitted) == penalty(n, omitted) + 50,
        penalty(n, true) == penalty(n, false) + 100,
{
}

} // verus!
