//! The window solver as a whole: from an input, and the fits that were made
//! for its windows, to the events.
use vstd::prelude::*;

use crate::cluster::{climbing, Cluster};
use crate::fits::{
    failure, fits_wf, left_over, locate_window, made, settled, trouble, EventResult, Fit,
};
use crate::locator::{all_observed, gather, unusable, usable};
use crate::model::{Pick, SolverInput};
use crate::planner::{
    all_rejected, by_time, full, full_ones, input_error, list_rejections, listed,
    multi_station, numbered, order_reason, plan_steps, plan_windows, planned, put_by_time,
    split_clusters, starts_first,
};
use crate::precheck::drops;
use crate::solver_types::{rejections, EventWindow, Observation, RejectedPick, Rejection};
use crate::text::text_le_total;
use crate::windows::{
    apart, contents, entered_is, event_key, event_label, locks_applied,
    locks_keep_picks_apart, locks_keep_windows, place_of, place_of_is, released, released_is,
    target, target_is, tidy, window_over, Assigned, Window,
};

verus! {

/// Windows whose picks are all below a position.
pub open spec fn within(ws: Seq<Window>, n: int) -> bool {
    forall|i: int, y: usize| 0 <= i < ws.len() && #[trigger] ws[i].picks.contains(y) ==> y < n
}

/// Locks bring in picks of the input only.
proof fn locks_keep_within(
    picks: Seq<Pick>,
    s: Assigned,
    locked: Seq<crate::model::Lock>,
    n: int,
)
    requires
        picks.len() <= usize::MAX,
        tidy(s.windows),
        within(s.windows, picks.len() as int),
    ensures
        within(locks_applied(picks, s, locked, n).windows, picks.len() as int),
    decreases n,
{
    if n > 0 {
        locks_keep_within(picks, s, locked, n - 1);
        locks_keep_windows(picks, s, locked, n - 1);
        let before = locks_applied(picks, s, locked, n - 1);
        let after = locks_applied(picks, s, locked, n).windows;
        let lock = locked[n - 1];
        place_of_is(picks, lock.pick_id@);
        let k = place_of(picks, lock.pick_id@);
        if k < picks.len() {
            released_is(before.windows, k as usize);
            let ws = released(before.windows, k as usize);
            let t = picks[k].corrected_time as int;
            if ws.len() > 0 {
                target_is(ws, lock.event_key@, t);
                entered_is(ws, target(ws, lock.event_key@, t), k as usize, t);
            }
            assert forall|i: int, y: usize|
                0 <= i < after.len() && #[trigger] after[i].picks.contains(y) implies y
                < picks.len() by {
                if y != k {
                    assert(ws[i].picks.contains(y));
                    assert(before.windows[i].picks.contains(y));
                }
            }
        }
    }
}

/// Whether the windows of a list are sound: their picks in order and below a
/// position, and none in two windows.
pub open spec fn sound(ws: Seq<Window>, n: int) -> bool {
    tidy(ws) && within(ws, n) && apart(ws)
}

/// A sound list stays sound without its last window.
proof fn sound_prefix(ws: Seq<Window>, n: int)
    requires
        sound(ws, n),
        ws.len() > 0,
    ensures
        sound(ws.drop_last(), n),
        forall|i: int, y: usize|
            0 <= i < ws.len() - 1 && #[trigger] ws.drop_last()[i].picks.contains(y)
                ==> !ws.last().picks.contains(y),
        climbing(ws.last().picks),
        forall|y: usize| #[trigger] ws.last().picks.contains(y) ==> y < n,
{
    let t = ws.drop_last();
    assert forall|i: int| 0 <= i < t.len() implies climbing((#[trigger] t[i]).picks) by {
        assert(t[i] == ws[i]);
    }
    assert forall|i: int, y: usize| 0 <= i < t.len() && #[trigger] t[i].picks.contains(y) implies y
        < n && !ws.last().picks.contains(y) by {
        assert(ws[i].picks.contains(y));
        if ws.last().picks.contains(y) {
            assert(ws[ws.len() - 1].picks.contains(y));
        }
    }
    assert forall|i: int, j: int, y: usize|
        0 <= i < t.len() && 0 <= j < t.len() && #[trigger] t[i].picks.contains(y)
            && #[trigger] t[j].picks.contains(y) implies i == j by {
        assert(ws[i].picks.contains(y) && ws[j].picks.contains(y));
    }
    assert(climbing(ws[ws.len() - 1].picks));
    assert forall|y: usize| #[trigger] ws.last().picks.contains(y) implies y < n by {
        assert(ws[ws.len() - 1].picks.contains(y));
    }
}

/// A sound list stays sound with one more window that shares no pick with it.
proof fn sound_with(ws: Seq<Window>, w: Window, n: int)
    requires
        sound(ws, n),
        climbing(w.picks),
        forall|y: usize| #[trigger] w.picks.contains(y) ==> y < n,
        forall|i: int, y: usize|
            0 <= i < ws.len() && #[trigger] ws[i].picks.contains(y) ==> !w.picks.contains(y),
    ensures
        sound(ws.push(w), n),
{
    let t = ws.push(w);
    assert forall|i: int| 0 <= i < t.len() implies climbing((#[trigger] t[i]).picks) by {
        if i < ws.len() {
            assert(t[i] == ws[i]);
        }
    }
    assert forall|i: int, y: usize| 0 <= i < t.len() && #[trigger] t[i].picks.contains(y) implies y
        < n by {
        if i < ws.len() {
            assert(ws[i].picks.contains(y));
        }
    }
    assert forall|i: int, j: int, y: usize|
        0 <= i < t.len() && 0 <= j < t.len() && #[trigger] t[i].picks.contains(y)
            && #[trigger] t[j].picks.contains(y) implies i == j by {
        if i < ws.len() {
            assert(ws[i].picks.contains(y));
        }
        if j < ws.len() {
            assert(ws[j].picks.contains(y));
        }
    }
}

/// Whether a pick is in one of the first `n` clusters.
pub open spec fn clustered(clusters: Seq<Cluster>, n: int, y: usize) -> bool {
    exists|g: int| 0 <= g < n && (#[trigger] clusters[g]).members@.contains(y)
}

/// The windows of the first clusters hold picks of these alone.
proof fn split_holds_clusters(picks: Seq<Pick>, clusters: Seq<Cluster>, n: int, s: Assigned)
    requires
        0 <= n <= clusters.len(),
        s.windows.len() == 0,
    ensures
        forall|i: int, y: usize|
            0 <= i < split_clusters(picks, clusters, n, s).windows.len()
                && #[trigger] split_clusters(picks, clusters, n, s).windows[i].picks.contains(y)
                ==> clustered(clusters, n, y),
    decreases n,
{
    if n > 0 {
        split_holds_clusters(picks, clusters, n - 1, s);
        let before = split_clusters(picks, clusters, n - 1, s).windows;
        let after = split_clusters(picks, clusters, n, s).windows;
        assert forall|i: int, y: usize|
            0 <= i < after.len() && #[trigger] after[i].picks.contains(y) implies clustered(
            clusters,
            n,
            y,
        ) by {
            if i < before.len() {
                assert(before[i].picks.contains(y));
                let g = choose|g: int|
                    0 <= g < n - 1 && (#[trigger] clusters[g]).members@.contains(y);
                assert(clusters[g].members@.contains(y));
            } else {
                assert(clusters[n - 1].members@.contains(y));
            }
        }
    }
}

/// The windows of the clusters are sound.
pub proof fn split_sound(
    picks: Seq<Pick>,
    kept: Seq<usize>,
    clusters: Seq<Cluster>,
    n: int,
    s: Assigned,
)
    requires
        0 <= n <= clusters.len(),
        crate::cluster::clusters_apart(clusters),
        forall|g: int|
            0 <= g < clusters.len() ==> crate::cluster::cluster_wf(
                picks,
                kept,
                #[trigger] clusters[g],
            ),
        forall|k: int| 0 <= k < kept.len() ==> (#[trigger] kept[k]) < picks.len(),
        s.windows.len() == 0,
    ensures
        sound(split_clusters(picks, clusters, n, s).windows, picks.len() as int),
    decreases n,
{
    if n > 0 {
        split_sound(picks, kept, clusters, n - 1, s);
        split_holds_clusters(picks, clusters, n - 1, s);
        let before = split_clusters(picks, clusters, n - 1, s).windows;
        let members = clusters[n - 1].members@;
        assert(crate::cluster::cluster_wf(picks, kept, clusters[n - 1]));
        if multi_station(picks, members) {
            let w = window_over(picks, before.len(), members);
            assert forall|y: usize| #[trigger] w.picks.contains(y) implies y < picks.len() by {
                let k = choose|k: int| 0 <= k < members.len() && members[k] == y;
                assert(kept.contains(members[k]));
            }
            assert forall|i: int, y: usize|
                0 <= i < before.len() && #[trigger] before[i].picks.contains(
                    y,
                ) implies !w.picks.contains(y) by {
                let g = choose|g: int|
                    0 <= g < n - 1 && (#[trigger] clusters[g]).members@.contains(y);
                if members.contains(y) {
                    assert(clusters[n - 1].members@.contains(y));
                }
            }
            sound_with(before, w, picks.len() as int);
        }
    }
}

/// The windows that are kept are sound, and some of those given.
proof fn kept_sound(ws: Seq<Window>, n: int)
    requires
        sound(ws, n),
    ensures
        sound(full_ones(ws), n),
        forall|i: int|
            0 <= i < full_ones(ws).len() ==> ws.contains(
                #[trigger] full_ones(ws)[i],
            ) && full(full_ones(ws)[i]),
    decreases ws.len(),
{
    reveal(Seq::filter);
    if ws.len() > 0 {
        let t = ws.drop_last();
        let u = full_ones(t);
        let r = full_ones(ws);
        sound_prefix(ws, n);
        kept_sound(t, n);
        assert forall|i: int| 0 <= i < r.len() implies ws.contains(#[trigger] r[i]) && full(
            r[i],
        ) by {
            if i < u.len() {
                assert(r[i] == u[i]);
                let k = choose|k: int| 0 <= k < t.len() && t[k] == u[i];
                assert(ws[k] == r[i]);
            } else {
                assert(ws[ws.len() - 1] == r[i]);
            }
        }
        if full(ws.last()) {
            assert forall|i: int, y: usize|
                0 <= i < u.len() && #[trigger] u[i].picks.contains(y) implies !ws.last().picks.contains(
                y,
            ) by {
                let k = choose|k: int| 0 <= k < t.len() && t[k] == u[i];
                assert(t[k].picks.contains(y));
            }
            sound_with(u, ws.last(), n);
        }
    }
}

/// Putting a window into a sound list leaves it sound.
proof fn inserted_sound(ws: Seq<Window>, w: Window, n: int)
    requires
        sound(ws, n),
        climbing(w.picks),
        forall|y: usize| #[trigger] w.picks.contains(y) ==> y < n,
        forall|i: int, y: usize|
            0 <= i < ws.len() && #[trigger] ws[i].picks.contains(y) ==> !w.picks.contains(y),
    ensures
        sound(put_by_time(ws, w), n),
        forall|i: int|
            0 <= i < put_by_time(ws, w).len()
                ==> ws.contains(
                #[trigger] put_by_time(ws, w)[i],
            ) || put_by_time(ws, w)[i] == w,
        put_by_time(ws, w).len() == ws.len() + 1,
    decreases ws.len(),
{
    let r = put_by_time(ws, w);
    if ws.len() == 0 || starts_first(ws.last(), w) {
        sound_with(ws, w, n);
        assert forall|i: int| 0 <= i < r.len() implies ws.contains(#[trigger] r[i]) || r[i]
            == w by {
            if i < ws.len() {
                assert(ws[i] == r[i]);
            }
        }
    } else {
        let t = ws.drop_last();
        sound_prefix(ws, n);
        assert forall|i: int, y: usize|
            0 <= i < t.len() && #[trigger] t[i].picks.contains(y) implies !w.picks.contains(y) by {
            assert(ws[i].picks.contains(y));
        }
        inserted_sound(t, w, n);
        let u = put_by_time(t, w);
        assert forall|i: int, y: usize|
            0 <= i < u.len() && #[trigger] u[i].picks.contains(y) implies !ws.last().picks.contains(
            y,
        ) by {
            if t.contains(u[i]) {
                let k = choose|k: int| 0 <= k < t.len() && t[k] == u[i];
                assert(t[k].picks.contains(y));
            } else if ws.last().picks.contains(y) {
                assert(ws[ws.len() - 1].picks.contains(y));
            }
        }
        sound_with(u, ws.last(), n);
        assert forall|i: int| 0 <= i < r.len() implies ws.contains(#[trigger] r[i]) || r[i]
            == w by {
            if i < u.len() {
                assert(r[i] == u[i]);
                if t.contains(u[i]) {
                    let k = choose|k: int| 0 <= k < t.len() && t[k] == u[i];
                    assert(ws[k] == r[i]);
                }
            } else {
                assert(ws[ws.len() - 1] == r[i]);
            }
        }
    }
}

/// Sorting leaves a list sound.
proof fn sorted_sound(ws: Seq<Window>, n: int)
    requires
        sound(ws, n),
    ensures
        sound(by_time(ws), n),
        forall|i: int|
            0 <= i < by_time(ws).len()
                ==> ws.contains(
                #[trigger] by_time(ws)[i],
            ),
        by_time(ws).len() == ws.len(),
    decreases ws.len(),
{
    if ws.len() > 0 {
        let t = ws.drop_last();
        sound_prefix(ws, n);
        sorted_sound(t, n);
        let u = by_time(t);
        assert forall|i: int, y: usize|
            0 <= i < u.len() && #[trigger] u[i].picks.contains(y) implies !ws.last().picks.contains(
            y,
        ) by {
            let k = choose|k: int| 0 <= k < t.len() && t[k] == u[i];
            assert(t[k].picks.contains(y));
        }
        inserted_sound(u, ws.last(), n);
        let r = by_time(ws);
        assert forall|i: int| 0 <= i < r.len() implies ws.contains(#[trigger] r[i]) by {
            if u.contains(r[i]) {
                let j = choose|j: int| 0 <= j < u.len() && u[j] == r[i];
                let k = choose|k: int| 0 <= k < t.len() && t[k] == u[j];
                assert(ws[k] == r[i]);
            } else {
                assert(ws[ws.len() - 1] == r[i]);
            }
        }
    }
}

/// Whether windows are in the order of their start.
pub open spec fn by_start(ws: Seq<Window>) -> bool {
    forall|i: int, j: int| 0 <= i <= j < ws.len() ==> (#[trigger] ws[i]).min_time <= (
    #[trigger] ws[j]).min_time
}

/// Putting a window at its place keeps the order of the starts.
proof fn inserted_by_start(ws: Seq<Window>, w: Window)
    requires
        by_start(ws),
    ensures
        by_start(put_by_time(ws, w)),
        forall|i: int|
            0 <= i < put_by_time(ws, w).len()
                ==> ws.contains(
                #[trigger] put_by_time(ws, w)[i],
            ) || put_by_time(ws, w)[i] == w,
    decreases ws.len(),
{
    let r = put_by_time(ws, w);
    if ws.len() == 0 || starts_first(ws.last(), w) {
        assert forall|i: int| 0 <= i < r.len() implies ws.contains(#[trigger] r[i]) || r[i]
            == w by {
            if i < ws.len() {
                assert(ws[i] == r[i]);
            }
        }
    } else {
        let t = ws.drop_last();
        inserted_by_start(t, w);
        let u = put_by_time(t, w);
        text_le_total(ws.last().key, w.key);
        assert forall|i: int| 0 <= i < r.len() implies ws.contains(#[trigger] r[i]) || r[i]
            == w by {
            if i < u.len() {
                assert(r[i] == u[i]);
                if t.contains(u[i]) {
                    let k = choose|k: int| 0 <= k < t.len() && t[k] == u[i];
                    assert(ws[k] == r[i]);
                }
            } else {
                assert(ws[ws.len() - 1] == r[i]);
            }
        }
        assert forall|i: int, j: int| 0 <= i <= j < r.len() implies (#[trigger] r[i]).min_time <= (
        #[trigger] r[j]).min_time by {
            if j == u.len() && i < j {
                assert(r[i] == u[i]);
                if t.contains(u[i]) {
                    let k = choose|k: int| 0 <= k < t.len() && t[k] == u[i];
                    assert(ws[k].min_time <= ws[ws.len() - 1].min_time);
                }
            } else if i < j {
                assert(u[i].min_time <= u[j].min_time);
            }
        }
    }
}

/// Sorting puts windows in the order of their start.
proof fn sorted_by_start(ws: Seq<Window>)
    ensures
        by_start(by_time(ws)),
    decreases ws.len(),
{
    if ws.len() > 0 {
        sorted_by_start(ws.drop_last());
        inserted_by_start(
            by_time(ws.drop_last()),
            ws.last(),
        );
    }
}

/// The windows of an input hold picks of the input in rising order, at least
/// two each and none in two windows; they are in the order of their start,
/// and their keys and labels count them.
pub proof fn planned_windows_are_sound(input: SolverInput, result: Assigned)
    requires
        planned(input, result),
        input.picks@.len() <= usize::MAX,
    ensures
        sound(result.windows, input.picks@.len() as int),
        by_start(result.windows),
        forall|i: int|
            0 <= i < result.windows.len() ==> full(#[trigger] result.windows[i])
                && result.windows[i].key == event_key((i + 1) as nat) && result.windows[i].label
                == event_label((i + 1) as nat),
{
    let (all, names, kept, clusters) = choose|
        all: Seq<usize>,
        names: Seq<Seq<char>>,
        kept: Seq<usize>,
        clusters: Seq<Cluster>,
    |
        plan_steps(input, all, names, kept, clusters, result);
    let picks = input.picks@;
    let n = picks.len() as int;
    let dropped = drops(picks, all, names, names.len() as int);
    let checked = Assigned {
        windows: Seq::empty(),
        rejected: all_rejected(picks, dropped, order_reason()),
    };
    let split = split_clusters(picks, clusters, clusters.len() as int, checked);
    let tied = locks_applied(picks, split, input.locked@, input.locked@.len() as int);
    assert forall|k: int| 0 <= k < kept.len() implies (#[trigger] kept[k]) < picks.len() by {
        assert(kept.contains(kept[k]));
        assert(all.contains(kept[k]));
    }
    split_sound(picks, kept, clusters, clusters.len() as int, checked);
    locks_keep_windows(picks, split, input.locked@, input.locked@.len() as int);
    locks_keep_picks_apart(picks, split, input.locked@, input.locked@.len() as int);
    locks_keep_within(picks, split, input.locked@, input.locked@.len() as int);
    kept_sound(tied.windows, n);
    let some = full_ones(tied.windows);
    sorted_sound(some, n);
    sorted_by_start(some);
    let order = by_time(some);
    let r = numbered(order);
    assert forall|i: int| 0 <= i < r.len() implies full(#[trigger] r[i]) && climbing(r[i].picks) by {
        assert(some.contains(order[i]));
        let k = choose|k: int| 0 <= k < some.len() && some[k] == order[i];
        assert(full(some[k]));
        assert(climbing(order[i].picks));
    }
    assert forall|i: int, y: usize| 0 <= i < r.len() && #[trigger] r[i].picks.contains(y) implies y
        < n by {
        assert(order[i].picks.contains(y));
    }
    assert forall|i: int, j: int, y: usize|
        0 <= i < r.len() && 0 <= j < r.len() && #[trigger] r[i].picks.contains(y)
            && #[trigger] r[j].picks.contains(y) implies i == j by {
        assert(order[i].picks.contains(y) && order[j].picks.contains(y));
    }
    assert forall|i: int, j: int| 0 <= i <= j < r.len() implies (#[trigger] r[i]).min_time <= (
    #[trigger] r[j]).min_time by {
        assert(order[i].min_time <= order[j].min_time);
    }
}

/// The events of an input, and the picks that none of them uses.
#[derive(Debug, Clone)]
pub struct SolverResultSet {
    pub events: Vec<EventResult>,
    pub rejected: Vec<RejectedPick>,
}

/// The rejections after the first `n` windows.
pub open spec fn piled(
    input: SolverInput,
    windows: Seq<EventWindow>,
    observations: Seq<Seq<Observation>>,
    events: Seq<EventResult>,
    start: Seq<Rejection>,
    n: int,
) -> Seq<Rejection>
    decreases n,
{
    if n <= 0 {
        start
    } else {
        piled(input, windows, observations, events, start, n - 1) + unusable(
            input,
            windows[n - 1].picks@,
        ) + left_over(observations[n - 1], events[n - 1].candidates@)
    }
}

/// The fits of the window with a number; none where none were made.
pub open spec fn fits_for(fits: Seq<Result<Vec<Fit>, String>>, i: int) -> Seq<Fit> {
    if i < fits.len() {
        made(fits[i])
    } else {
        Seq::empty()
    }
}

/// Why a fit of the window with a number failed, if one did.
pub open spec fn trouble_for(fits: Seq<Result<Vec<Fit>, String>>, i: int) -> Option<Seq<char>> {
    if i < fits.len() {
        trouble(fits[i])
    } else {
        None
    }
}

/// An event is that of a window, its observations and its fits.
pub open spec fn event_of(
    input: SolverInput,
    window: EventWindow,
    observations: Seq<Observation>,
    fits: Seq<Fit>,
    event: EventResult,
) -> bool {
    &&& all_observed(input, usable(input, window.picks@), observations)
    &&& settled(event, window, observations, fits)
}

/// The events are those of the first windows.
pub open spec fn located(
    input: SolverInput,
    fits: Seq<Result<Vec<Fit>, String>>,
    windows: Seq<EventWindow>,
    observations: Seq<Seq<Observation>>,
    events: Seq<EventResult>,
) -> bool {
    &&& observations.len() == events.len()
    &&& forall|i: int|
        0 <= i < events.len() ==> event_of(
            input,
            windows[i],
            observations[i],
            fits_for(fits, i),
            #[trigger] events[i],
        ) && failure(observations[i], trouble_for(fits, i)) is None
}

/// The result is that of the windows, their observations and their fits.
pub open spec fn solved_by(
    input: SolverInput,
    fits: Seq<Result<Vec<Fit>, String>>,
    windows: Seq<EventWindow>,
    observations: Seq<Seq<Observation>>,
    start: Seq<Rejection>,
    r: SolverResultSet,
) -> bool {
    &&& planned(input, Assigned { windows: contents(windows), rejected: start })
    &&& r.events@.len() == windows.len()
    &&& located(input, fits, windows, observations, r.events@)
    &&& rejections(r.rejected@) == listed(
        piled(input, windows, observations, r.events@, start, windows.len() as int),
    )
}

/// The result that an input has, given the fits of its windows.
pub open spec fn solved(input: SolverInput, fits: Seq<Result<Vec<Fit>, String>>, r: SolverResultSet) -> bool {
    exists|windows: Seq<EventWindow>, observations: Seq<Seq<Observation>>, start: Seq<Rejection>|
        solved_by(input, fits, windows, observations, start, r)
}

/// A fit of a window failed, after all those of the windows before were made.
pub open spec fn failed_by(
    input: SolverInput,
    fits: Seq<Result<Vec<Fit>, String>>,
    windows: Seq<EventWindow>,
    observations: Seq<Seq<Observation>>,
    start: Seq<Rejection>,
    m: Seq<char>,
) -> bool {
    let k = observations.len() - 1;
    &&& planned(input, Assigned { windows: contents(windows), rejected: start })
    &&& 0 <= k < windows.len()
    &&& forall|i: int|
        0 <= i <= k ==> all_observed(
            input,
            usable(input, windows[i].picks@),
            #[trigger] observations[i],
        )
    &&& forall|i: int|
        0 <= i < k ==> failure(#[trigger] observations[i], trouble_for(fits, i)) is None
    &&& failure(observations[k], trouble_for(fits, k)) == Some(m)
}

/// What stops an input, given the fits of its windows: the first fit that
/// failed.
pub open spec fn failed(
    input: SolverInput,
    fits: Seq<Result<Vec<Fit>, String>>,
    m: Seq<char>,
) -> bool {
    exists|windows: Seq<EventWindow>, observations: Seq<Seq<Observation>>, start: Seq<Rejection>|
        failed_by(input, fits, windows, observations, start, m)
}

/// The rejections of one more window, behind those before.
fn append_rejections(rejected: &mut Vec<RejectedPick>, more: Vec<RejectedPick>)
    ensures
        rejections(final(rejected)@) == rejections(old(rejected)@) + rejections(more@),
{
    let ghost before = rejected@;
    let mut more = more;
    let ghost added = more@;
    rejected.append(&mut more);
    assert(rejections(rejected@) =~= rejections(before) + rejections(added));
}

/// One more event, from its window and the fits made for it, or why one of
/// them failed.
fn solve_window(
    input: &SolverInput,
    window: &EventWindow,
    fits: Result<Vec<Fit>, String>,
    rejected: &mut Vec<RejectedPick>,
) -> (r: (Result<EventResult, String>, Ghost<Seq<Observation>>))
    requires
        input.wf(),
        climbing(window.picks@),
        forall|i: int|
            0 <= i < window.picks@.len() ==> (#[trigger] window.picks@[i]) < input.picks@.len(),
        fits_wf(fits),
    ensures
        all_observed(*input, usable(*input, window.picks@), r.1@),
        match r.0 {
            Ok(e) => failure(r.1@, trouble(fits)) is None && event_of(
                *input,
                *window,
                r.1@,
                made(fits),
                e,
            ) && rejections(final(rejected)@) == rejections(old(rejected)@) + unusable(
                *input,
                window.picks@,
            ) + left_over(r.1@, e.candidates@),
            Err(m) => failure(r.1@, trouble(fits)) == Some(m@),
        },
{
    let (observations, missing) = gather(input, window);
    append_rejections(rejected, missing);
    let ghost obs = observations@;
    let event = locate_window(window, &observations, fits, rejected);
    (event, Ghost(obs))
}

/// Solves an input, given the fits that were made for each of its windows in
/// turn, or why one of them failed.
pub fn solve(input: &SolverInput, fits: Vec<Result<Vec<Fit>, String>>) -> (r: Result<
    SolverResultSet,
    String,
>)
    requires
        input.wf(),
        forall|i: int| 0 <= i < fits@.len() ==> fits_wf(#[trigger] fits@[i]),
    ensures
        match r {
            Ok(set) => input_error(*input) is None && solved(*input, fits@, set),
            Err(m) => match input_error(*input) {
                Some(e) => m@ == e,
                None => failed(*input, fits@, m@),
            },
        },
{
    let (windows, mut rejected) = match plan_windows(input) {
        Ok(p) => p,
        Err(m) => {
            return Err(m);
        },
    };
    let ghost start = rejections(rejected@);
    let ghost given = fits@;
    let mut rest = fits;
    let total: usize = input.picks.len();
    proof {
        planned_windows_are_sound(
            *input,
            Assigned { windows: contents(windows@), rejected: start },
        );
        assert(given.skip(0) =~= given);
    }
    let ghost mut observations: Seq<Seq<Observation>> = Seq::empty();
    let mut events: Vec<EventResult> = Vec::new();
    let mut i: usize = 0;
    while i < windows.len()
        invariant
            i <= windows@.len(),
            input.wf(),
            sound(contents(windows@), input.picks@.len() as int),
            input_error(*input) is None,
            planned(*input, Assigned { windows: contents(windows@), rejected: start }),
            given == fits@,
            forall|k: int| 0 <= k < given.len() ==> fits_wf(#[trigger] given[k]),
            rest@ == given.skip(
                if i < given.len() {
                    i as int
                } else {
                    given.len() as int
                },
            ),
            events@.len() == i,
            located(*input, given, windows@, observations, events@),
            rejections(rejected@) == piled(
                *input,
                windows@,
                observations,
                events@,
                start,
                i as int,
            ),
        decreases windows@.len() - i,
    {
        let own: Result<Vec<Fit>, String> = if rest.len() > 0 {
            rest.remove(0)
        } else {
            Ok(Vec::new())
        };
        let ghost seen = events@;
        let ghost noted = observations;
        proof {
            assert(made(own) =~= fits_for(given, i as int));
            assert(trouble(own) == trouble_for(given, i as int));
            sound_window(windows@, input.picks@.len() as int, i as int);
            if i < given.len() {
                assert(own == given[i as int]);
                assert(rest@ =~= given.skip(i + 1));
            }
        }
        let (outcome, Ghost(obs)) = solve_window(input, &windows[i], own, &mut rejected);
        let event = match outcome {
            Ok(e) => e,
            Err(m) => {
                proof {
                    fails_next(*input, given, windows@, observations, events@, start, obs, m@);
                }
                return Err(m);
            },
        };
        events.push(event);
        proof {
            observations = observations.push(obs);
            piled_prefix(*input, windows@, noted, seen, observations, events@, start, i as int);
            locates_next(*input, given, windows@, noted, seen, obs, event);
        }
        i += 1;
    }
    let set = SolverResultSet { events, rejected: list_rejections(rejected) };
    assert(solved_by(*input, given, windows@, observations, start, set));
    Ok(set)
}

/// A window of a sound list holds positions of picks, in rising order.
proof fn sound_window(windows: Seq<EventWindow>, n: int, i: int)
    requires
        sound(contents(windows), n),
        0 <= i < windows.len(),
    ensures
        climbing(windows[i].picks@),
        forall|k: int| 0 <= k < windows[i].picks@.len() ==> (#[trigger] windows[i].picks@[k]) < n,
{
    let picks = windows[i].picks@;
    assert(contents(windows)[i] == windows[i]@);
    assert(climbing(contents(windows)[i].picks));
    assert forall|k: int| 0 <= k < picks.len() implies (#[trigger] picks[k]) < n by {
        assert(contents(windows)[i].picks.contains(picks[k]));
    }
}

/// One more event is located.
proof fn locates_next(
    input: SolverInput,
    fits: Seq<Result<Vec<Fit>, String>>,
    windows: Seq<EventWindow>,
    observations: Seq<Seq<Observation>>,
    events: Seq<EventResult>,
    own: Seq<Observation>,
    event: EventResult,
)
    requires
        located(input, fits, windows, observations, events),
        event_of(
            input,
            windows[events.len() as int],
            own,
            fits_for(fits, events.len() as int),
            event,
        ),
        failure(own, trouble_for(fits, events.len() as int)) is None,
    ensures
        located(input, fits, windows, observations.push(own), events.push(event)),
{
    let (seen, made) = (observations.push(own), events.push(event));
    assert forall|k: int| 0 <= k < made.len() implies event_of(
        input,
        windows[k],
        seen[k],
        fits_for(fits, k),
        #[trigger] made[k],
    ) && failure(seen[k], trouble_for(fits, k)) is None by {
        if k < events.len() {
            assert(made[k] == events[k]);
            assert(seen[k] == observations[k]);
        }
    }
}

/// The next event stops the input.
proof fn fails_next(
    input: SolverInput,
    fits: Seq<Result<Vec<Fit>, String>>,
    windows: Seq<EventWindow>,
    observations: Seq<Seq<Observation>>,
    events: Seq<EventResult>,
    start: Seq<Rejection>,
    own: Seq<Observation>,
    m: Seq<char>,
)
    requires
        planned(input, Assigned { windows: contents(windows), rejected: start }),
        located(input, fits, windows, observations, events),
        events.len() < windows.len(),
        all_observed(input, usable(input, windows[events.len() as int].picks@), own),
        failure(own, trouble_for(fits, events.len() as int)) == Some(m),
    ensures
        failed_by(input, fits, windows, observations.push(own), start, m),
{
    let seen = observations.push(own);
    assert forall|k: int| 0 <= k < events.len() implies all_observed(
        input,
        usable(input, windows[k].picks@),
        #[trigger] seen[k],
    ) && failure(seen[k], trouble_for(fits, k)) is None by {
        assert(seen[k] == observations[k]);
        assert(event_of(input, windows[k], observations[k], fits_for(fits, k), events[k]));
    }
}

/// The rejections of the first windows do not depend on what comes later.
proof fn piled_prefix(
    input: SolverInput,
    windows: Seq<EventWindow>,
    obs: Seq<Seq<Observation>>,
    events: Seq<EventResult>,
    more_obs: Seq<Seq<Observation>>,
    more_events: Seq<EventResult>,
    start: Seq<Rejection>,
    n: int,
)
    requires
        n <= obs.len(),
        n <= events.len(),
        obs.len() <= more_obs.len(),
        events.len() <= more_events.len(),
        forall|i: int| 0 <= i < obs.len() ==> #[trigger] more_obs[i] == obs[i],
        forall|i: int| 0 <= i < events.len() ==> #[trigger] more_events[i] == events[i],
    ensures
        piled(input, windows, obs, events, start, n) == piled(
            input,
            windows,
            more_obs,
            more_events,
            start,
            n,
        ),
    decreases n,
{
    if n > 0 {
        piled_prefix(input, windows, obs, events, more_obs, more_events, start, n - 1);
        assert(more_obs[n - 1] == obs[n - 1]);
        assert(more_events[n - 1] == events[n - 1]);
    }
}

} // verus!
