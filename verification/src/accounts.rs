//! No pick is lost: each that counts is used, or is rejected with a reason.
use vstd::prelude::*;

use crate::cluster::{cluster_wf, grouped, Cluster};
use crate::fits::{
    assigned, candidate_at, fit_over, left_over, settled, supported, CandidateResult, EventResult,
    Fit, PickAssignment, CANDIDATES,
};
use crate::locator::{all_observed, missing, observed, unusable, usable};
use crate::model::{pick_ids, Lock, Pick, SolverInput};
use crate::order::{inserted_by, sorted, sorted_by, sorted_members, text_lt};
use crate::planner::{
    all_rejected, alone_reason, by_time, deduplicated, deduplicated_keeps, full, full_ones, listed, listed_first, lists,
    multi_station, numbered, order_reason, plan_steps, ready, repeats, split_clusters,
    starts_first,
};
use crate::precheck::{drops, drops_are_members};
use crate::solve::{
    clustered, event_of, fits_for, located, piled, planned_windows_are_sound, solved_by, split_sound,
    SolverResultSet,
};
use crate::solver_types::{rejection, rejections, EventWindow, Observation, Rejection};
use crate::windows::{
    contents, entered_is, locks_applied, locks_keep_windows, place_of, place_of_is, released,
    released_is, target, target_is, tidy, Assigned, Window,
};

verus! {

/// Whether a window holds a pick.
pub open spec fn windowed(ws: Seq<Window>, y: usize) -> bool {
    exists|i: int| 0 <= i < ws.len() && (#[trigger] ws[i]).picks.contains(y)
}

/// A pick of the first clusters is in a window or rejected.
proof fn split_accounts(picks: Seq<Pick>, clusters: Seq<Cluster>, n: int, s: Assigned, y: usize)
    requires
        0 <= n <= clusters.len(),
        clustered(clusters, n, y),
    ensures
        windowed(split_clusters(picks, clusters, n, s).windows, y) || split_clusters(
            picks,
            clusters,
            n,
            s,
        ).rejected.contains(rejection(picks[y as int], alone_reason())),
    decreases n,
{
    let before = split_clusters(picks, clusters, n - 1, s);
    let after = split_clusters(picks, clusters, n, s);
    let members = clusters[n - 1].members@;
    if members.contains(y) {
        if multi_station(picks, members) {
            assert(after.windows[before.windows.len() as int].picks.contains(y));
        } else {
            let k = choose|k: int| 0 <= k < members.len() && members[k] == y;
            assert(after.rejected[before.rejected.len() + k] == rejection(
                picks[y as int],
                alone_reason(),
            ));
        }
    } else {
        let g = choose|g: int| 0 <= g < n && (#[trigger] clusters[g]).members@.contains(y);
        assert(clusters[g].members@.contains(y));
        split_accounts(picks, clusters, n - 1, s, y);
        if windowed(before.windows, y) {
            let i = choose|i: int|
                0 <= i < before.windows.len() && (#[trigger] before.windows[i]).picks.contains(y);
            assert(after.windows[i].picks.contains(y));
        } else {
            let x = rejection(picks[y as int], alone_reason());
            let i = choose|i: int| 0 <= i < before.rejected.len() && before.rejected[i] == x;
            assert(after.rejected[i] == x);
        }
    }
}

/// Rejections that came before the clusters stay.
proof fn split_keeps_rejected(
    picks: Seq<Pick>,
    clusters: Seq<Cluster>,
    n: int,
    s: Assigned,
    x: Rejection,
)
    requires
        s.rejected.contains(x),
    ensures
        split_clusters(picks, clusters, n, s).rejected.contains(x),
    decreases n,
{
    if n > 0 {
        split_keeps_rejected(picks, clusters, n - 1, s, x);
        let before = split_clusters(picks, clusters, n - 1, s).rejected;
        let after = split_clusters(picks, clusters, n, s).rejected;
        let i = choose|i: int| 0 <= i < before.len() && before[i] == x;
        assert(after[i] == x);
    }
}

/// Before the locks are applied each pick that counts is in a window, or is
/// rejected at its station, or is rejected for standing alone.
proof fn split_accounts_for_all(
    input: SolverInput,
    all: Seq<usize>,
    names: Seq<Seq<char>>,
    kept: Seq<usize>,
    clusters: Seq<Cluster>,
    result: Assigned,
    y: usize,
)
    requires
        plan_steps(input, all, names, kept, clusters, result),
        all.contains(y),
    ensures
        ({
            let picks = input.picks@;
            let dropped = drops(picks, all, names, names.len() as int);
            let checked = Assigned {
                windows: Seq::empty(),
                rejected: all_rejected(picks, dropped, order_reason()),
            };
            let split = split_clusters(picks, clusters, clusters.len() as int, checked);
            let pick = picks[y as int];
            ||| windowed(split.windows, y)
            ||| split.rejected.contains(rejection(pick, order_reason()))
            ||| split.rejected.contains(rejection(pick, alone_reason()))
        }),
{
    let picks = input.picks@;
    let dropped = drops(picks, all, names, names.len() as int);
    let checked = Assigned {
        windows: Seq::empty(),
        rejected: all_rejected(picks, dropped, order_reason()),
    };
    if dropped.contains(y) {
        let k = choose|k: int| 0 <= k < dropped.len() && dropped[k] == y;
        let x = rejection(picks[y as int], order_reason());
        assert(checked.rejected[k] == x);
        split_keeps_rejected(picks, clusters, clusters.len() as int, checked, x);
    } else {
        assert(kept.contains(y));
        let k = choose|k: int| 0 <= k < kept.len() && kept[k] == y;
        assert(grouped(clusters, kept[k]));
        let g = choose|g: int|
            0 <= g < clusters.len() && (#[trigger] clusters[g]).members@.contains(y);
        assert(clusters[g].members@.contains(y));
        split_accounts(picks, clusters, clusters.len() as int, checked, y);
    }
}

/// Locks move picks, but leave none outside the windows.
proof fn locks_keep_windowed(
    picks: Seq<Pick>,
    s: Assigned,
    locked: Seq<Lock>,
    n: int,
    y: usize,
)
    requires
        picks.len() <= usize::MAX,
        tidy(s.windows),
        windowed(s.windows, y),
    ensures
        windowed(locks_applied(picks, s, locked, n).windows, y),
    decreases n,
{
    if n > 0 {
        locks_keep_windowed(picks, s, locked, n - 1, y);
        locks_keep_windows(picks, s, locked, n - 1);
        let before = locks_applied(picks, s, locked, n - 1);
        let after = locks_applied(picks, s, locked, n).windows;
        let lock = locked[n - 1];
        place_of_is(picks, lock.pick_id@);
        let k = place_of(picks, lock.pick_id@);
        let i = choose|i: int|
            0 <= i < before.windows.len() && (#[trigger] before.windows[i]).picks.contains(y);
        if k < picks.len() {
            released_is(before.windows, k as usize);
            let ws = released(before.windows, k as usize);
            let t = picks[k].corrected_time as int;
            let at = target(ws, lock.event_key@, t);
            target_is(ws, lock.event_key@, t);
            entered_is(ws, at, k as usize, t);
            if y == k {
                assert(after[at].picks.contains(y));
            } else {
                assert(ws[i].picks.contains(y));
                assert(after[i].picks.contains(y));
            }
        } else {
            assert(after[i].picks.contains(y));
        }
    }
}

/// Locks keep the rejections.
proof fn locks_keep_rejected(
    picks: Seq<Pick>,
    s: Assigned,
    locked: Seq<Lock>,
    n: int,
    x: Rejection,
)
    requires
        s.rejected.contains(x),
    ensures
        locks_applied(picks, s, locked, n).rejected.contains(x),
    decreases n,
{
    if n > 0 {
        locks_keep_rejected(picks, s, locked, n - 1, x);
        let before = locks_applied(picks, s, locked, n - 1).rejected;
        let after = locks_applied(picks, s, locked, n).rejected;
        let i = choose|i: int| 0 <= i < before.len() && before[i] == x;
        assert(after[i] == x);
    }
}

/// Putting a value in its place keeps the others.
proof fn inserted_holds<V>(s: Seq<V>, x: V, first: spec_fn(V, V) -> bool, y: V)
    requires
        s.contains(y) || x == y,
    ensures
        inserted_by(s, x, first).contains(y),
    decreases s.len(),
{
    let r = inserted_by(s, x, first);
    if s.len() == 0 || first(s.last(), x) {
        if x == y {
            assert(r[s.len() as int] == y);
        } else {
            let k = choose|k: int| 0 <= k < s.len() && s[k] == y;
            assert(r[k] == y);
        }
    } else {
        let t = s.drop_last();
        let u = inserted_by(t, x, first);
        if x == y || t.contains(y) {
            inserted_holds(t, x, first, y);
            let k = choose|k: int| 0 <= k < u.len() && u[k] == y;
            assert(r[k] == y);
        } else {
            let k = choose|k: int| 0 <= k < s.len() && s[k] == y;
            if k < t.len() {
                assert(t[k] == y);
            }
            assert(r[u.len() as int] == y);
        }
    }
}

/// Sorting keeps every value.
proof fn sorted_holds<V>(s: Seq<V>, first: spec_fn(V, V) -> bool, y: V)
    requires
        s.contains(y),
    ensures
        sorted_by(s, first).contains(y),
    decreases s.len(),
{
    let t = s.drop_last();
    let k = choose|k: int| 0 <= k < s.len() && s[k] == y;
    if k < t.len() {
        assert(t[k] == y);
        sorted_holds(t, first, y);
    }
    inserted_holds(sorted_by(t, first), s.last(), first, y);
}

/// Whether a pick is in a window that is too small to be located.
pub open spec fn stranded(ws: Seq<Window>, y: usize) -> bool {
    exists|i: int| 0 <= i < ws.len() && !full(#[trigger] ws[i]) && ws[i].picks.contains(y)
}

/// A pick of a window that is large enough is in a window that is located.
proof fn ready_holds(ws: Seq<Window>, y: usize)
    requires
        windowed(ws, y),
    ensures
        windowed(ready(ws), y) || stranded(ws, y),
{
    if !stranded(ws, y) {
        let i = choose|i: int| 0 <= i < ws.len() && (#[trigger] ws[i]).picks.contains(y);
        let w = ws[i];
        assert(full(w));
        let some = full_ones(ws);
        assert(some.contains(w)) by {
            let f = |w: Window| full(w);
            assert(ws.contains(w) && f(w));
            ws.lemma_filter_contains(f, i);
        }
        let order = by_time(some);
        sorted_holds(some, |a: Window, b: Window| starts_first(a, b), w);
        let k = choose|k: int| 0 <= k < order.len() && order[k] == w;
        assert(numbered(order)[k].picks.contains(y));
    }
}

/// A pick that counts ends up in a window, or is rejected for its order at its
/// station or for standing alone, or was in a window that locks left with
/// fewer than two picks.
pub proof fn every_pick_is_accounted_for(
    input: SolverInput,
    all: Seq<usize>,
    names: Seq<Seq<char>>,
    kept: Seq<usize>,
    clusters: Seq<Cluster>,
    result: Assigned,
    y: usize,
)
    requires
        input.picks@.len() <= usize::MAX,
        plan_steps(input, all, names, kept, clusters, result),
        all.contains(y),
    ensures
        ({
            let picks = input.picks@;
            let dropped = drops(picks, all, names, names.len() as int);
            let checked = Assigned {
                windows: Seq::empty(),
                rejected: all_rejected(picks, dropped, order_reason()),
            };
            let split = split_clusters(picks, clusters, clusters.len() as int, checked);
            let tied = locks_applied(picks, split, input.locked@, input.locked@.len() as int);
            ||| windowed(result.windows, y)
            ||| result.rejected.contains(rejection(picks[y as int], order_reason()))
            ||| result.rejected.contains(rejection(picks[y as int], alone_reason()))
            ||| stranded(tied.windows, y)
        }),
{
    let picks = input.picks@;
    let n = input.locked@.len() as int;
    let dropped = drops(picks, all, names, names.len() as int);
    let checked = Assigned {
        windows: Seq::empty(),
        rejected: all_rejected(picks, dropped, order_reason()),
    };
    let split = split_clusters(picks, clusters, clusters.len() as int, checked);
    let tied = locks_applied(picks, split, input.locked@, n);
    assert forall|k: int| 0 <= k < kept.len() implies (#[trigger] kept[k]) < picks.len() by {
        assert(kept.contains(kept[k]));
        assert(all.contains(kept[k]));
    }
    split_sound(picks, kept, clusters, clusters.len() as int, checked);
    split_accounts_for_all(input, all, names, kept, clusters, result, y);
    let first = rejection(picks[y as int], order_reason());
    let second = rejection(picks[y as int], alone_reason());
    if split.rejected.contains(first) {
        locks_keep_rejected(picks, split, input.locked@, n, first);
    } else if split.rejected.contains(second) {
        locks_keep_rejected(picks, split, input.locked@, n, second);
    } else {
        locks_keep_windowed(picks, split, input.locked@, n, y);
        ready_holds(tied.windows, y);
    }
}

/// A pick of some positions is usable or is rejected as unusable.
proof fn usable_or_not(input: SolverInput, ids: Seq<usize>, k: usize)
    requires
        ids.contains(k),
    ensures
        match missing(input, input.picks@[k as int]) {
            None => usable(input, ids).contains(k),
            Some(reason) => unusable(input, ids).contains(
                rejection(input.picks@[k as int], reason),
            ),
        },
    decreases ids.len(),
{
    let t = ids.drop_last();
    let i = choose|i: int| 0 <= i < ids.len() && ids[i] == k;
    if i < t.len() {
        assert(t[i] == k);
        usable_or_not(input, t, k);
        match missing(input, input.picks@[k as int]) {
            None => {
                let (u, v) = (usable(input, t), usable(input, ids));
                let j = choose|j: int| 0 <= j < u.len() && u[j] == k;
                assert(v[j] == k);
            },
            Some(reason) => {
                let x = rejection(input.picks@[k as int], reason);
                let (u, v) = (unusable(input, t), unusable(input, ids));
                let j = choose|j: int| 0 <= j < u.len() && u[j] == x;
                assert(v[j] == x);
            },
        }
    } else {
        match missing(input, input.picks@[k as int]) {
            None => {
                let v = usable(input, ids);
                assert(v[v.len() - 1] == k);
            },
            Some(reason) => {
                let v = unusable(input, ids);
                assert(v[v.len() - 1] == rejection(input.picks@[k as int], reason));
            },
        }
    }
}

/// An observation that no candidate supports is left over.
proof fn left_over_holds(
    observations: Seq<Observation>,
    candidates: Seq<CandidateResult>,
    m: int,
)
    requires
        0 <= m < observations.len(),
        !supported(candidates, observations[m].pick.id@),
    ensures
        left_over(observations, candidates).contains(
            rejection(
                observations[m].pick,
                "arrival residual exceeds every candidate's support threshold"@,
            ),
        ),
    decreases observations.len(),
{
    let t = observations.drop_last();
    let r = left_over(observations, candidates);
    let x = rejection(
        observations[m].pick,
        "arrival residual exceeds every candidate's support threshold"@,
    );
    if m < t.len() {
        left_over_holds(t, candidates, m);
        let u = left_over(t, candidates);
        let j = choose|j: int| 0 <= j < u.len() && u[j] == x;
        assert(r[j] == x);
    } else {
        assert(r[r.len() - 1] == x);
    }
}

/// What is rejected for one window stays rejected.
proof fn piled_holds(
    input: SolverInput,
    windows: Seq<EventWindow>,
    observations: Seq<Seq<Observation>>,
    events: Seq<EventResult>,
    start: Seq<Rejection>,
    i: int,
    n: int,
    x: Rejection,
)
    requires
        0 <= i < n,
        unusable(input, windows[i].picks@).contains(x) || left_over(
            observations[i],
            events[i].candidates@,
        ).contains(x),
    ensures
        piled(input, windows, observations, events, start, n).contains(x),
    decreases n,
{
    let before = piled(input, windows, observations, events, start, n - 1);
    let (u, v) = (
        unusable(input, windows[n - 1].picks@),
        left_over(observations[n - 1], events[n - 1].candidates@),
    );
    let r = before + u + v;
    if i == n - 1 {
        if u.contains(x) {
            let j = choose|j: int| 0 <= j < u.len() && u[j] == x;
            assert(r[before.len() + j] == x);
        } else {
            let j = choose|j: int| 0 <= j < v.len() && v[j] == x;
            assert(r[before.len() + u.len() + j] == x);
        }
    } else {
        piled_holds(input, windows, observations, events, start, i, n - 1, x);
        let j = choose|j: int| 0 <= j < before.len() && before[j] == x;
        assert(r[j] == x);
    }
}

/// Whether a pick is among some rejections.
pub open spec fn named(v: Seq<Rejection>, id: Seq<char>) -> bool {
    exists|j: int| 0 <= j < v.len() && (#[trigger] v[j]).observation_id == id
}

/// Every pick of a window weighs in a candidate of the event, or is rejected.
pub proof fn every_window_pick_is_used_or_rejected(
    input: SolverInput,
    fits: Seq<Result<Vec<Fit>, String>>,
    windows: Seq<EventWindow>,
    observations: Seq<Seq<Observation>>,
    start: Seq<Rejection>,
    r: SolverResultSet,
    i: int,
    k: usize,
)
    requires
        solved_by(input, fits, windows, observations, start, r),
        0 <= i < windows.len(),
        windows[i].picks@.contains(k),
    ensures
        supported(r.events@[i].candidates@, input.picks@[k as int].id@) || named(
            rejections(r.rejected@),
            input.picks@[k as int].id@,
        ),
{
    let pick = input.picks@[k as int];
    let ids = windows[i].picks@;
    let n = windows.len() as int;
    let all = piled(input, windows, observations, r.events@, start, n);
    assert(event_of(input, windows[i], observations[i], fits_for(fits, i), r.events@[i]));
    if !supported(r.events@[i].candidates@, pick.id@) {
        usable_or_not(input, ids, k);
        let x = match missing(input, pick) {
            Some(reason) => rejection(pick, reason),
            None => rejection(
                pick,
                "arrival residual exceeds every candidate's support threshold"@,
            ),
        };
        if missing(input, pick) is None {
            let u = usable(input, ids);
            let m = choose|m: int| 0 <= m < u.len() && u[m] == k;
            assert(observed(input, u[m], observations[i][m]));
            left_over_holds(observations[i], r.events@[i].candidates@, m);
        }
        piled_holds(input, windows, observations, r.events@, start, i, n, x);
        let order = sorted_by(all, |a: Rejection, b: Rejection| listed_first(a, b));
        sorted_holds(all, |a: Rejection, b: Rejection| listed_first(a, b), x);
        let j = choose|j: int| 0 <= j < order.len() && order[j] == x;
        deduplicated_keeps(order, j);
        let d = rejections(r.rejected@);
        assert(lists(d, x));
        let g = choose|g: int| 0 <= g < d.len() && repeats(#[trigger] d[g], x);
        assert(d[g].observation_id == pick.id@);
    }
}

/// Whether some assignments list a pick.
pub open spec fn lists_pick(v: Seq<PickAssignment>, id: Seq<char>) -> bool {
    exists|i: int| 0 <= i < v.len() && (#[trigger] v[i]).observation_id@ == id
}

/// Whether all fits of a window are about its observations.
pub open spec fn all_over(observations: Seq<Observation>, fits: Seq<Fit>) -> bool {
    forall|i: int| 0 <= i < fits.len() ==> fit_over(observations, #[trigger] fits[i])
}

/// Where its fits are made from its observations, every candidate of an event
/// lists every observation of its window.
pub proof fn every_candidate_lists_every_observation(
    e: EventResult,
    window: EventWindow,
    observations: Seq<Observation>,
    fits: Seq<Fit>,
    j: int,
    k: int,
)
    requires
        settled(e, window, observations, fits),
        all_over(observations, fits),
        0 <= j < CANDIDATES,
        0 <= k < observations.len(),
    ensures
        lists_pick(e.candidates@[j].assignments@, observations[k].pick.id@),
{
    let c = e.candidates@[j];
    let v = c.assignments@;
    assert(candidate_at(c, observations, fits, j));
    if c.fit is None {
        assert(assigned(v[k], observations[k], None, 0));
    } else {
        sorted_members(fits);
        let f = sorted(fits)[j];
        assert(sorted(fits).contains(f));
        let i = choose|i: int| 0 <= i < fits.len() && fits[i] == f;
        assert(fit_over(observations, fits[i]));
        let a = f.assignments@[k];
        sorted_members(f.assignments@);
        assert(f.assignments@.contains(a));
        assert(v.contains(a));
        let m = choose|m: int| 0 <= m < v.len() && v[m] == a;
        assert(v[m].observation_id@ == observations[k].pick.id@);
    }
}

/// Windows made from clusters hold at least two picks.
proof fn split_windows_are_full(picks: Seq<Pick>, clusters: Seq<Cluster>, n: int, s: Assigned)
    requires
        0 <= n <= clusters.len(),
        s.windows.len() == 0,
    ensures
        forall|i: int|
            0 <= i < split_clusters(picks, clusters, n, s).windows.len() ==> full(
                #[trigger] split_clusters(picks, clusters, n, s).windows[i],
            ),
    decreases n,
{
    if n > 0 {
        split_windows_are_full(picks, clusters, n - 1, s);
        let before = split_clusters(picks, clusters, n - 1, s).windows;
        let after = split_clusters(picks, clusters, n, s).windows;
        let members = clusters[n - 1].members@;
        assert forall|i: int| 0 <= i < after.len() implies full(#[trigger] after[i]) by {
            if i < before.len() {
                assert(after[i] == before[i]);
            } else {
                let (a, b) = choose|a: int, b: int|
                    0 <= a < members.len() && 0 <= b < members.len()
                        && picks[#[trigger] members[a] as int].station_id@
                        != picks[#[trigger] members[b] as int].station_id@;
                assert(a != b);
            }
        }
    }
}

/// What was rejected before the windows stays rejected.
proof fn piled_keeps_start(
    input: SolverInput,
    windows: Seq<EventWindow>,
    observations: Seq<Seq<Observation>>,
    events: Seq<EventResult>,
    start: Seq<Rejection>,
    n: int,
    x: Rejection,
)
    requires
        start.contains(x),
    ensures
        piled(input, windows, observations, events, start, n).contains(x),
    decreases n,
{
    if n > 0 {
        piled_keeps_start(input, windows, observations, events, start, n - 1, x);
        let before = piled(input, windows, observations, events, start, n - 1);
        let r = piled(input, windows, observations, events, start, n);
        let j = choose|j: int| 0 <= j < before.len() && before[j] == x;
        assert(r[j] == x);
    }
}

/// What is piled up is listed.
proof fn piled_is_named(all: Seq<Rejection>, d: Seq<Rejection>, x: Rejection)
    requires
        all.contains(x),
        d == listed(all),
    ensures
        named(d, x.observation_id),
{
    let order = sorted_by(all, |a: Rejection, b: Rejection| listed_first(a, b));
    sorted_holds(all, |a: Rejection, b: Rejection| listed_first(a, b), x);
    let j = choose|j: int| 0 <= j < order.len() && order[j] == x;
    deduplicated_keeps(order, j);
    assert(lists(d, x));
    let g = choose|g: int| 0 <= g < d.len() && repeats(#[trigger] d[g], x);
    assert(d[g].observation_id == x.observation_id);
}

/// Whether a pick is in the window with a number and in no other, and all
/// candidates of its event list it.
pub open spec fn listed_by_one_event(
    input: SolverInput,
    windows: Seq<EventWindow>,
    r: SolverResultSet,
    y: usize,
    i: int,
) -> bool {
    &&& 0 <= i < windows.len()
    &&& windows[i].picks@.contains(y)
    &&& forall|h: int|
        0 <= h < windows.len() && h != i ==> !(#[trigger] windows[h]).picks@.contains(y)
    &&& forall|j: int|
        0 <= j < CANDIDATES ==> lists_pick(
            (#[trigger] r.events@[i].candidates@[j]).assignments@,
            input.picks@[y as int].id@,
        )
}

/// Where nothing is locked, and the fits of each window are made from its
/// observations, no pick is lost: each that counts is rejected, or all three
/// candidates of one event list it.
pub proof fn unlocked_picks_are_rejected_or_listed(
    input: SolverInput,
    all: Seq<usize>,
    names: Seq<Seq<char>>,
    kept: Seq<usize>,
    clusters: Seq<Cluster>,
    fits: Seq<Result<Vec<Fit>, String>>,
    windows: Seq<EventWindow>,
    observations: Seq<Seq<Observation>>,
    start: Seq<Rejection>,
    r: SolverResultSet,
    y: usize,
)
    requires
        input.picks@.len() <= usize::MAX,
        input.locked@.len() == 0,
        plan_steps(
            input,
            all,
            names,
            kept,
            clusters,
            Assigned { windows: contents(windows), rejected: start },
        ),
        solved_by(input, fits, windows, observations, start, r),
        forall|i: int|
            0 <= i < windows.len() ==> all_over(#[trigger] observations[i], fits_for(fits, i)),
        all.contains(y),
    ensures
        named(rejections(r.rejected@), input.picks@[y as int].id@) || exists|i: int| #[trigger]
            listed_by_one_event(input, windows, r, y, i),
{
    let result = Assigned { windows: contents(windows), rejected: start };
    let picks = input.picks@;
    let pick = picks[y as int];
    let n = windows.len() as int;
    let pile = piled(input, windows, observations, r.events@, start, n);
    let d = rejections(r.rejected@);
    let dropped = drops(picks, all, names, names.len() as int);
    let checked = Assigned {
        windows: Seq::empty(),
        rejected: all_rejected(picks, dropped, order_reason()),
    };
    let split = split_clusters(picks, clusters, clusters.len() as int, checked);
    every_pick_is_accounted_for(input, all, names, kept, clusters, result, y);
    split_windows_are_full(picks, clusters, clusters.len() as int, checked);
    assert(locks_applied(picks, split, input.locked@, 0) == split);
    planned_windows_are_sound(input, result);
    let first = rejection(pick, order_reason());
    let second = rejection(pick, alone_reason());
    if start.contains(first) {
        piled_keeps_start(input, windows, observations, r.events@, start, n, first);
        piled_is_named(pile, d, first);
    } else if start.contains(second) {
        piled_keeps_start(input, windows, observations, r.events@, start, n, second);
        piled_is_named(pile, d, second);
    } else {
        let ws = contents(windows);
        assert(windowed(ws, y));
        let i = choose|i: int| 0 <= i < ws.len() && (#[trigger] ws[i]).picks.contains(y);
        let ids = windows[i].picks@;
        assert(ws[i] == windows[i]@);
        assert(event_of(input, windows[i], observations[i], fits_for(fits, i), r.events@[i]));
        usable_or_not(input, ids, y);
        match missing(input, pick) {
            Some(reason) => {
                let x = rejection(pick, reason);
                piled_holds(input, windows, observations, r.events@, start, i, n, x);
                piled_is_named(pile, d, x);
            },
            None => {
                let u = usable(input, ids);
                let m = choose|m: int| 0 <= m < u.len() && u[m] == y;
                assert(observed(input, u[m], observations[i][m]));
                assert(all_over(observations[i], fits_for(fits, i)));
                assert forall|j: int| 0 <= j < CANDIDATES implies lists_pick(
                    (#[trigger] r.events@[i].candidates@[j]).assignments@,
                    pick.id@,
                ) by {
                    every_candidate_lists_every_observation(
                        r.events@[i],
                        windows[i],
                        observations[i],
                        fits_for(fits, i),
                        j,
                        m,
                    );
                }
                assert forall|h: int| 0 <= h < windows.len() && h != i implies !(
                #[trigger] windows[h]).picks@.contains(y) by {
                    assert(ws[h] == windows[h]@);
                }
                assert(listed_by_one_event(input, windows, r, y, i));
            },
        }
    }
}

/// Whether an id is that of one of some picks.
pub open spec fn id_among(picks: Seq<Pick>, all: Seq<usize>, id: Seq<char>) -> bool {
    exists|k: int| 0 <= k < all.len() && picks[#[trigger] all[k] as int].id@ == id
}

/// Whether all rejections are about some picks.
spec fn about(picks: Seq<Pick>, all: Seq<usize>, v: Seq<Rejection>) -> bool {
    forall|i: int| 0 <= i < v.len() ==> id_among(picks, all, (#[trigger] v[i]).observation_id)
}

/// Whether all windows hold only some picks.
spec fn hold_only(all: Seq<usize>, ws: Seq<Window>) -> bool {
    forall|i: int, y: usize|
        0 <= i < ws.len() && #[trigger] ws[i].picks.contains(y) ==> all.contains(y)
}

/// A pick of some has its id among theirs.
proof fn member_is_among(picks: Seq<Pick>, all: Seq<usize>, y: usize)
    requires
        all.contains(y),
    ensures
        id_among(picks, all, picks[y as int].id@),
{
    let k = choose|k: int| 0 <= k < all.len() && all[k] == y;
    assert(picks[all[k] as int].id@ == picks[y as int].id@);
}

/// Clusters of some picks lead to windows and rejections of these picks only.
proof fn split_is_about(
    picks: Seq<Pick>,
    all: Seq<usize>,
    clusters: Seq<Cluster>,
    n: int,
    s: Assigned,
)
    requires
        0 <= n <= clusters.len(),
        forall|g: int, y: usize|
            0 <= g < clusters.len() && #[trigger] clusters[g].members@.contains(y) ==> all.contains(
                y,
            ),
        s.windows.len() == 0,
        about(picks, all, s.rejected),
    ensures
        hold_only(all, split_clusters(picks, clusters, n, s).windows),
        about(picks, all, split_clusters(picks, clusters, n, s).rejected),
    decreases n,
{
    if n > 0 {
        split_is_about(picks, all, clusters, n - 1, s);
        let before = split_clusters(picks, clusters, n - 1, s);
        let after = split_clusters(picks, clusters, n, s);
        let members = clusters[n - 1].members@;
        assert forall|i: int, y: usize|
            0 <= i < after.windows.len() && #[trigger] after.windows[i].picks.contains(
                y,
            ) implies all.contains(y) by {
            if i < before.windows.len() {
                assert(before.windows[i].picks.contains(y));
            } else {
                assert(clusters[n - 1].members@.contains(y));
            }
        }
        assert forall|i: int| 0 <= i < after.rejected.len() implies id_among(
            picks,
            all,
            (#[trigger] after.rejected[i]).observation_id,
        ) by {
            if i < before.rejected.len() {
                assert(after.rejected[i] == before.rejected[i]);
            } else {
                let y = members[i - before.rejected.len()];
                assert(clusters[n - 1].members@.contains(y));
                member_is_among(picks, all, y);
            }
        }
    }
}

/// What is put in its place and what was there before is all that there is.
proof fn inserted_from<V>(s: Seq<V>, x: V, first: spec_fn(V, V) -> bool, y: V)
    requires
        inserted_by(s, x, first).contains(y),
    ensures
        s.contains(y) || x == y,
    decreases s.len(),
{
    let r = inserted_by(s, x, first);
    let k = choose|k: int| 0 <= k < r.len() && r[k] == y;
    if s.len() == 0 || first(s.last(), x) {
        if k < s.len() {
            assert(s[k] == y);
        }
    } else {
        let t = s.drop_last();
        let u = inserted_by(t, x, first);
        if k < u.len() {
            assert(u[k] == y);
            inserted_from(t, x, first, y);
            if t.contains(y) {
                let i = choose|i: int| 0 <= i < t.len() && t[i] == y;
                assert(s[i] == y);
            }
        } else {
            assert(s[s.len() - 1] == y);
        }
    }
}

/// Sorting adds nothing.
proof fn sorted_from<V>(s: Seq<V>, first: spec_fn(V, V) -> bool, y: V)
    requires
        sorted_by(s, first).contains(y),
    ensures
        s.contains(y),
    decreases s.len(),
{
    if s.len() > 0 {
        let t = s.drop_last();
        inserted_from(sorted_by(t, first), s.last(), first, y);
        if sorted_by(t, first).contains(y) {
            sorted_from(t, first, y);
            let i = choose|i: int| 0 <= i < t.len() && t[i] == y;
            assert(s[i] == y);
        } else {
            assert(s[s.len() - 1] == y);
        }
    }
}

/// The windows that are located hold only what the windows held.
proof fn ready_holds_only(all: Seq<usize>, ws: Seq<Window>)
    requires
        hold_only(all, ws),
    ensures
        hold_only(all, ready(ws)),
{
    let some = full_ones(ws);
    let order = by_time(some);
    let r = ready(ws);
    assert forall|i: int, y: usize| 0 <= i < r.len() && #[trigger] r[i].picks.contains(
        y,
    ) implies all.contains(y) by {
        let w = order[i];
        assert(order.contains(w));
        sorted_from(some, |a: Window, b: Window| starts_first(a, b), w);
        let f = |w: Window| full(w);
        let k = choose|k: int| 0 <= k < some.len() && some[k] == w;
        assert(ws.filter(f)[k] == w);
        ws.lemma_filter_contains_rev(f, w);
        let h = choose|h: int| 0 <= h < ws.len() && ws[h] == w;
        assert(ws[h].picks.contains(y));
    }
}

/// Leaving out what repeats adds nothing.
proof fn deduplicated_from(s: Seq<Rejection>, y: Rejection)
    requires
        deduplicated(s).contains(y),
    ensures
        s.contains(y),
    decreases s.len(),
{
    if s.len() > 0 {
        let t = s.drop_last();
        let rest = deduplicated(t);
        let r = deduplicated(s);
        let k = choose|k: int| 0 <= k < r.len() && r[k] == y;
        if k < rest.len() {
            assert(rest[k] == y);
            deduplicated_from(t, y);
            let i = choose|i: int| 0 <= i < t.len() && t[i] == y;
            assert(s[i] == y);
        } else {
            assert(s[s.len() - 1] == y);
        }
    }
}

/// Picks that cannot take part are picks of the window.
proof fn unusable_is_about(input: SolverInput, all: Seq<usize>, ids: Seq<usize>)
    requires
        forall|y: usize| #[trigger] ids.contains(y) ==> all.contains(y),
    ensures
        about(input.picks@, all, unusable(input, ids)),
        forall|y: usize| #[trigger] usable(input, ids).contains(y) ==> all.contains(y),
    decreases ids.len(),
{
    if ids.len() > 0 {
        let t = ids.drop_last();
        assert forall|y: usize| #[trigger] t.contains(y) implies all.contains(y) by {
            let i = choose|i: int| 0 <= i < t.len() && t[i] == y;
            assert(ids[i] == y);
            assert(ids.contains(y));
        }
        unusable_is_about(input, all, t);
        let y = ids.last();
        assert(ids[ids.len() - 1] == y);
        assert(ids.contains(y));
        member_is_among(input.picks@, all, y);
        let (a, b) = (unusable(input, t), unusable(input, ids));
        assert forall|i: int| 0 <= i < b.len() implies id_among(
            input.picks@,
            all,
            (#[trigger] b[i]).observation_id,
        ) by {
            if i < a.len() {
                assert(b[i] == a[i]);
            }
        }
        let (u, v) = (usable(input, t), usable(input, ids));
        assert forall|z: usize| #[trigger] v.contains(z) implies all.contains(z) by {
            let i = choose|i: int| 0 <= i < v.len() && v[i] == z;
            if i < u.len() {
                assert(u[i] == z);
                assert(u.contains(z));
            }
        }
    }
}

/// Observations that are left over are observations of the window.
proof fn left_over_is_about(
    picks: Seq<Pick>,
    all: Seq<usize>,
    v: Seq<Observation>,
    candidates: Seq<CandidateResult>,
)
    requires
        forall|i: int| 0 <= i < v.len() ==> id_among(picks, all, (#[trigger] v[i]).pick.id@),
    ensures
        about(picks, all, left_over(v, candidates)),
    decreases v.len(),
{
    if v.len() > 0 {
        let t = v.drop_last();
        assert forall|i: int| 0 <= i < t.len() implies id_among(
            picks,
            all,
            (#[trigger] t[i]).pick.id@,
        ) by {
            assert(t[i] == v[i]);
        }
        left_over_is_about(picks, all, t, candidates);
        assert(id_among(picks, all, v[v.len() - 1].pick.id@));
        let (a, b) = (left_over(t, candidates), left_over(v, candidates));
        assert forall|i: int| 0 <= i < b.len() implies id_among(
            picks,
            all,
            (#[trigger] b[i]).observation_id,
        ) by {
            if i < a.len() {
                assert(b[i] == a[i]);
            }
        }
    }
}

/// What is rejected for the windows is about their picks.
proof fn piled_is_about(
    input: SolverInput,
    all: Seq<usize>,
    windows: Seq<EventWindow>,
    observations: Seq<Seq<Observation>>,
    events: Seq<EventResult>,
    start: Seq<Rejection>,
    n: int,
)
    requires
        0 <= n <= windows.len(),
        about(input.picks@, all, start),
        hold_only(all, contents(windows)),
        forall|i: int|
            0 <= i < windows.len() ==> all_observed(
                input,
                usable(input, windows[i].picks@),
                #[trigger] observations[i],
            ),
    ensures
        about(input.picks@, all, piled(input, windows, observations, events, start, n)),
    decreases n,
{
    if n > 0 {
        piled_is_about(input, all, windows, observations, events, start, n - 1);
        let ids = windows[n - 1].picks@;
        let v = observations[n - 1];
        assert(contents(windows)[n - 1] == windows[n - 1]@);
        assert forall|y: usize| #[trigger] ids.contains(y) implies all.contains(y) by {
            assert(contents(windows)[n - 1].picks.contains(y));
        }
        unusable_is_about(input, all, ids);
        let u = usable(input, ids);
        assert(all_observed(input, u, observations[n - 1]));
        assert forall|i: int| 0 <= i < v.len() implies id_among(
            input.picks@,
            all,
            (#[trigger] v[i]).pick.id@,
        ) by {
            assert(observed(input, u[i], v[i]));
            assert(u.contains(u[i]));
            member_is_among(input.picks@, all, u[i]);
        }
        left_over_is_about(input.picks@, all, v, events[n - 1].candidates@);
        let before = piled(input, windows, observations, events, start, n - 1);
        let (p, q) = (unusable(input, ids), left_over(v, events[n - 1].candidates@));
        let r = before + p + q;
        assert forall|i: int| 0 <= i < r.len() implies id_among(
            input.picks@,
            all,
            (#[trigger] r[i]).observation_id,
        ) by {
            if i < before.len() {
                assert(r[i] == before[i]);
            } else if i < before.len() + p.len() {
                assert(r[i] == p[i - before.len()]);
            } else {
                assert(r[i] == q[i - before.len() - p.len()]);
            }
        }
    }
}

/// Different picks have different ids.
proof fn ids_differ(input: SolverInput, z: usize, y: usize)
    requires
        input.wf(),
        z < input.picks@.len(),
        y < input.picks@.len(),
        z != y,
    ensures
        input.picks@[z as int].id@ != input.picks@[y as int].id@,
{
    let ids = pick_ids(input.picks@);
    if z < y {
        assert(text_lt(ids[z as int], ids[y as int]));
    } else {
        assert(text_lt(ids[y as int], ids[z as int]));
    }
}

/// Where nothing is locked, the plan of an input is about the picks that count.
proof fn plan_is_about(
    input: SolverInput,
    all: Seq<usize>,
    names: Seq<Seq<char>>,
    kept: Seq<usize>,
    clusters: Seq<Cluster>,
    result: Assigned,
)
    requires
        input.locked@.len() == 0,
        plan_steps(input, all, names, kept, clusters, result),
    ensures
        hold_only(all, result.windows),
        about(input.picks@, all, result.rejected),
        forall|k: int| 0 <= k < all.len() ==> (#[trigger] all[k]) < input.picks@.len(),
{
    assert forall|k: int| 0 <= k < all.len() implies (#[trigger] all[k]) < input.picks@.len() by {
        assert(all.contains(all[k]));
    }
    let picks = input.picks@;
    let dropped = drops(picks, all, names, names.len() as int);
    let checked = Assigned {
        windows: Seq::empty(),
        rejected: all_rejected(picks, dropped, order_reason()),
    };
    let split = split_clusters(picks, clusters, clusters.len() as int, checked);
    drops_are_members(picks, all, names, names.len() as int);
    assert forall|i: int| 0 <= i < checked.rejected.len() implies id_among(
        picks,
        all,
        (#[trigger] checked.rejected[i]).observation_id,
    ) by {
        assert(dropped.contains(dropped[i]));
        member_is_among(picks, all, dropped[i]);
    }
    assert forall|g: int, z: usize|
        0 <= g < clusters.len() && #[trigger] clusters[g].members@.contains(
            z,
        ) implies all.contains(z) by {
        assert(cluster_wf(picks, kept, clusters[g]));
        let k = choose|k: int|
            0 <= k < clusters[g].members@.len() && clusters[g].members@[k] == z;
        assert(kept.contains(clusters[g].members@[k]));
    }
    split_is_about(picks, all, clusters, clusters.len() as int, checked);
    assert(locks_applied(picks, split, input.locked@, 0) == split);
    ready_holds_only(all, split.windows);
}

/// Listing rejections keeps what they are about.
proof fn listed_is_about(picks: Seq<Pick>, all: Seq<usize>, pile: Seq<Rejection>)
    requires
        about(picks, all, pile),
    ensures
        about(picks, all, listed(pile)),
{
    let order = sorted_by(pile, |a: Rejection, b: Rejection| listed_first(a, b));
    let d = listed(pile);
    assert forall|j: int| 0 <= j < d.len() implies id_among(
        picks,
        all,
        (#[trigger] d[j]).observation_id,
    ) by {
        let x = d[j];
        assert(d.contains(x));
        deduplicated_from(order, x);
        sorted_from(pile, |a: Rejection, b: Rejection| listed_first(a, b), x);
        let k = choose|k: int| 0 <= k < pile.len() && pile[k] == x;
        assert(id_among(picks, all, pile[k].observation_id));
    }
}

/// The id of a pick is not among those of others.
proof fn not_among(input: SolverInput, all: Seq<usize>, y: usize)
    requires
        input.wf(),
        y < input.picks@.len(),
        !all.contains(y),
        forall|k: int| 0 <= k < all.len() ==> (#[trigger] all[k]) < input.picks@.len(),
    ensures
        !id_among(input.picks@, all, input.picks@[y as int].id@),
{
    let id = input.picks@[y as int].id@;
    assert forall|k: int| 0 <= k < all.len() implies input.picks@[#[trigger] all[k] as int].id@
        != id by {
        assert(all.contains(all[k]));
        ids_differ(input, all[k], y);
    }
}

/// Where windows and rejections are about some picks, so is the result.
proof fn others_are_nowhere(
    input: SolverInput,
    all: Seq<usize>,
    fits: Seq<Result<Vec<Fit>, String>>,
    windows: Seq<EventWindow>,
    observations: Seq<Seq<Observation>>,
    start: Seq<Rejection>,
    r: SolverResultSet,
    y: usize,
)
    requires
        input.wf(),
        hold_only(all, contents(windows)),
        about(input.picks@, all, start),
        forall|k: int| 0 <= k < all.len() ==> (#[trigger] all[k]) < input.picks@.len(),
        r.events@.len() == windows.len(),
        located(input, fits, windows, observations, r.events@),
        rejections(r.rejected@) == listed(
            piled(input, windows, observations, r.events@, start, windows.len() as int),
        ),
        y < input.picks@.len(),
        !all.contains(y),
    ensures
        forall|i: int| 0 <= i < windows.len() ==> !(#[trigger] windows[i]).picks@.contains(y),
        !named(rejections(r.rejected@), input.picks@[y as int].id@),
{
    let picks = input.picks@;
    let n = windows.len() as int;
    assert forall|i: int| 0 <= i < windows.len() implies !(
    #[trigger] windows[i]).picks@.contains(y) by {
        if windows[i].picks@.contains(y) {
            assert(contents(windows)[i].picks.contains(y));
        }
    }
    assert forall|i: int| 0 <= i < windows.len() implies all_observed(
        input,
        usable(input, windows[i].picks@),
        #[trigger] observations[i],
    ) by {
        assert(event_of(input, windows[i], observations[i], fits_for(fits, i), r.events@[i]));
    }
    piled_is_about(input, all, windows, observations, r.events@, start, n);
    let pile = piled(input, windows, observations, r.events@, start, n);
    listed_is_about(picks, all, pile);
    not_among(input, all, y);
}

/// Where nothing is locked, a pick that another made by hand replaces is in no
/// window, and is not rejected.
pub proof fn replaced_picks_are_nowhere(
    input: SolverInput,
    all: Seq<usize>,
    names: Seq<Seq<char>>,
    kept: Seq<usize>,
    clusters: Seq<Cluster>,
    fits: Seq<Result<Vec<Fit>, String>>,
    windows: Seq<EventWindow>,
    observations: Seq<Seq<Observation>>,
    start: Seq<Rejection>,
    r: SolverResultSet,
    y: usize,
)
    requires
        input.wf(),
        input.locked@.len() == 0,
        plan_steps(
            input,
            all,
            names,
            kept,
            clusters,
            Assigned { windows: contents(windows), rejected: start },
        ),
        solved_by(input, fits, windows, observations, start, r),
        y < input.picks@.len(),
        !all.contains(y),
    ensures
        forall|i: int| 0 <= i < windows.len() ==> !(#[trigger] windows[i]).picks@.contains(y),
        !named(rejections(r.rejected@), input.picks@[y as int].id@),
{
    plan_is_about(
        input,
        all,
        names,
        kept,
        clusters,
        Assigned { windows: contents(windows), rejected: start },
    );
    others_are_nowhere(input, all, fits, windows, observations, start, r, y);
}

} // verus!
