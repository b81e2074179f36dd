//! From picks to event windows: the steps before any event is located, and
//! the tidying of the rejections after all are.
use vstd::prelude::*;

use crate::cluster::{climbing, cluster_picks, clusters_of, Cluster};
use crate::decimal::{decimal_text, padded_text};
use crate::model::{Pick, SolverInput};
use crate::order::{inserted_by, sort, sorted_by, sorted_map, Ranked};
use crate::precheck::{
    drops, effective_pick_ids, names_of, station_phase_precheck, stations_of, superseded,
};
use crate::solver_types::{reject, rejection, rejections, EventWindow, RejectedPick, Rejection};
use crate::text::{concat2, le, same, text_le, text_le_antisymmetric, text_le_total, text_le_transitive};
use crate::windows::{
    assign_locked_picks, contents, event_key, event_label, locks_applied, make_window, tidy,
    window_over, Assigned, Window,
};

verus! {

/// Why a pick fails the check of phases at its station.
pub open spec fn order_reason() -> Seq<char> {
    "impossible P/S ordering or duplicate-phase interval at this station"@
}

/// Why a pick is in no window.
pub open spec fn alone_reason() -> Seq<char> {
    "does not form a multi-station event window"@
}

/// Whether two of the given picks were made at different stations.
pub open spec fn multi_station(picks: Seq<Pick>, ids: Seq<usize>) -> bool {
    exists|i: int, j: int|
        0 <= i < ids.len() && 0 <= j < ids.len() && picks[#[trigger] ids[i] as int].station_id@
            != picks[#[trigger] ids[j] as int].station_id@
}

/// The given picks, rejected for one reason.
pub open spec fn all_rejected(picks: Seq<Pick>, ids: Seq<usize>, reason: Seq<char>) -> Seq<
    Rejection,
> {
    ids.map_values(|k: usize| rejection(picks[k as int], reason))
}

/// The windows of the first `n` clusters: a cluster seen at one station only
/// is rejected.
pub open spec fn split_clusters(
    picks: Seq<Pick>,
    clusters: Seq<Cluster>,
    n: int,
    s: Assigned,
) -> Assigned
    decreases n,
{
    if n <= 0 {
        s
    } else {
        let before = split_clusters(picks, clusters, n - 1, s);
        let members = clusters[n - 1].members@;
        if multi_station(picks, members) {
            Assigned {
                windows: before.windows.push(window_over(picks, before.windows.len(), members)),
                rejected: before.rejected,
            }
        } else {
            Assigned {
                windows: before.windows,
                rejected: before.rejected + all_rejected(picks, members, alone_reason()),
            }
        }
    }
}

/// Whether a window starts before another or ties with it; keys decide a tie.
pub open spec fn starts_first(a: Window, b: Window) -> bool {
    a.min_time < b.min_time || (a.min_time == b.min_time && text_le(a.key, b.key))
}

/// Windows numbered in their order.
pub open spec fn numbered(ws: Seq<Window>) -> Seq<Window> {
    Seq::new(
        ws.len(),
        |i: int|
            Window {
                key: event_key((i + 1) as nat),
                label: event_label((i + 1) as nat),
                ..ws[i]
            },
    )
}

/// Whether a window holds enough picks to be located.
pub open spec fn full(w: Window) -> bool {
    w.picks.len() >= 2
}

/// The windows that hold enough picks.
pub open spec fn full_ones(ws: Seq<Window>) -> Seq<Window> {
    ws.filter(|w: Window| full(w))
}

/// A window put among others at its time.
pub open spec fn put_by_time(ws: Seq<Window>, w: Window) -> Seq<Window> {
    inserted_by(ws, w, |a: Window, b: Window| starts_first(a, b))
}

/// Windows by time.
pub open spec fn by_time(ws: Seq<Window>) -> Seq<Window> {
    sorted_by(ws, |a: Window, b: Window| starts_first(a, b))
}

/// The windows to locate: those with at least two picks, by time, numbered.
pub open spec fn ready(ws: Seq<Window>) -> Seq<Window> {
    numbered(by_time(full_ones(ws)))
}

/// The positions of the picks that no pick made by hand replaces.
pub open spec fn effective(picks: Seq<Pick>, all: Seq<usize>) -> bool {
    &&& climbing(all)
    &&& forall|k: usize| #[trigger]
        all.contains(k) <==> k < picks.len() && !superseded(picks, picks[k as int].id@)
}

/// The steps from the input to the windows: the picks that count, the
/// stations that made them, the picks that pass the check at their station,
/// and the groups that these fall into.
pub open spec fn plan_steps(
    input: SolverInput,
    all: Seq<usize>,
    names: Seq<Seq<char>>,
    kept: Seq<usize>,
    clusters: Seq<Cluster>,
    result: Assigned,
) -> bool {
    let picks = input.picks@;
    let dropped = drops(picks, all, names, names.len() as int);
    let checked = Assigned {
        windows: Seq::empty(),
        rejected: all_rejected(picks, dropped, order_reason()),
    };
    let split = split_clusters(picks, clusters, clusters.len() as int, checked);
    let tied = locks_applied(picks, split, input.locked@, input.locked@.len() as int);
    &&& effective(picks, all)
    &&& names_of(names, stations_of(picks, all))
    &&& climbing(kept)
    &&& forall|k: usize| #[trigger] kept.contains(k) <==> all.contains(k) && !dropped.contains(k)
    &&& clusters_of(picks, kept, clusters)
    &&& result == (Assigned { windows: ready(tied.windows), rejected: tied.rejected })
}

/// The windows and the rejections that an input leads to.
pub open spec fn planned(input: SolverInput, result: Assigned) -> bool {
    exists|all: Seq<usize>, names: Seq<Seq<char>>, kept: Seq<usize>, clusters: Seq<Cluster>|
        plan_steps(input, all, names, kept, clusters, result)
}

/// Why an input cannot be solved, if it cannot.
pub open spec fn input_error(input: SolverInput) -> Option<Seq<char>> {
    if input.stations@.len() < 3 {
        Some("at least three stations are required for a local network solution"@)
    } else if input.models@.len() == 0 {
        Some("at least one velocity model is required"@)
    } else if exists|m: int|
        0 <= m < input.models@.len() && (#[trigger] input.models@[m]).layers@.len() == 0 {
        Some("velocity model has no layers"@)
    } else {
        None
    }
}

impl Ranked for EventWindow {
    open spec fn comes_first(a: Self, b: Self) -> bool {
        starts_first(a@, b@)
    }

    proof fn total(a: Self, b: Self) {
        text_le_total(a.key@, b.key@);
    }

    proof fn transitive(a: Self, b: Self, c: Self) {
        if a.min_time == b.min_time && b.min_time == c.min_time {
            text_le_transitive(a.key@, b.key@, c.key@);
        }
    }

    fn first(a: &Self, b: &Self) -> (r: bool) {
        a.min_time < b.min_time || (a.min_time == b.min_time && le(a.key.as_str(), b.key.as_str()))
    }
}

/// Checks that an input can be solved.
fn check_input(input: &SolverInput) -> (r: Result<(), String>)
    ensures
        match r {
            Ok(()) => input_error(*input) is None,
            Err(m) => input_error(*input) == Some(m@),
        },
{
    if input.stations.len() < 3 {
        return Err(
            "at least three stations are required for a local network solution".to_owned(),
        );
    }
    if input.models.len() == 0 {
        return Err("at least one velocity model is required".to_owned());
    }
    let mut m: usize = 0;
    while m < input.models.len()
        invariant
            m <= input.models@.len(),
            input.stations@.len() >= 3,
            input.models@.len() > 0,
            forall|i: int| 0 <= i < m ==> (#[trigger] input.models@[i]).layers@.len() != 0,
        decreases input.models@.len() - m,
    {
        if input.models[m].layers.len() == 0 {
            assert(input.models@[m as int].layers@.len() == 0);
            return Err("velocity model has no layers".to_owned());
        }
        m += 1;
    }
    Ok(())
}

/// Whether two of the given picks were made at different stations.
fn spans_stations(picks: &Vec<Pick>, ids: &Vec<usize>) -> (r: bool)
    requires
        ids@.len() > 0,
        forall|k: int| 0 <= k < ids@.len() ==> (#[trigger] ids@[k]) < picks@.len(),
    ensures
        r == multi_station(picks@, ids@),
{
    let mut i: usize = 1;
    while i < ids.len()
        invariant
            1 <= i <= ids@.len(),
            forall|k: int| 0 <= k < ids@.len() ==> (#[trigger] ids@[k]) < picks@.len(),
            forall|k: int|
                0 <= k < i ==> picks@[#[trigger] ids@[k] as int].station_id@
                    == picks@[ids@[0] as int].station_id@,
        decreases ids@.len() - i,
    {
        if !same(picks[ids[i]].station_id.as_str(), picks[ids[0]].station_id.as_str()) {
            assert(picks@[ids@[i as int] as int].station_id@
                != picks@[ids@[0] as int].station_id@);
            return true;
        }
        i += 1;
    }
    false
}

/// Rejects the given picks for one reason.
fn reject_all(
    picks: &Vec<Pick>,
    ids: &Vec<usize>,
    reason: &str,
    rejected: &mut Vec<RejectedPick>,
)
    requires
        forall|k: int| 0 <= k < ids@.len() ==> (#[trigger] ids@[k]) < picks@.len(),
    ensures
        rejections(final(rejected)@) == rejections(old(rejected)@) + all_rejected(
            picks@,
            ids@,
            reason@,
        ),
{
    let mut i: usize = 0;
    let ghost start = rejections(rejected@);
    assert(all_rejected(picks@, ids@.take(0), reason@) =~= Seq::<Rejection>::empty());
    assert(start + Seq::<Rejection>::empty() =~= start);
    while i < ids.len()
        invariant
            i <= ids@.len(),
            forall|k: int| 0 <= k < ids@.len() ==> (#[trigger] ids@[k]) < picks@.len(),
            rejections(rejected@) == start + all_rejected(picks@, ids@.take(i as int), reason@),
        decreases ids@.len() - i,
    {
        let item = reject(&picks[ids[i]], reason);
        let ghost before = rejected@;
        rejected.push(item);
        assert(rejections(rejected@) =~= rejections(before).push(item@));
        assert(all_rejected(picks@, ids@.take(i + 1), reason@) =~= all_rejected(
            picks@,
            ids@.take(i as int),
            reason@,
        ).push(item@));
        assert(start + all_rejected(picks@, ids@.take(i as int), reason@).push(item@) =~= (start
            + all_rejected(picks@, ids@.take(i as int), reason@)).push(item@));
        i += 1;
    }
    assert(ids@.take(i as int) =~= ids@);
}

/// The windows with at least two picks.
fn keep_full(windows: Vec<EventWindow>) -> (r: Vec<EventWindow>)
    ensures
        contents(r@) == full_ones(contents(windows@)),
{
    let mut rest = windows;
    let mut r: Vec<EventWindow> = Vec::new();
    let ghost ws = contents(windows@);
    let ghost good = |w: Window| full(w);
    let ghost mut done: int = 0;
    proof {
        reveal(Seq::filter);
        assert(ws.take(0) =~= Seq::<Window>::empty());
        assert(windows@.skip(0) =~= windows@);
        assert(contents(r@) =~= Seq::<Window>::empty());
    }
    while rest.len() > 0
        invariant
            0 <= done <= windows@.len(),
            rest@ == windows@.skip(done),
            ws == contents(windows@),
            good == (|w: Window| full(w)),
            contents(r@) == ws.take(done).filter(good),
        decreases rest@.len(),
    {
        let w = rest.remove(0);
        let ghost before = r@;
        let keep = w.picks.len() >= 2;
        assert(w@ == ws[done]);
        if keep {
            r.push(w);
            assert(contents(r@) =~= contents(before).push(ws[done]));
        }
        proof {
            reveal(Seq::filter);
            assert(ws.take(done + 1).drop_last() =~= ws.take(done));
            assert(ws.take(done + 1).last() == ws[done]);
            assert(rest@ =~= windows@.skip(done + 1));
            done = done + 1;
        }
    }
    assert(ws.take(done) =~= ws);
    r
}

/// Numbers windows in their order.
fn number(windows: &mut Vec<EventWindow>)
    ensures
        contents(final(windows)@) == numbered(contents(old(windows)@)),
{
    let ghost ws = contents(windows@);
    let n: usize = windows.len();
    let mut i: usize = 0;
    while i < n
        invariant
            i <= n,
            n == windows@.len(),
            n == ws.len(),
            forall|k: int| 0 <= k < i ==> (#[trigger] windows@[k])@ == numbered(ws)[k],
            forall|k: int| i <= k < n ==> (#[trigger] windows@[k])@ == ws[k],
        decreases n - i,
    {
        let number: u64 = (i + 1) as u64;
        windows[i].key = concat2("event-", padded_text(number, 2).as_str());
        windows[i].label = concat2("E", decimal_text(number).as_str());
        assert(windows@[i as int]@ == numbered(ws)[i as int]);
        i += 1;
    }
    assert(contents(windows@) =~= numbered(ws));
}

/// Windows from clusters keep their picks in order.
proof fn split_is_tidy(picks: Seq<Pick>, clusters: Seq<Cluster>, n: int, s: Assigned)
    requires
        0 <= n <= clusters.len(),
        forall|g: int| 0 <= g < clusters.len() ==> climbing((#[trigger] clusters[g]).members@),
        tidy(s.windows),
    ensures
        tidy(split_clusters(picks, clusters, n, s).windows),
    decreases n,
{
    if n > 0 {
        split_is_tidy(picks, clusters, n - 1, s);
        assert(climbing(clusters[n - 1].members@));
    }
}

/// One more cluster, opened or rejected.
fn window_cluster(
    picks: &Vec<Pick>,
    members: &Vec<usize>,
    windows: &mut Vec<EventWindow>,
    rejected: &mut Vec<RejectedPick>,
)
    requires
        members@.len() > 0,
        climbing(members@),
        forall|k: int| 0 <= k < members@.len() ==> (#[trigger] members@[k]) < picks@.len(),
        old(windows)@.len() < usize::MAX,
    ensures
        final(windows)@.len() <= old(windows)@.len() + 1,
        multi_station(picks@, members@) ==> contents(final(windows)@) == contents(
            old(windows)@,
        ).push(window_over(picks@, old(windows)@.len(), members@)) && rejections(final(rejected)@)
            == rejections(old(rejected)@),
        !multi_station(picks@, members@) ==> contents(final(windows)@) == contents(old(windows)@)
            && rejections(final(rejected)@) == rejections(old(rejected)@) + all_rejected(
            picks@,
            members@,
            alone_reason(),
        ),
{
    let ghost before = windows@;
    if spans_stations(picks, members) {
        let w = make_window(picks, windows.len(), members.clone());
        windows.push(w);
        assert(contents(windows@) =~= contents(before).push(w@));
    } else {
        reject_all(picks, members, "does not form a multi-station event window", rejected);
    }
}

/// Opens a window for each cluster seen at several stations.
fn window_clusters(
    picks: &Vec<Pick>,
    kept: &Vec<usize>,
    clusters: &Vec<Cluster>,
    rejected: &mut Vec<RejectedPick>,
) -> (r: Vec<EventWindow>)
    requires
        clusters_of(picks@, kept@, clusters@),
        forall|k: int| 0 <= k < kept@.len() ==> (#[trigger] kept@[k]) < picks@.len(),
    ensures
        (Assigned { windows: contents(r@), rejected: rejections(final(rejected)@) })
            == split_clusters(
            picks@,
            clusters@,
            clusters@.len() as int,
            Assigned { windows: Seq::empty(), rejected: rejections(old(rejected)@) },
        ),
{
    let mut windows: Vec<EventWindow> = Vec::new();
    let ghost start = Assigned { windows: Seq::empty(), rejected: rejections(rejected@) };
    assert(contents(windows@) =~= Seq::<Window>::empty());
    let n: usize = clusters.len();
    let mut g: usize = 0;
    while g < n
        invariant
            n == clusters@.len(),
            g <= n,
            windows@.len() <= g,
            clusters_of(picks@, kept@, clusters@),
            forall|k: int| 0 <= k < kept@.len() ==> (#[trigger] kept@[k]) < picks@.len(),
            contents(windows@) == split_clusters(picks@, clusters@, g as int, start).windows,
            rejections(rejected@) == split_clusters(picks@, clusters@, g as int, start).rejected,
        decreases n - g,
    {
        let ghost before = windows@.len();
        let members = &clusters[g].members;
        assert(crate::cluster::cluster_wf(picks@, kept@, clusters@[g as int]));
        assert forall|k: int| 0 <= k < members@.len() implies (#[trigger] members@[k])
            < picks@.len() by {
            assert(kept@.contains(members@[k]));
        }
        assert(contents(windows@).len() == before);
        window_cluster(picks, members, &mut windows, rejected);
        g += 1;
    }
    windows
}

/// Turns an input into the windows to locate and the picks rejected so far.
pub fn plan_windows(input: &SolverInput) -> (r: Result<(Vec<EventWindow>, Vec<RejectedPick>), String>)
    requires
        input.wf(),
    ensures
        match r {
            Ok((windows, rejected)) => input_error(*input) is None && planned(
                *input,
                Assigned { windows: contents(windows@), rejected: rejections(rejected@) },
            ),
            Err(m) => input_error(*input) == Some(m@),
        },
{
    match check_input(input) {
        Ok(()) => {},
        Err(m) => {
            return Err(m);
        },
    }
    let picks = &input.picks;
    let all = effective_pick_ids(picks);
    let (kept, dropped) = station_phase_precheck(picks, &all);
    let ghost names = choose|names: Seq<Seq<char>>| #[trigger]
        names_of(names, stations_of(picks@, all@));
    proof {
        crate::precheck::names_exist(stations_of(picks@, all@));
        assert forall|k: usize| #[trigger]
            all@.contains(k) <==> k < picks@.len() && !superseded(picks@, picks@[k as int].id@) by {
            if all@.contains(k) {
                let i = choose|i: int| 0 <= i < all@.len() && all@[i] == k;
                assert(all@[i] < picks@.len());
            }
        }
        crate::precheck::drops_are_members(picks@, all@, names, names.len() as int);
        assert forall|k: int| 0 <= k < dropped@.len() implies (#[trigger] dropped@[k])
            < picks@.len() by {
            assert(dropped@.contains(dropped@[k]));
            assert(all@.contains(dropped@[k]));
        }
        assert forall|k: int| 0 <= k < kept@.len() implies (#[trigger] kept@[k]) < picks@.len() by {
            assert(kept@.contains(kept@[k]));
            assert(all@.contains(kept@[k]));
        }
    }
    let mut rejected: Vec<RejectedPick> = Vec::new();
    reject_all(
        picks,
        &dropped,
        "impossible P/S ordering or duplicate-phase interval at this station",
        &mut rejected,
    );
    let clusters = cluster_picks(picks, &kept);
    let ghost checked = Assigned {
        windows: Seq::empty(),
        rejected: all_rejected(picks@, dropped@, order_reason()),
    };
    assert(rejections(rejected@) =~= checked.rejected);
    let windows = window_clusters(picks, &kept, &clusters, &mut rejected);
    let ghost split = split_clusters(picks@, clusters@, clusters@.len() as int, checked);
    proof {
        assert forall|h: int| 0 <= h < clusters@.len() implies climbing(
            (#[trigger] clusters@[h]).members@,
        ) by {
            assert(crate::cluster::cluster_wf(picks@, kept@, clusters@[h]));
        }
        split_is_tidy(picks@, clusters@, clusters@.len() as int, checked);
    }
    let windows = assign_locked_picks(picks, &input.locked, windows, &mut rejected);
    let ghost tied = contents(windows@);
    let windows = keep_full(windows);
    let ghost enough = windows@;
    let mut windows = sort(windows);
    proof {
        sorted_map(
            enough,
            |w: EventWindow| w@,
            |a: Window, b: Window| starts_first(a, b),
        );
        assert(contents(windows@) == sorted_by(
            contents(enough),
            |a: Window, b: Window| starts_first(a, b),
        ));
    }
    number(&mut windows);
    proof {
        assert(plan_steps(
            *input,
            all@,
            names,
            kept@,
            clusters@,
            Assigned { windows: contents(windows@), rejected: rejections(rejected@) },
        ));
    }
    Ok((windows, rejected))
}

/// Whether a rejection goes before another or ties with it: by pick, then by
/// reason.
pub open spec fn listed_first(a: Rejection, b: Rejection) -> bool {
    if a.observation_id == b.observation_id {
        text_le(a.reason, b.reason)
    } else {
        text_le(a.observation_id, b.observation_id)
    }
}

impl Ranked for RejectedPick {
    open spec fn comes_first(a: Self, b: Self) -> bool {
        listed_first(a@, b@)
    }

    proof fn total(a: Self, b: Self) {
        text_le_total(a.observation_id@, b.observation_id@);
        text_le_total(a.reason@, b.reason@);
    }

    proof fn transitive(a: Self, b: Self, c: Self) {
        if a.observation_id@ == b.observation_id@ && b.observation_id@ == c.observation_id@ {
            text_le_transitive(a.reason@, b.reason@, c.reason@);
        } else if a.observation_id@ != b.observation_id@ && b.observation_id@
            != c.observation_id@ {
            text_le_transitive(a.observation_id@, b.observation_id@, c.observation_id@);
            if a.observation_id@ == c.observation_id@ {
                text_le_antisymmetric(a.observation_id@, b.observation_id@);
            }
        }
    }

    fn first(a: &Self, b: &Self) -> (r: bool) {
        if same(a.observation_id.as_str(), b.observation_id.as_str()) {
            le(a.reason.as_str(), b.reason.as_str())
        } else {
            le(a.observation_id.as_str(), b.observation_id.as_str())
        }
    }
}

/// Whether two rejections are of one pick for one reason.
pub open spec fn repeats(a: Rejection, b: Rejection) -> bool {
    a.observation_id == b.observation_id && a.reason == b.reason
}

/// A list without the items that repeat the one before them.
pub open spec fn deduplicated(s: Seq<Rejection>) -> Seq<Rejection>
    decreases s.len(),
{
    if s.len() == 0 {
        s
    } else {
        let rest = deduplicated(s.drop_last());
        if rest.len() > 0 && repeats(rest.last(), s.last()) {
            rest
        } else {
            rest.push(s.last())
        }
    }
}

/// The rejections as they are handed out: sorted, none twice.
pub open spec fn listed(s: Seq<Rejection>) -> Seq<Rejection> {
    deduplicated(sorted_by(s, |a: Rejection, b: Rejection| listed_first(a, b)))
}

/// Sorts the rejections and drops those that repeat.
pub fn list_rejections(rejected: Vec<RejectedPick>) -> (r: Vec<RejectedPick>)
    ensures
        rejections(r@) == listed(rejections(rejected@)),
{
    let ghost start = rejected@;
    let mut rest = sort(rejected);
    let ghost all = rest@;
    proof {
        sorted_map(
            start,
            |x: RejectedPick| x@,
            |a: Rejection, b: Rejection| listed_first(a, b),
        );
        assert(rejections(all) == sorted_by(
            rejections(start),
            |a: Rejection, b: Rejection| listed_first(a, b),
        ));
        assert(rejections(all).take(0) =~= Seq::<Rejection>::empty());
        assert(all.skip(0) =~= all);
    }
    let mut r: Vec<RejectedPick> = Vec::new();
    assert(rejections(r@) =~= Seq::<Rejection>::empty());
    let ghost mut done: int = 0;
    while rest.len() > 0
        invariant
            0 <= done <= all.len(),
            rest@ == all.skip(done),
            rejections(r@) == deduplicated(rejections(all).take(done)),
        decreases rest@.len(),
    {
        let item = rest.remove(0);
        let ghost before = r@;
        proof {
            let t = rejections(all).take(done + 1);
            assert(t.drop_last() =~= rejections(all).take(done));
            assert(t.last() == item@);
            assert(rest@ =~= all.skip(done + 1));
        }
        let n: usize = r.len();
        let repeat = n > 0 && same(
            r[n - 1].observation_id.as_str(),
            item.observation_id.as_str(),
        ) && same(r[n - 1].reason.as_str(), item.reason.as_str());
        assert(n > 0 ==> rejections(r@).last() == r@[n - 1]@);
        if !repeat {
            r.push(item);
            assert(rejections(r@) =~= rejections(before).push(item@));
        }
        proof {
            done = done + 1;
        }
    }
    assert(rejections(all).take(done) =~= rejections(all));
    r
}

/// Whether a list is in the order of [`listed_first`].
pub open spec fn in_list_order(s: Seq<Rejection>) -> bool {
    forall|i: int, j: int| 0 <= i <= j < s.len() ==> listed_first(#[trigger] s[i], #[trigger] s[j])
}

/// What stands between two rejections that repeat repeats them.
proof fn between_repeats(a: Rejection, b: Rejection, c: Rejection)
    requires
        listed_first(a, b),
        listed_first(b, c),
        repeats(a, c),
    ensures
        repeats(a, b),
{
    if a.observation_id != b.observation_id {
        text_le_antisymmetric(a.observation_id, b.observation_id);
    }
    text_le_antisymmetric(a.reason, b.reason);
}

/// Dropping repeats adds nothing and keeps the last item.
proof fn deduplicated_members(s: Seq<Rejection>)
    ensures
        s.len() > 0 ==> deduplicated(s).len() > 0 && repeats(deduplicated(s).last(), s.last()),
        forall|i: int| 0 <= i < deduplicated(s).len() ==> s.contains(#[trigger] deduplicated(s)[i]),
    decreases s.len(),
{
    if s.len() > 0 {
        let t = s.drop_last();
        let d = deduplicated(t);
        let r = deduplicated(s);
        deduplicated_members(t);
        assert forall|i: int| 0 <= i < r.len() implies s.contains(#[trigger] r[i]) by {
            if i < d.len() {
                assert(r[i] == d[i]);
                let k = choose|k: int| 0 <= k < t.len() && t[k] == d[i];
                assert(s[k] == r[i]);
            } else {
                assert(s[s.len() - 1] == r[i]);
            }
        }
    }
}

/// Whether a list holds a rejection of one pick for one reason.
pub open spec fn lists(s: Seq<Rejection>, x: Rejection) -> bool {
    exists|i: int| 0 <= i < s.len() && repeats(#[trigger] s[i], x)
}

/// Dropping repeats keeps one of each.
pub proof fn deduplicated_keeps(s: Seq<Rejection>, k: int)
    requires
        0 <= k < s.len(),
    ensures
        lists(deduplicated(s), s[k]),
    decreases s.len(),
{
    let t = s.drop_last();
    let d = deduplicated(t);
    let r = deduplicated(s);
    if k < t.len() {
        deduplicated_keeps(t, k);
        let i = choose|i: int| 0 <= i < d.len() && repeats(#[trigger] d[i], t[k]);
        assert(r[i] == d[i]);
    } else {
        deduplicated_members(s);
        assert(repeats(r[r.len() - 1], s[k]));
    }
}

/// Dropping repeats from a sorted list leaves no two that repeat.
proof fn deduplicated_distinct(s: Seq<Rejection>)
    requires
        in_list_order(s),
    ensures
        in_list_order(deduplicated(s)),
        forall|i: int, j: int|
            0 <= i < j < deduplicated(s).len() ==> !repeats(
                #[trigger] deduplicated(s)[i],
                #[trigger] deduplicated(s)[j],
            ),
    decreases s.len(),
{
    if s.len() > 0 {
        let t = s.drop_last();
        let x = s.last();
        let d = deduplicated(t);
        let r = deduplicated(s);
        assert forall|i: int, j: int| 0 <= i <= j < t.len() implies listed_first(
            #[trigger] t[i],
            #[trigger] t[j],
        ) by {
            assert(listed_first(s[i], s[j]));
        }
        deduplicated_distinct(t);
        deduplicated_members(t);
        assert forall|i: int| 0 <= i < d.len() implies listed_first(#[trigger] d[i], x) by {
            let k = choose|k: int| 0 <= k < t.len() && t[k] == d[i];
            assert(listed_first(s[k], s[s.len() - 1]));
        }
        assert(listed_first(s[s.len() - 1], s[s.len() - 1]));
        if r.len() > d.len() {
            assert forall|i: int, j: int| 0 <= i < j < r.len() implies !repeats(
                #[trigger] r[i],
                #[trigger] r[j],
            ) by {
                assert(r[i] == d[i]);
                if j == d.len() {
                    if repeats(d[i], x) {
                        assert(listed_first(d[i], d[d.len() - 1]));
                        between_repeats(d[i], d[d.len() - 1], x);
                        assert(repeats(d[d.len() - 1], x));
                    }
                } else {
                    assert(r[j] == d[j]);
                }
            }
            assert forall|i: int, j: int| 0 <= i <= j < r.len() implies listed_first(
                #[trigger] r[i],
                #[trigger] r[j],
            ) by {
                if j < d.len() {
                    assert(listed_first(d[i], d[j]));
                }
            }
        }
    }
}

/// No pick is listed twice for one reason, and every pick that was rejected
/// is listed for its reason.
pub proof fn rejections_listed_once(all: Seq<RejectedPick>)
    ensures
        forall|i: int, j: int|
            0 <= i < j < listed(rejections(all)).len() ==> !repeats(
                #[trigger] listed(rejections(all))[i],
                #[trigger] listed(rejections(all))[j],
            ),
        forall|k: int|
            0 <= k < all.len() ==> lists(listed(rejections(all)), (#[trigger] all[k])@),
{
    let order = |a: Rejection, b: Rejection| listed_first(a, b);
    let s = crate::order::sorted(all);
    sorted_map(all, |x: RejectedPick| x@, order);
    crate::order::sorted_in_order(all);
    crate::order::sorted_members(all);
    let v = rejections(s);
    assert(v == sorted_by(rejections(all), order));
    assert forall|i: int, j: int| 0 <= i <= j < v.len() implies listed_first(
        #[trigger] v[i],
        #[trigger] v[j],
    ) by {
        assert(RejectedPick::comes_first(s[i], s[j]));
    }
    deduplicated_distinct(v);
    let r = listed(rejections(all));
    assert(r == deduplicated(v));
    assert forall|k: int| 0 <= k < all.len() implies lists(r, (#[trigger] all[k])@) by {
        assert(s.contains(all[k])) by {
            assert(all.contains(all[k]));
        }
        let j = choose|j: int| 0 <= j < s.len() && s[j] == all[k];
        assert(v[j] == all[k]@);
        deduplicated_keeps(v, j);
    }
}

} // verus!
