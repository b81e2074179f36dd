//! The window solver gives one result for one input: whatever meets its
//! contract says the same.
use vstd::prelude::*;

use crate::cluster::{climbing, cluster_wf, clusters_of, connected, Cluster};
use crate::fits::{
    assigned, candidate_at, left_over, settled, supported, weighs, CandidateResult,
    CovarianceSummary, EventResult, Fit, PickAssignment, StationBias,
};
use crate::locator::{all_observed, observed, usable};
use crate::model::{station_ids, Pick, SolverInput};
use crate::order::{rising, rising_unique, Ranked};
use crate::planner::{all_rejected, order_reason, plan_steps, planned, split_clusters};
use crate::precheck::drops;
use crate::solve::{event_of, fits_for, piled, solved, solved_by, SolverResultSet};
use crate::solver_types::{rejections, EventWindow, Observation, Rejection};
use crate::text::views;
use crate::windows::{contents, Assigned};

verus! {

/// Positions in rising order are told by what they hold.
proof fn climbing_unique(a: Seq<usize>, b: Seq<usize>)
    requires
        climbing(a),
        climbing(b),
        forall|x: usize| #[trigger] a.contains(x) <==> b.contains(x),
    ensures
        a == b,
    decreases a.len(),
{
    if a.len() == 0 {
        if b.len() > 0 {
            assert(b.contains(b[0]));
            assert(a.contains(b[0]));
        }
        assert(a =~= b);
    } else {
        assert(a.contains(a.last()));
        assert(b.contains(a.last()));
        let j = choose|j: int| 0 <= j < b.len() && b[j] == a.last();
        assert(b.contains(b.last()));
        assert(a.contains(b.last()));
        let i = choose|i: int| 0 <= i < a.len() && a[i] == b.last();
        if j < b.len() - 1 {
            assert(b[j] < b[b.len() - 1]);
            if i < a.len() - 1 {
                assert(a[i] < a[a.len() - 1]);
            }
        }
        let s = a.drop_last();
        let t = b.drop_last();
        assert forall|x: usize| #[trigger] s.contains(x) <==> t.contains(x) by {
            if s.contains(x) {
                let k = choose|k: int| 0 <= k < s.len() && s[k] == x;
                assert(a[k] == x && a[k] < a[a.len() - 1]);
                assert(a.contains(x));
                assert(b.contains(x));
                let m = choose|m: int| 0 <= m < b.len() && b[m] == x;
                assert(m != b.len() - 1);
                assert(t[m] == x);
            }
            if t.contains(x) {
                let k = choose|k: int| 0 <= k < t.len() && t[k] == x;
                assert(b[k] == x && b[k] < b[b.len() - 1]);
                assert(b.contains(x));
                assert(a.contains(x));
                let m = choose|m: int| 0 <= m < a.len() && a[m] == x;
                assert(m != a.len() - 1);
                assert(s[m] == x);
            }
        }
        climbing_unique(s, t);
        assert(a =~= s.push(a.last()));
        assert(b =~= t.push(b.last()));
    }
}

/// Whether a list holds the groups of connected picks.
#[verifier::opaque]
spec fn groups(picks: Seq<Pick>, ids: Seq<usize>, r: Seq<Cluster>) -> bool {
    clusters_of(picks, ids, r)
}

/// What is known of a group.
proof fn group_is(picks: Seq<Pick>, ids: Seq<usize>, r: Seq<Cluster>, g: int)
    requires
        groups(picks, ids, r),
        0 <= g < r.len(),
    ensures
        cluster_wf(picks, ids, r[g]),
        r[g].members@.contains(r[g].head),
        ids.contains(r[g].head),
{
    reveal(groups);
    assert(cluster_wf(picks, ids, r[g]));
    assert(r[g].members@[0] == r[g].head);
    assert(ids.contains(r[g].members@[0]));
}

/// Who is in the group of a pick.
proof fn group_holds(
    picks: Seq<Pick>,
    ids: Seq<usize>,
    r: Seq<Cluster>,
    g: int,
    x: usize,
    y: usize,
)
    requires
        groups(picks, ids, r),
        0 <= g < r.len(),
        r[g].members@.contains(x),
        ids.contains(y),
    ensures
        r[g].members@.contains(y) <==> connected(picks, ids, x, y),
{
    reveal(groups);
}

/// Which group a pick is in.
proof fn group_for(picks: Seq<Pick>, ids: Seq<usize>, r: Seq<Cluster>, x: usize) -> (h: int)
    requires
        groups(picks, ids, r),
        ids.contains(x),
    ensures
        0 <= h < r.len(),
        r[h].members@.contains(x),
{
    reveal(groups);
    let k = choose|k: int| 0 <= k < ids.len() && ids[k] == x;
    assert(crate::cluster::grouped(r, ids[k]));
    choose|h: int| 0 <= h < r.len() && (#[trigger] r[h]).members@.contains(x)
}

/// A member of a group is in the group of another list that shares one pick
/// with it.
proof fn member_in_both(
    picks: Seq<Pick>,
    ids: Seq<usize>,
    r: Seq<Cluster>,
    g: int,
    q: Seq<Cluster>,
    h: int,
    x: usize,
    y: usize,
)
    requires
        groups(picks, ids, r),
        groups(picks, ids, q),
        0 <= g < r.len(),
        0 <= h < q.len(),
        r[g].members@.contains(x),
        q[h].members@.contains(x),
        r[g].members@.contains(y),
    ensures
        q[h].members@.contains(y),
{
    group_is(picks, ids, r, g);
    let m = choose|m: int| 0 <= m < r[g].members@.len() && r[g].members@[m] == y;
    assert(ids.contains(r[g].members@[m]));
    group_holds(picks, ids, r, g, x, y);
    group_holds(picks, ids, q, h, x, y);
}

/// A group of one list is also a group of the other.
proof fn group_in_both(
    picks: Seq<Pick>,
    ids: Seq<usize>,
    r: Seq<Cluster>,
    q: Seq<Cluster>,
    g: int,
) -> (h: int)
    requires
        groups(picks, ids, r),
        groups(picks, ids, q),
        0 <= g < r.len(),
    ensures
        0 <= h < q.len(),
        q[h].members@ == r[g].members@,
        q[h].head == r[g].head,
        q[h].start == r[g].start,
{
    group_is(picks, ids, r, g);
    let x = r[g].head;
    let h = group_for(picks, ids, q, x);
    group_is(picks, ids, q, h);
    assert forall|y: usize| #[trigger] r[g].members@.contains(y) <==> q[h].members@.contains(
        y,
    ) by {
        if r[g].members@.contains(y) {
            member_in_both(picks, ids, r, g, q, h, x, y);
        }
        if q[h].members@.contains(y) {
            member_in_both(picks, ids, q, h, r, g, x, y);
        }
    }
    climbing_unique(r[g].members@, q[h].members@);
    h
}

/// Two places of a list with one group are one place.
proof fn group_once(picks: Seq<Pick>, ids: Seq<usize>, r: Seq<Cluster>, g: int, h: int)
    requires
        groups(picks, ids, r),
        0 <= g < r.len(),
        0 <= h < r.len(),
        r[g].head == r[h].head,
    ensures
        g == h,
{
    group_is(picks, ids, r, g);
    group_is(picks, ids, r, h);
    reveal(groups);
}

/// Groups come by their first picks.
proof fn group_order(picks: Seq<Pick>, ids: Seq<usize>, r: Seq<Cluster>, g: int, h: int)
    requires
        groups(picks, ids, r),
        0 <= g <= h < r.len(),
    ensures
        Cluster::comes_first(r[g], r[h]),
{
    reveal(groups);
}

/// Two lists of the groups of connected picks hold the same groups at the same
/// places.
proof fn groups_agree(
    picks: Seq<Pick>,
    ids: Seq<usize>,
    r: Seq<Cluster>,
    q: Seq<Cluster>,
    n: int,
)
    requires
        groups(picks, ids, r),
        groups(picks, ids, q),
        0 <= n <= r.len(),
        n <= q.len(),
    ensures
        forall|i: int|
            0 <= i < n ==> (#[trigger] r[i]).members@ == q[i].members@ && r[i].head == q[i].head,
    decreases n,
{
    if n > 0 {
        groups_agree(picks, ids, r, q, n - 1);
        let i = n - 1;
        let g = group_in_both(picks, ids, r, q, i);
        let h = group_in_both(picks, ids, q, r, i);
        if g < i {
            assert(r[g].head == q[g].head);
            group_once(picks, ids, r, g, i);
        }
        if h < i {
            assert(r[h].head == q[h].head);
            group_once(picks, ids, q, h, i);
        }
        if g > i {
            group_order(picks, ids, q, i, g);
            group_order(picks, ids, r, i, h);
            group_once(picks, ids, q, g, i);
        }
    }
}

/// The groups of connected picks have one order.
pub proof fn clusters_are_determined(
    picks: Seq<Pick>,
    ids: Seq<usize>,
    r: Seq<Cluster>,
    q: Seq<Cluster>,
)
    requires
        clusters_of(picks, ids, r),
        clusters_of(picks, ids, q),
    ensures
        r.len() == q.len(),
        forall|i: int| 0 <= i < r.len() ==> (#[trigger] r[i]).members@ == q[i].members@,
{
    assert(groups(picks, ids, r) && groups(picks, ids, q)) by {
        reveal(groups);
    }
    if r.len() < q.len() {
        groups_agree(picks, ids, r, q, r.len() as int);
        let g = group_in_both(picks, ids, q, r, r.len() as int);
        assert(r[g].head == q[g].head);
        group_once(picks, ids, q, g, r.len() as int);
    }
    if q.len() < r.len() {
        groups_agree(picks, ids, r, q, q.len() as int);
        let g = group_in_both(picks, ids, r, q, q.len() as int);
        assert(r[g].head == q[g].head);
        group_once(picks, ids, r, g, q.len() as int);
    }
    groups_agree(picks, ids, r, q, r.len() as int);
}

/// The same groups are split in the same way.
proof fn split_agrees(
    picks: Seq<Pick>,
    r: Seq<Cluster>,
    q: Seq<Cluster>,
    n: int,
    s: Assigned,
)
    requires
        0 <= n <= r.len(),
        r.len() == q.len(),
        forall|i: int| 0 <= i < r.len() ==> (#[trigger] r[i]).members@ == q[i].members@,
    ensures
        split_clusters(picks, r, n, s) == split_clusters(picks, q, n, s),
    decreases n,
{
    if n > 0 {
        split_agrees(picks, r, q, n - 1, s);
        assert(r[n - 1].members@ == q[n - 1].members@);
    }
}

/// An input is planned in one way.
pub proof fn plans_are_determined(input: SolverInput, a: Assigned, b: Assigned)
    requires
        planned(input, a),
        planned(input, b),
    ensures
        a == b,
{
    let (all, names, kept, clusters) = choose|
        all: Seq<usize>,
        names: Seq<Seq<char>>,
        kept: Seq<usize>,
        clusters: Seq<Cluster>,
    |
        plan_steps(input, all, names, kept, clusters, a);
    let (all2, names2, kept2, clusters2) = choose|
        all: Seq<usize>,
        names: Seq<Seq<char>>,
        kept: Seq<usize>,
        clusters: Seq<Cluster>,
    |
        plan_steps(input, all, names, kept, clusters, b);
    let picks = input.picks@;
    climbing_unique(all, all2);
    rising_unique(names, names2);
    climbing_unique(kept, kept2);
    clusters_are_determined(picks, kept, clusters, clusters2);
    let dropped = drops(picks, all, names, names.len() as int);
    let checked = Assigned {
        windows: Seq::empty(),
        rejected: all_rejected(picks, dropped, order_reason()),
    };
    split_agrees(picks, clusters, clusters2, clusters.len() as int, checked);
}

/// The usable picks are observed in one way.
proof fn observed_once(input: SolverInput, ids: Seq<usize>, v: Seq<Observation>, w: Seq<Observation>)
    requires
        input.wf(),
        all_observed(input, ids, v),
        all_observed(input, ids, w),
    ensures
        v == w,
{
    assert forall|i: int| 0 <= i < ids.len() implies v[i] == w[i] by {
        assert(observed(input, ids[i], v[i]));
        assert(observed(input, ids[i], w[i]));
        let s = input.stations@;
        let a = choose|a: int| 0 <= a < s.len() && s[a] == v[i].station;
        let b = choose|b: int| 0 <= b < s.len() && s[b] == w[i].station;
        assert(station_ids(s)[a] == station_ids(s)[b]);
        assert(rising(station_ids(s)));
        if a < b {
            assert(crate::order::text_lt(station_ids(s)[a], station_ids(s)[b]));
        } else if b < a {
            assert(crate::order::text_lt(station_ids(s)[b], station_ids(s)[a]));
        }
    }
    assert(v =~= w);
}

/// Whether two assignments say the same.
pub open spec fn same_assignment(a: PickAssignment, b: PickAssignment) -> bool {
    &&& a.observation_id@ == b.observation_id@
    &&& a.station_id@ == b.station_id@
    &&& a.phase == b.phase
    &&& a.corrected_time == b.corrected_time
    &&& a.residual_s == b.residual_s
    &&& a.uncertainty_s == b.uncertainty_s
    &&& a.confidence == b.confidence
    &&& a.weight == b.weight
    &&& a.locked == b.locked
    &&& a.source@ == b.source@
}

/// Whether two lists of assignments say the same.
pub open spec fn same_assignments(a: Seq<PickAssignment>, b: Seq<PickAssignment>) -> bool {
    a.len() == b.len() && forall|i: int| 0 <= i < a.len() ==> same_assignment(#[trigger] a[i], b[i])
}

/// Whether two lists of biases say the same.
pub open spec fn same_biases(a: Seq<StationBias>, b: Seq<StationBias>) -> bool {
    a.len() == b.len() && forall|i: int|
        0 <= i < a.len() ==> (#[trigger] a[i]).station_id@ == b[i].station_id@ && a[i].bias_s
            == b[i].bias_s
}

/// Whether two covariances say the same.
pub open spec fn same_covariance(a: CovarianceSummary, b: CovarianceSummary) -> bool {
    &&& a.positive_definite == b.positive_definite
    &&& a.rank == b.rank
    &&& a.condition_number == b.condition_number
    &&& a.source_sigma == b.source_sigma
    &&& a.correlations@ == b.correlations@
    &&& views(a.parameter_names@) == views(b.parameter_names@)
}

/// Whether two candidates of the window solver say the same.
pub open spec fn same_candidate(a: CandidateResult, b: CandidateResult) -> bool {
    &&& a.rank == b.rank
    &&& a.status == b.status
    &&& a.fit == b.fit
    &&& same_biases(a.station_bias@, b.station_bias@)
    &&& same_covariance(a.covariance, b.covariance)
    &&& views(a.warnings@) == views(b.warnings@)
    &&& same_assignments(a.assignments@, b.assignments@)
}

/// Whether two lists of candidates of the window solver say the same.
pub open spec fn same_candidates(a: Seq<CandidateResult>, b: Seq<CandidateResult>) -> bool {
    a.len() == b.len() && forall|i: int| 0 <= i < a.len() ==> same_candidate(#[trigger] a[i], b[i])
}

/// Whether two events say the same.
pub open spec fn same_event(a: EventResult, b: EventResult) -> bool {
    &&& a.event_key@ == b.event_key@
    &&& a.label@ == b.label@
    &&& a.station_count == b.station_count
    &&& a.pick_count == b.pick_count
    &&& a.phase_counts@ == b.phase_counts@
    &&& a.azimuthal_gap == b.azimuthal_gap
    &&& same_candidates(a.candidates@, b.candidates@)
}

/// Whether two results of the window solver say the same.
pub open spec fn same_result(a: SolverResultSet, b: SolverResultSet) -> bool {
    &&& rejections(a.rejected@) == rejections(b.rejected@)
    &&& a.events@.len() == b.events@.len()
    &&& forall|i: int| 0 <= i < a.events@.len() ==> same_event(#[trigger] a.events@[i], b.events@[i])
}

/// What stands at a place of an event is determined.
proof fn candidate_once(
    observations: Seq<Observation>,
    fits: Seq<Fit>,
    i: int,
    c: CandidateResult,
    d: CandidateResult,
)
    requires
        candidate_at(c, observations, fits, i),
        candidate_at(d, observations, fits, i),
    ensures
        same_candidate(c, d),
{
    assert(same_biases(c.station_bias@, d.station_bias@));
    assert forall|k: int| 0 <= k < c.assignments@.len() implies same_assignment(
        #[trigger] c.assignments@[k],
        d.assignments@[k],
    ) by {
        if c.fit is None {
            assert(assigned(c.assignments@[k], observations[k], None, 0));
            assert(assigned(d.assignments@[k], observations[k], None, 0));
        }
    }
}

/// An event is determined by its window, its observations and its fits.
proof fn event_once(
    window: EventWindow,
    other: EventWindow,
    observations: Seq<Observation>,
    fits: Seq<Fit>,
    e: EventResult,
    f: EventResult,
)
    requires
        window@ == other@,
        settled(e, window, observations, fits),
        settled(f, other, observations, fits),
    ensures
        same_event(e, f),
{
    assert forall|i: int| 0 <= i < e.candidates@.len() implies same_candidate(
        #[trigger] e.candidates@[i],
        f.candidates@[i],
    ) by {
        assert(candidate_at(e.candidates@[i], observations, fits, i));
        assert(candidate_at(f.candidates@[i], observations, fits, i));
        candidate_once(observations, fits, i, e.candidates@[i], f.candidates@[i]);
    }
}

/// Candidates that say the same weigh the same picks.
proof fn supported_alike(a: Seq<CandidateResult>, b: Seq<CandidateResult>, id: Seq<char>)
    requires
        same_candidates(a, b),
        supported(a, id),
    ensures
        supported(b, id),
{
    let i = choose|i: int| 0 <= i < a.len() && weighs((#[trigger] a[i]).assignments@, id);
    let v = a[i].assignments@;
    assert(same_candidate(a[i], b[i]));
    let k = choose|k: int|
        0 <= k < v.len() && (#[trigger] v[k]).weight > 0 && v[k].observation_id@ == id;
    assert(same_assignment(v[k], b[i].assignments@[k]));
    assert(b[i].assignments@[k].weight > 0);
    assert(weighs(b[i].assignments@, id));
}

/// Whether two lists of candidates say the same, the other way round.
proof fn same_candidates_symmetric(a: Seq<CandidateResult>, b: Seq<CandidateResult>)
    requires
        same_candidates(a, b),
    ensures
        same_candidates(b, a),
{
    assert forall|i: int| 0 <= i < b.len() implies same_candidate(#[trigger] b[i], a[i]) by {
        assert(same_candidate(a[i], b[i]));
        let (v, w) = (a[i].assignments@, b[i].assignments@);
        assert forall|k: int| 0 <= k < w.len() implies same_assignment(#[trigger] w[k], v[k]) by {
            assert(same_assignment(v[k], w[k]));
        }
        let (s, t) = (a[i].station_bias@, b[i].station_bias@);
        assert forall|k: int| 0 <= k < t.len() implies (#[trigger] t[k]).station_id@
            == s[k].station_id@ && t[k].bias_s == s[k].bias_s by {
            assert(s[k].station_id@ == t[k].station_id@);
        }
    }
}

/// Candidates that say the same leave the same observations.
proof fn left_over_alike(
    observations: Seq<Observation>,
    a: Seq<CandidateResult>,
    b: Seq<CandidateResult>,
)
    requires
        same_candidates(a, b),
    ensures
        left_over(observations, a) == left_over(observations, b),
    decreases observations.len(),
{
    if observations.len() > 0 {
        left_over_alike(observations.drop_last(), a, b);
        let id = observations.last().pick.id@;
        if supported(a, id) {
            supported_alike(a, b, id);
        }
        if supported(b, id) {
            same_candidates_symmetric(a, b);
            supported_alike(b, a, id);
        }
    }
}

/// Events that say the same pile up the same rejections.
proof fn piled_alike(
    input: SolverInput,
    v: Seq<EventWindow>,
    w: Seq<EventWindow>,
    observations: Seq<Seq<Observation>>,
    other: Seq<Seq<Observation>>,
    e: Seq<EventResult>,
    f: Seq<EventResult>,
    start: Seq<Rejection>,
    n: int,
)
    requires
        0 <= n <= e.len(),
        e.len() == f.len(),
        v.len() == e.len(),
        w.len() == e.len(),
        observations.len() == e.len(),
        other.len() == e.len(),
        forall|i: int| 0 <= i < v.len() ==> (#[trigger] v[i]).picks@ == w[i].picks@,
        forall|i: int| 0 <= i < v.len() ==> #[trigger] observations[i] == other[i],
        forall|i: int| 0 <= i < e.len() ==> same_event(#[trigger] e[i], f[i]),
    ensures
        piled(input, v, observations, e, start, n) == piled(input, w, other, f, start, n),
    decreases n,
{
    if n > 0 {
        piled_alike(input, v, w, observations, other, e, f, start, n - 1);
        assert(v[n - 1].picks@ == w[n - 1].picks@);
        assert(observations[n - 1] == other[n - 1]);
        assert(same_event(e[n - 1], f[n - 1]));
        left_over_alike(observations[n - 1], e[n - 1].candidates@, f[n - 1].candidates@);
    }
}

/// The window solver says one thing of one input and its fits.
pub proof fn window_results_are_determined(
    input: SolverInput,
    fits: Seq<Result<Vec<Fit>, String>>,
    a: SolverResultSet,
    b: SolverResultSet,
)
    requires
        input.wf(),
        solved(input, fits, a),
        solved(input, fits, b),
    ensures
        same_result(a, b),
{
    let (v, observations, start) = choose|
        windows: Seq<EventWindow>,
        observations: Seq<Seq<Observation>>,
        start: Seq<Rejection>,
    |
        solved_by(input, fits, windows, observations, start, a);
    let (w, other, start2) = choose|
        windows: Seq<EventWindow>,
        observations: Seq<Seq<Observation>>,
        start: Seq<Rejection>,
    |
        solved_by(input, fits, windows, observations, start, b);
    plans_are_determined(
        input,
        Assigned { windows: contents(v), rejected: start },
        Assigned { windows: contents(w), rejected: start2 },
    );
    assert(contents(v).len() == v.len() && contents(w).len() == w.len());
    let (e, f) = (a.events@, b.events@);
    assert forall|i: int| 0 <= i < v.len() implies (#[trigger] v[i])@ == w[i]@ by {
        assert(contents(v)[i] == v[i]@);
        assert(contents(w)[i] == w[i]@);
    }
    assert forall|i: int| 0 <= i < v.len() implies #[trigger] observations[i] == other[i] by {
        assert(v[i]@ == w[i]@);
        assert(event_of(input, v[i], observations[i], fits_for(fits, i), e[i]));
        assert(event_of(input, w[i], other[i], fits_for(fits, i), f[i]));
        observed_once(input, usable(input, v[i].picks@), observations[i], other[i]);
    }
    assert forall|i: int| 0 <= i < e.len() implies same_event(#[trigger] e[i], f[i]) by {
        assert(v[i]@ == w[i]@);
        assert(observations[i] == other[i]);
        assert(event_of(input, v[i], observations[i], fits_for(fits, i), e[i]));
        assert(event_of(input, w[i], other[i], fits_for(fits, i), f[i]));
        event_once(v[i], w[i], observations[i], fits_for(fits, i), e[i], f[i]);
    }
    assert forall|i: int| 0 <= i < v.len() implies (#[trigger] v[i]).picks@ == w[i].picks@ by {
        assert(v[i]@ == w[i]@);
    }
    piled_alike(input, v, w, observations, other, e, f, start, v.len() as int);
}

} // verus!
