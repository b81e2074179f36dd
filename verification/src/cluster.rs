//! Which picks belong together: the link between two picks, and the groups
//! that links join.
use vstd::prelude::*;

use crate::model::Pick;
use crate::order::{in_order, sort, sorted_in_order, sorted_members, Ranked};
use crate::text::same;

verus! {

/// Slack for comparisons of times: a billionth of a second.
pub const TOLERANCE: i64 = 1;

/// The least gap between the arrivals of two phases at one station.
pub const PHASE_GAP_MIN: i64 = 500_000_000;

/// The largest gap between the arrivals of two phases at one station.
pub const PHASE_GAP_MAX: i64 = 60_000_000_000;

/// The largest gap between two linked picks.
pub const LINK_GAP_MAX: i64 = 12_000_000_000;

/// Whether two arrivals at one station are as far apart as two phases of one
/// event can be.
pub open spec fn phase_gap_possible(earlier: int, later: int) -> bool {
    &&& later > earlier + PHASE_GAP_MIN - TOLERANCE
    &&& later < earlier + PHASE_GAP_MAX + TOLERANCE
}

/// Whether two arrivals at one station are as far apart as two phases of one
/// event can be.
pub fn connected_time_same_station(earlier: i64, later: i64) -> (r: bool)
    ensures
        r == phase_gap_possible(earlier as int, later as int),
{
    let a: i128 = earlier as i128;
    let b: i128 = later as i128;
    b > a + PHASE_GAP_MIN as i128 - TOLERANCE as i128 && b < a + PHASE_GAP_MAX as i128
        + TOLERANCE as i128
}

/// Whether two picks can be arrivals of one event: close in time, and at one
/// station only as different phases a possible gap apart.
pub open spec fn linked(a: Pick, b: Pick) -> bool {
    let ta = a.corrected_time as int;
    let tb = b.corrected_time as int;
    let earlier = if ta <= tb {
        ta
    } else {
        tb
    };
    let later = if ta <= tb {
        tb
    } else {
        ta
    };
    &&& a.station_id@ == b.station_id@ ==> a.phase != b.phase && phase_gap_possible(earlier, later)
    &&& later - earlier <= LINK_GAP_MAX + TOLERANCE
}

/// Whether two picks can be arrivals of one event.
pub fn link(a: &Pick, b: &Pick) -> (r: bool)
    ensures
        r == linked(*a, *b),
{
    let (earlier, later): (i64, i64) = if a.corrected_time <= b.corrected_time {
        (a.corrected_time, b.corrected_time)
    } else {
        (b.corrected_time, a.corrected_time)
    };
    let allowed = !same(a.station_id.as_str(), b.station_id.as_str()) || (a.phase != b.phase
        && connected_time_same_station(earlier, later));
    allowed && later as i128 - earlier as i128 <= LINK_GAP_MAX as i128 + TOLERANCE as i128
}

/// A chain of links between picks of a list, given by their positions.
pub open spec fn chain(picks: Seq<Pick>, ids: Seq<usize>, path: Seq<usize>) -> bool {
    &&& path.len() > 0
    &&& forall|k: int| 0 <= k < path.len() ==> ids.contains(#[trigger] path[k])
    &&& forall|k: int|
        0 <= k < path.len() - 1 ==> linked(
            picks[#[trigger] path[k] as int],
            picks[path[k + 1] as int],
        )
}

/// Whether a chain of links leads from one pick to another.
pub open spec fn connected(picks: Seq<Pick>, ids: Seq<usize>, x: usize, y: usize) -> bool {
    exists|path: Seq<usize>| #[trigger]
        chain(picks, ids, path) && path[0] == x && path.last() == y
}

/// Every pick of the list is connected to itself.
pub proof fn connected_reflexive(picks: Seq<Pick>, ids: Seq<usize>, x: usize)
    requires
        ids.contains(x),
    ensures
        connected(picks, ids, x, x),
{
    let path = seq![x];
    assert(chain(picks, ids, path));
}

/// Connection goes both ways.
pub proof fn connected_symmetric(picks: Seq<Pick>, ids: Seq<usize>, x: usize, y: usize)
    requires
        connected(picks, ids, x, y),
    ensures
        connected(picks, ids, y, x),
{
    let path = choose|path: Seq<usize>| #[trigger]
        chain(picks, ids, path) && path[0] == x && path.last() == y;
    let back = path.reverse();
    assert forall|k: int| 0 <= k < back.len() implies ids.contains(#[trigger] back[k]) by {
        assert(back[k] == path[path.len() - 1 - k]);
    }
    assert forall|k: int| 0 <= k < back.len() - 1 implies linked(
        picks[#[trigger] back[k] as int],
        picks[back[k + 1] as int],
    ) by {
        let m = path.len() - 2 - k;
        assert(back[k] == path[m + 1]);
        assert(back[k + 1] == path[m]);
        assert(linked(picks[path[m] as int], picks[path[m + 1] as int]));
    }
    assert(chain(picks, ids, back));
}

/// Connection is transitive.
pub proof fn connected_transitive(
    picks: Seq<Pick>,
    ids: Seq<usize>,
    x: usize,
    y: usize,
    z: usize,
)
    requires
        connected(picks, ids, x, y),
        connected(picks, ids, y, z),
    ensures
        connected(picks, ids, x, z),
{
    let p = choose|path: Seq<usize>| #[trigger]
        chain(picks, ids, path) && path[0] == x && path.last() == y;
    let q = choose|path: Seq<usize>| #[trigger]
        chain(picks, ids, path) && path[0] == y && path.last() == z;
    let r = p + q.drop_first();
    assert forall|k: int| 0 <= k < r.len() implies ids.contains(#[trigger] r[k]) by {
        if k < p.len() {
            assert(r[k] == p[k]);
        } else {
            assert(r[k] == q[k - p.len() + 1]);
        }
    }
    assert forall|k: int| 0 <= k < r.len() - 1 implies linked(
        picks[#[trigger] r[k] as int],
        picks[r[k + 1] as int],
    ) by {
        if k < p.len() - 1 {
            assert(r[k] == p[k] && r[k + 1] == p[k + 1]);
        } else {
            let m = k - p.len() + 1;
            assert(r[k] == q[m]);
            assert(r[k + 1] == q[m + 1]);
        }
    }
    assert(chain(picks, ids, r));
    if q.len() > 1 {
        assert(r.last() == q.last());
    } else {
        assert(r.last() == p.last());
    }
}

/// Two linked picks are connected.
proof fn connected_by_link(picks: Seq<Pick>, ids: Seq<usize>, x: usize, y: usize)
    requires
        ids.contains(x),
        ids.contains(y),
        linked(picks[x as int], picks[y as int]),
    ensures
        connected(picks, ids, x, y),
{
    let path = seq![x, y];
    assert(chain(picks, ids, path));
}

/// A group of connected picks: their positions in rising order, and the time
/// and position of the first of them.
#[derive(Debug, Clone)]
pub struct Cluster {
    pub start: i64,
    pub head: usize,
    pub members: Vec<usize>,
}

impl Ranked for Cluster {
    /// By the time of the first pick, then by its position.
    open spec fn comes_first(a: Self, b: Self) -> bool {
        a.start < b.start || (a.start == b.start && a.head <= b.head)
    }

    proof fn total(a: Self, b: Self) {
    }

    proof fn transitive(a: Self, b: Self, c: Self) {
    }

    fn first(a: &Self, b: &Self) -> (r: bool) {
        a.start < b.start || (a.start == b.start && a.head <= b.head)
    }
}

/// Positions in rising order.
pub open spec fn climbing(s: Seq<usize>) -> bool {
    forall|i: int, j: int| 0 <= i < j < s.len() ==> (#[trigger] s[i]) < #[trigger] s[j]
}

/// A cluster over the given picks: the first member names it.
pub open spec fn cluster_wf(picks: Seq<Pick>, ids: Seq<usize>, c: Cluster) -> bool {
    &&& c.members@.len() > 0
    &&& climbing(c.members@)
    &&& forall|k: int| 0 <= k < c.members@.len() ==> ids.contains(#[trigger] c.members@[k])
    &&& c.head == c.members@[0]
    &&& c.start == picks[c.head as int].corrected_time
}

/// Whether a pick is in some group.
pub open spec fn grouped(r: Seq<Cluster>, x: usize) -> bool {
    exists|g: int| 0 <= g < r.len() && (#[trigger] r[g]).members@.contains(x)
}

/// Every pick of the list is in a group.
pub open spec fn clusters_cover(ids: Seq<usize>, r: Seq<Cluster>) -> bool {
    forall|k: int| 0 <= k < ids.len() ==> grouped(r, #[trigger] ids[k])
}

/// A pick is in the group of another exactly when the two are connected.
pub open spec fn clusters_connected(picks: Seq<Pick>, ids: Seq<usize>, r: Seq<Cluster>) -> bool {
    forall|g: int, x: usize, y: usize|
        0 <= g < r.len() && #[trigger] r[g].members@.contains(x) && #[trigger] ids.contains(y) ==> (
        r[g].members@.contains(y) <==> connected(picks, ids, x, y))
}

/// No pick is in two groups.
pub open spec fn clusters_apart(r: Seq<Cluster>) -> bool {
    forall|g: int, h: int, x: usize|
        0 <= g < r.len() && 0 <= h < r.len() && #[trigger] r[g].members@.contains(x)
            && #[trigger] r[h].members@.contains(x) ==> g == h
}

/// The groups are the classes of connected picks, by the time of their first
/// pick.
pub open spec fn clusters_of(picks: Seq<Pick>, ids: Seq<usize>, r: Seq<Cluster>) -> bool {
    &&& in_order(r)
    &&& forall|g: int| 0 <= g < r.len() ==> cluster_wf(picks, ids, #[trigger] r[g])
    &&& clusters_cover(ids, r)
    &&& clusters_connected(picks, ids, r)
    &&& clusters_apart(r)
}

/// Each position is labelled with the first position of its group so far.
pub open spec fn labels_wf(label: Seq<usize>, n: int) -> bool {
    &&& label.len() == n
    &&& forall|k: int| 0 <= k < n ==> (#[trigger] label[k]) <= k
    &&& forall|k: int| 0 <= k < n ==> label[(#[trigger] label[k]) as int] == label[k]
}

/// Positions with one label are connected.
pub open spec fn labels_sound(picks: Seq<Pick>, ids: Seq<usize>, label: Seq<usize>) -> bool {
    forall|a: int, b: int|
        0 <= a < ids.len() && 0 <= b < ids.len() && (#[trigger] label[a]) == (#[trigger] label[b])
            ==> connected(picks, ids, ids[a], ids[b])
}

/// Linked positions up to the pair `(i, j)` have one label.
pub open spec fn labels_complete(
    picks: Seq<Pick>,
    ids: Seq<usize>,
    label: Seq<usize>,
    i: int,
    j: int,
) -> bool {
    forall|a: int, b: int|
        0 <= a < b < ids.len() && (a < i || (a == i && b < j)) && linked(
            picks[#[trigger] ids[a] as int],
            picks[#[trigger] ids[b] as int],
        ) ==> label[a] == label[b]
}

/// Gives the label `lo` to every position labelled `hi`.
fn relabel(label: &mut Vec<usize>, lo: usize, hi: usize)
    ensures
        final(label)@.len() == old(label)@.len(),
        forall|k: int|
            0 <= k < old(label)@.len() ==> #[trigger] final(label)@[k] == (if old(label)@[k] == hi {
                lo
            } else {
                old(label)@[k]
            }),
{
    let mut k: usize = 0;
    let ghost before = label@;
    while k < label.len()
        invariant
            k <= label@.len(),
            label@.len() == before.len(),
            forall|m: int|
                0 <= m < k ==> #[trigger] label@[m] == (if before[m] == hi {
                    lo
                } else {
                    before[m]
                }),
            forall|m: int| k <= m < before.len() ==> #[trigger] label@[m] == before[m],
        decreases label@.len() - k,
    {
        if label[k] == hi {
            label.set(k, lo);
        }
        k += 1;
    }
}

/// Labels the positions of the list by the groups that links join.
fn join_links(picks: &Vec<Pick>, ids: &Vec<usize>) -> (label: Vec<usize>)
    requires
        forall|k: int| 0 <= k < ids@.len() ==> (#[trigger] ids@[k]) < picks@.len(),
        climbing(ids@),
    ensures
        labels_wf(label@, ids@.len() as int),
        labels_sound(picks@, ids@, label@),
        labels_complete(picks@, ids@, label@, ids@.len() as int, 0),
{
    let n: usize = ids.len();
    let mut label: Vec<usize> = Vec::new();
    let mut i: usize = 0;
    while i < n
        invariant
            n == ids@.len(),
            i <= n,
            label@.len() == i,
            forall|k: int| 0 <= k < i ==> #[trigger] label@[k] == k,
        decreases n - i,
    {
        label.push(i);
        i += 1;
    }
    assert(labels_sound(picks@, ids@, label@)) by {
        assert forall|a: int, b: int|
            0 <= a < ids@.len() && 0 <= b < ids@.len() && (#[trigger] label@[a]) == (
            #[trigger] label@[b]) implies connected(picks@, ids@, ids@[a], ids@[b]) by {
            connected_reflexive(picks@, ids@, ids@[a]);
        }
    }
    i = 0;
    while i < n
        invariant
            n == ids@.len(),
            i <= n,
            forall|k: int| 0 <= k < ids@.len() ==> (#[trigger] ids@[k]) < picks@.len(),
            labels_wf(label@, n as int),
            labels_sound(picks@, ids@, label@),
            labels_complete(picks@, ids@, label@, i as int, 0),
        decreases n - i,
    {
        let mut j: usize = i + 1;
        while j < n
            invariant
                n == ids@.len(),
                i < j <= n,
                forall|k: int| 0 <= k < ids@.len() ==> (#[trigger] ids@[k]) < picks@.len(),
                labels_wf(label@, n as int),
                labels_sound(picks@, ids@, label@),
                labels_complete(picks@, ids@, label@, i as int, j as int),
            decreases n - j,
        {
            let ghost before = label@;
            if link(&picks[ids[i]], &picks[ids[j]]) {
                let a: usize = label[i];
                let b: usize = label[j];
                if a != b {
                    let lo: usize = if a < b {
                        a
                    } else {
                        b
                    };
                    let hi: usize = if a < b {
                        b
                    } else {
                        a
                    };
                    relabel(&mut label, lo, hi);
                    proof {
                        merge_keeps(picks@, ids@, before, label@, i as int, j as int, lo, hi);
                    }
                }
            }
            assert(labels_complete(picks@, ids@, label@, i as int, j + 1));
            j += 1;
        }
        assert(labels_complete(picks@, ids@, label@, i + 1, 0));
        i += 1;
    }
    label
}

/// Merging the groups of two linked positions keeps what labels mean.
proof fn merge_keeps(
    picks: Seq<Pick>,
    ids: Seq<usize>,
    before: Seq<usize>,
    after: Seq<usize>,
    i: int,
    j: int,
    lo: usize,
    hi: usize,
)
    requires
        0 <= i < j < ids.len(),
        labels_wf(before, ids.len() as int),
        labels_sound(picks, ids, before),
        labels_complete(picks, ids, before, i, j),
        linked(picks[ids[i] as int], picks[ids[j] as int]),
        lo < hi,
        (before[i] == lo && before[j] == hi) || (before[i] == hi && before[j] == lo),
        after.len() == before.len(),
        forall|k: int|
            0 <= k < before.len() ==> #[trigger] after[k] == (if before[k] == hi {
                lo
            } else {
                before[k]
            }),
    ensures
        labels_wf(after, ids.len() as int),
        labels_sound(picks, ids, after),
        labels_complete(picks, ids, after, i, j + 1),
{
    let n = ids.len() as int;
    assert(before[lo as int] == lo) by {
        assert(before[before[i] as int] == before[i]);
        assert(before[before[j] as int] == before[j]);
    }
    assert forall|k: int| 0 <= k < n implies after[(#[trigger] after[k]) as int] == after[k] by {
        assert(before[before[k] as int] == before[k]);
    }
    assert(ids.contains(ids[i]) && ids.contains(ids[j]));
    connected_by_link(picks, ids, ids[i], ids[j]);
    connected_symmetric(picks, ids, ids[i], ids[j]);
    assert forall|a: int, b: int|
        0 <= a < ids.len() && 0 <= b < ids.len() && (#[trigger] after[a]) == (#[trigger] after[b])
        implies connected(picks, ids, ids[a], ids[b]) by {
        if before[a] != before[b] {
            let (p, q) = if before[a] == before[i] {
                (i, j)
            } else {
                (j, i)
            };
            assert(before[a] == before[p]);
            assert(before[q] == before[b]);
            assert(connected(picks, ids, ids[a], ids[p]));
            assert(connected(picks, ids, ids[q], ids[b]));
            connected_transitive(picks, ids, ids[a], ids[p], ids[q]);
            connected_transitive(picks, ids, ids[a], ids[q], ids[b]);
        }
    }
}

/// A chain never leaves the label that it starts in.
proof fn chain_keeps_label(
    picks: Seq<Pick>,
    ids: Seq<usize>,
    label: Seq<usize>,
    path: Seq<usize>,
    a: int,
    b: int,
)
    requires
        climbing(ids),
        label.len() == ids.len(),
        labels_complete(picks, ids, label, ids.len() as int, 0),
        chain(picks, ids, path),
        0 <= a < ids.len(),
        0 <= b < ids.len(),
        path[0] == ids[a],
        path.last() == ids[b],
    ensures
        label[a] == label[b],
    decreases path.len(),
{
    if path.len() == 1 {
        if a < b {
            assert(ids[a] < ids[b]);
        } else if b < a {
            assert(ids[b] < ids[a]);
        }
    } else {
        assert(ids.contains(path[1]));
        let c = choose|c: int| 0 <= c < ids.len() && ids[c] == path[1];
        assert(linked(picks[path[0] as int], picks[path[0int + 1] as int]));
        if a < c {
            assert(linked(picks[ids[a] as int], picks[ids[c] as int]));
        } else if c < a {
            assert(linked(picks[ids[c] as int], picks[ids[a] as int]));
        }
        assert(label[a] == label[c]);
        let rest = path.drop_first();
        assert(chain(picks, ids, rest)) by {
            assert forall|k: int| 0 <= k < rest.len() implies ids.contains(#[trigger] rest[k]) by {
                assert(rest[k] == path[k + 1]);
            }
            assert forall|k: int| 0 <= k < rest.len() - 1 implies linked(
                picks[#[trigger] rest[k] as int],
                picks[rest[k + 1] as int],
            ) by {
                assert(rest[k] == path[k + 1] && rest[k + 1] == path[k + 2]);
            }
        }
        chain_keeps_label(picks, ids, label, rest, c, b);
    }
}

/// Positions have one label exactly when their picks are connected.
proof fn labels_exact(picks: Seq<Pick>, ids: Seq<usize>, label: Seq<usize>, a: int, b: int)
    requires
        climbing(ids),
        label.len() == ids.len(),
        labels_sound(picks, ids, label),
        labels_complete(picks, ids, label, ids.len() as int, 0),
        0 <= a < ids.len(),
        0 <= b < ids.len(),
    ensures
        label[a] == label[b] <==> connected(picks, ids, ids[a], ids[b]),
{
    if connected(picks, ids, ids[a], ids[b]) {
        let path = choose|path: Seq<usize>| #[trigger]
            chain(picks, ids, path) && path[0] == ids[a] && path.last() == ids[b];
        chain_keeps_label(picks, ids, label, path, a, b);
    }
}

/// The position that a label belongs to is the head of a group.
#[verifier::opaque]
pub open spec fn group_at(ids: Seq<usize>, label: Seq<usize>, head: int, c: Cluster) -> bool {
    &&& 0 <= head < ids.len()
    &&& label[head] == head
    &&& c.head == ids[head]
    &&& climbing(c.members@)
    &&& forall|k: int|
        0 <= k < ids.len() ==> (c.members@.contains(#[trigger] ids[k]) <==> label[k] == head)
    &&& forall|m: int| 0 <= m < c.members@.len() ==> ids.contains(#[trigger] c.members@[m])
    &&& c.members@.len() > 0
    &&& c.members@[0] == ids[head]
}

/// A group that also carries the time of its first pick.
pub open spec fn collected(
    picks: Seq<Pick>,
    ids: Seq<usize>,
    label: Seq<usize>,
    head: int,
    c: Cluster,
) -> bool {
    group_at(ids, label, head, c) && c.start == picks[c.head as int].corrected_time
}

/// A group holds the picks that carry its label, and no others.
proof fn group_holds(ids: Seq<usize>, label: Seq<usize>, head: int, c: Cluster, k: int)
    requires
        group_at(ids, label, head, c),
        0 <= k < ids.len(),
    ensures
        c.members@.contains(ids[k]) <==> label[k] == head,
{
    reveal(group_at);
}

/// Each member of a group stands somewhere in the list, under the label of
/// the group.
proof fn group_place(ids: Seq<usize>, label: Seq<usize>, head: int, c: Cluster, x: usize) -> (a:
    int)
    requires
        group_at(ids, label, head, c),
        c.members@.contains(x),
    ensures
        0 <= a < ids.len(),
        ids[a] == x,
        label[a] == head,
{
    reveal(group_at);
    let m = choose|m: int| 0 <= m < c.members@.len() && c.members@[m] == x;
    assert(ids.contains(c.members@[m]));
    let a = choose|a: int| 0 <= a < ids.len() && ids[a] == x;
    assert(c.members@.contains(ids[a]));
    a
}

/// A group is a cluster.
proof fn group_is_cluster(
    picks: Seq<Pick>,
    ids: Seq<usize>,
    label: Seq<usize>,
    head: int,
    c: Cluster,
)
    requires
        group_at(ids, label, head, c),
        c.start == picks[c.head as int].corrected_time,
    ensures
        cluster_wf(picks, ids, c),
        0 <= head < ids.len(),
        c.head == ids[head],
{
    reveal(group_at);
}

/// Collects the positions that carry the label of one head.
fn collect_group(picks: &Vec<Pick>, ids: &Vec<usize>, label: &Vec<usize>, head: usize) -> (c:
    Cluster)
    requires
        forall|k: int| 0 <= k < ids@.len() ==> (#[trigger] ids@[k]) < picks@.len(),
        climbing(ids@),
        labels_wf(label@, ids@.len() as int),
        head < ids@.len(),
        label@[head as int] == head,
    ensures
        group_at(ids@, label@, head as int, c),
        c.start == picks@[c.head as int].corrected_time,
{
    let mut members: Vec<usize> = Vec::new();
    members.push(ids[head]);
    assert(head < ids.len());
    let mut k: usize = head + 1;
    assert(members@[0] == ids@[head as int]);
    while k < ids.len()
        invariant
            head < k <= ids@.len(),
            head < ids@.len(),
            climbing(ids@),
            labels_wf(label@, ids@.len() as int),
            label@[head as int] == head,
            members@.len() > 0,
            members@[0] == ids@[head as int],
            climbing(members@),
            forall|m: int| 0 <= m < members@.len() ==> ids@.contains(#[trigger] members@[m]),
            forall|m: int| 0 <= m < members@.len() ==> (#[trigger] members@[m]) <= ids@[k - 1],
            forall|q: int|
                0 <= q < k ==> (members@.contains(#[trigger] ids@[q]) <==> label@[q] == head),
            forall|q: int| k <= q < ids@.len() ==> !members@.contains(#[trigger] ids@[q]),
        decreases ids@.len() - k,
    {
        let ghost before = members@;
        assert(ids@[k - 1] < ids@[k as int]);
        if label[k] == head {
            members.push(ids[k]);
            proof {
                assert(members@[before.len() as int] == ids@[k as int]);
                assert forall|q: int| 0 <= q < ids@.len() implies (members@.contains(
                    #[trigger] ids@[q],
                ) <==> before.contains(ids@[q]) || q == k) by {
                    if before.contains(ids@[q]) {
                        let m = choose|m: int| 0 <= m < before.len() && before[m] == ids@[q];
                        assert(members@[m] == ids@[q]);
                    }
                    if members@.contains(ids@[q]) {
                        let m = choose|m: int| 0 <= m < members@.len() && members@[m] == ids@[q];
                        if m < before.len() {
                            assert(before[m] == ids@[q]);
                        } else {
                            if q < k {
                                assert(ids@[q] < ids@[k as int]);
                            } else if k < q {
                                assert(ids@[k as int] < ids@[q]);
                            }
                        }
                    }
                }
                assert forall|m: int| 0 <= m < members@.len() implies ids@.contains(
                    #[trigger] members@[m],
                ) && members@[m] <= ids@[k as int] by {
                    if m < before.len() {
                        assert(members@[m] == before[m]);
                    }
                }
                assert(climbing(members@));
            }
        } else {
            assert forall|m: int| 0 <= m < members@.len() implies (#[trigger] members@[m])
                <= ids@[k as int] by {}
        }
        k += 1;
    }
    let c = Cluster { start: picks[ids[head]].corrected_time, head: ids[head], members };
    proof {
        reveal(group_at);
    }
    c
}

/// The groups of connected picks among those at the given positions, by the
/// time of their first pick.
pub fn cluster_picks(picks: &Vec<Pick>, ids: &Vec<usize>) -> (r: Vec<Cluster>)
    requires
        forall|k: int| 0 <= k < ids@.len() ==> (#[trigger] ids@[k]) < picks@.len(),
        climbing(ids@),
    ensures
        clusters_of(picks@, ids@, r@),
{
    let label = join_links(picks, ids);
    let mut groups: Vec<Cluster> = Vec::new();
    let ghost mut heads: Seq<int> = Seq::empty();
    let mut i: usize = 0;
    while i < ids.len()
        invariant
            i <= ids@.len(),
            forall|k: int| 0 <= k < ids@.len() ==> (#[trigger] ids@[k]) < picks@.len(),
            climbing(ids@),
            labels_wf(label@, ids@.len() as int),
            heads.len() == groups@.len(),
            forall|g: int|
                0 <= g < heads.len() ==> #[trigger] collected(
                    picks@,
                    ids@,
                    label@,
                    heads[g],
                    groups@[g],
                ),
            forall|g: int| 0 <= g < heads.len() ==> (#[trigger] heads[g]) < i,
            forall|g: int, h: int|
                0 <= g < h < heads.len() ==> (#[trigger] heads[g]) < #[trigger] heads[h],
            forall|k: int| 0 <= k < i && label@[k] == k ==> #[trigger] heads.contains(k),
        decreases ids@.len() - i,
    {
        if label[i] == i {
            let c = collect_group(picks, ids, &label, i);
            let ghost before = heads;
            let ghost earlier = groups@;
            groups.push(c);
            proof {
                heads = heads.push(i as int);
                assert forall|g: int| 0 <= g < heads.len() implies #[trigger] collected(
                    picks@,
                    ids@,
                    label@,
                    heads[g],
                    groups@[g],
                ) by {
                    if g < before.len() {
                        assert(collected(picks@, ids@, label@, before[g], earlier[g]));
                    }
                }
                assert forall|k: int| 0 <= k < i + 1 && label@[k] == k implies #[trigger]
                    heads.contains(k) by {
                    if k < i {
                        assert(before.contains(k));
                        let m = choose|m: int| 0 <= m < before.len() && before[m] == k;
                        assert(heads[m] == k);
                    } else {
                        assert(heads[before.len() as int] == k);
                    }
                }
            }
        }
        i += 1;
    }
    let ghost unsorted = groups@;
    let r = sort(groups);
    proof {
        sorted_in_order(unsorted);
        sorted_members(unsorted);
        assert(unsorted.no_duplicates()) by {
            assert forall|g: int, h: int|
                0 <= g < unsorted.len() && 0 <= h < unsorted.len() && g != h implies unsorted[g]
                != unsorted[h] by {
                assert(collected(picks@, ids@, label@, heads[g], unsorted[g]));
                assert(collected(picks@, ids@, label@, heads[h], unsorted[h]));
                group_is_cluster(picks@, ids@, label@, heads[g], unsorted[g]);
                group_is_cluster(picks@, ids@, label@, heads[h], unsorted[h]);
                if g < h {
                    assert(heads[g] < heads[h]);
                    assert(ids@[heads[g]] < ids@[heads[h]]);
                } else {
                    assert(heads[h] < heads[g]);
                    assert(ids@[heads[h]] < ids@[heads[g]]);
                }
            }
        }
        groups_are_clusters(picks@, ids@, label@, heads, unsorted, r@);
    }
    r
}

/// Groups collected under all heads, in any order.
pub open spec fn all_collected(
    picks: Seq<Pick>,
    ids: Seq<usize>,
    label: Seq<usize>,
    heads: Seq<int>,
    groups: Seq<Cluster>,
) -> bool {
    &&& heads.len() == groups.len()
    &&& forall|g: int|
        0 <= g < heads.len() ==> #[trigger] collected(picks, ids, label, heads[g], groups[g])
    &&& forall|g: int, h: int|
        0 <= g < h < heads.len() ==> (#[trigger] heads[g]) < #[trigger] heads[h]
    &&& forall|k: int| 0 <= k < ids.len() && label[k] == k ==> #[trigger] heads.contains(k)
}

/// Every pick is in a collected group.
proof fn groups_cover(
    picks: Seq<Pick>,
    ids: Seq<usize>,
    label: Seq<usize>,
    heads: Seq<int>,
    groups: Seq<Cluster>,
    r: Seq<Cluster>,
    k: int,
)
    requires
        labels_wf(label, ids.len() as int),
        all_collected(picks, ids, label, heads, groups),
        forall|c: Cluster| #[trigger] r.contains(c) <==> groups.contains(c),
        0 <= k < ids.len(),
    ensures
        grouped(r, ids[k]),
{
    let head = label[k] as int;
    assert(label[label[k] as int] == label[k]);
    assert(heads.contains(head));
    let h = choose|h: int| 0 <= h < heads.len() && heads[h] == head;
    assert(collected(picks, ids, label, heads[h], groups[h]));
    group_holds(ids, label, heads[h], groups[h], k);
    assert(groups.contains(groups[h]));
    assert(r.contains(groups[h]));
    let g = choose|g: int| 0 <= g < r.len() && r[g] == groups[h];
    assert(r[g].members@.contains(ids[k]));
}

/// Each listed group was collected under some head.
proof fn group_head(
    picks: Seq<Pick>,
    ids: Seq<usize>,
    label: Seq<usize>,
    heads: Seq<int>,
    groups: Seq<Cluster>,
    r: Seq<Cluster>,
    g: int,
) -> (h: int)
    requires
        all_collected(picks, ids, label, heads, groups),
        forall|c: Cluster| #[trigger] r.contains(c) <==> groups.contains(c),
        0 <= g < r.len(),
    ensures
        0 <= h < groups.len(),
        groups[h] == r[g],
        collected(picks, ids, label, heads[h], groups[h]),
{
    assert(r.contains(r[g]));
    assert(groups.contains(r[g]));
    let h = choose|h: int| 0 <= h < groups.len() && groups[h] == r[g];
    assert(collected(picks, ids, label, heads[h], groups[h]));
    h
}

/// Groups collected under all heads, in any order, are the classes of
/// connected picks.
proof fn groups_are_clusters(
    picks: Seq<Pick>,
    ids: Seq<usize>,
    label: Seq<usize>,
    heads: Seq<int>,
    groups: Seq<Cluster>,
    r: Seq<Cluster>,
)
    requires
        climbing(ids),
        labels_wf(label, ids.len() as int),
        labels_sound(picks, ids, label),
        labels_complete(picks, ids, label, ids.len() as int, 0),
        all_collected(picks, ids, label, heads, groups),
        forall|c: Cluster| #[trigger] r.contains(c) <==> groups.contains(c),
        r.no_duplicates(),
    ensures
        clusters_cover(ids, r),
        clusters_connected(picks, ids, r),
        clusters_apart(r),
        forall|g: int| 0 <= g < r.len() ==> cluster_wf(picks, ids, #[trigger] r[g]),
{
    assert forall|g: int| 0 <= g < r.len() implies cluster_wf(picks, ids, #[trigger] r[g]) by {
        let h = group_head(picks, ids, label, heads, groups, r, g);
        group_is_cluster(picks, ids, label, heads[h], groups[h]);
    }
    assert forall|k: int| 0 <= k < ids.len() implies grouped(r, #[trigger] ids[k]) by {
        groups_cover(picks, ids, label, heads, groups, r, k);
    }
    assert forall|g: int, x: usize, y: usize|
        0 <= g < r.len() && #[trigger] r[g].members@.contains(x) && #[trigger] ids.contains(
            y,
        ) implies (r[g].members@.contains(y) <==> connected(picks, ids, x, y)) by {
        let h = group_head(picks, ids, label, heads, groups, r, g);
        let a = group_place(ids, label, heads[h], groups[h], x);
        let b = choose|b: int| 0 <= b < ids.len() && ids[b] == y;
        labels_exact(picks, ids, label, a, b);
        group_holds(ids, label, heads[h], groups[h], b);
    }
    assert forall|g: int, h: int, x: usize|
        0 <= g < r.len() && 0 <= h < r.len() && #[trigger] r[g].members@.contains(x)
            && #[trigger] r[h].members@.contains(x) implies g == h by {
        let p = group_head(picks, ids, label, heads, groups, r, g);
        let q = group_head(picks, ids, label, heads, groups, r, h);
        let a = group_place(ids, label, heads[p], groups[p], x);
        group_holds(ids, label, heads[q], groups[q], a);
        assert(heads[p] == heads[q]);
        if p < q {
            assert(heads[p] < heads[q]);
        } else if q < p {
            assert(heads[q] < heads[p]);
        }
    }
}

} // verus!
