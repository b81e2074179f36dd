//! Laws of linking: which picks the window solver puts into one event, said by
//! their times, stations and phases.
use vstd::prelude::*;

use crate::cluster::{
    chain, clusters_of, connected, grouped, linked, phase_gap_possible, Cluster,
};
use crate::model::{Phase, Pick};
use crate::precheck::impossible_pair;

verus! {

/// Picks at different stations are linked exactly where they are at most twelve
/// seconds apart, give or take a billionth, whatever their phases. Picks at one
/// station are linked where they are of different phases, at least half a
/// second apart and at most twelve, give or take the same.
pub proof fn links_are_of_twelve_seconds(a: Pick, b: Pick)
    ensures
        ({
            let dt = a.corrected_time - b.corrected_time;
            &&& a.station_id@ != b.station_id@ ==> (linked(a, b) <==> -12_000_000_001 <= dt
                <= 12_000_000_001)
            &&& a.station_id@ == b.station_id@ ==> (linked(a, b) <==> a.phase != b.phase && (
            500_000_000 <= dt <= 12_000_000_001 || -12_000_000_001 <= dt <= -500_000_000))
        }),
{
}

/// Which of two picks comes first makes no difference to their link.
pub proof fn links_go_both_ways(a: Pick, b: Pick)
    ensures
        linked(a, b) == linked(b, a),
{
}

/// Two picks at one station are possible phases of one event where the second
/// follows the first by half a second to a minute, give or take a billionth.
pub proof fn phases_follow_within_a_minute(earlier: int, later: int)
    ensures
        phase_gap_possible(earlier, later) <==> 500_000_000 <= later - earlier <= 60_000_000_000,
{
}

/// Two picks that are linked, as one is in a group, are both in it.
pub proof fn linked_picks_share_a_group(
    picks: Seq<Pick>,
    ids: Seq<usize>,
    r: Seq<Cluster>,
    g: int,
    x: usize,
    y: usize,
)
    requires
        clusters_of(picks, ids, r),
        0 <= g < r.len(),
        r[g].members@.contains(x),
        ids.contains(y),
        linked(picks[x as int], picks[y as int]),
    ensures
        r[g].members@.contains(y),
{
    let members = r[g].members@;
    let m = choose|m: int| 0 <= m < members.len() && members[m] == x;
    assert(crate::cluster::cluster_wf(picks, ids, r[g]));
    assert(ids.contains(members[m]));
    let path = seq![x, y];
    assert(chain(picks, ids, path)) by {
        assert(path[0] == x && path[1] == y);
    }
    assert(path[0] == x && path.last() == y);
    assert(connected(picks, ids, x, y));
}

/// Any two picks at different stations and at most twelve seconds apart are in
/// one group, whatever their phases.
pub proof fn near_picks_of_two_stations_share_a_group(
    picks: Seq<Pick>,
    ids: Seq<usize>,
    r: Seq<Cluster>,
    x: usize,
    y: usize,
) -> (g: int)
    requires
        clusters_of(picks, ids, r),
        ids.contains(x),
        ids.contains(y),
        picks[x as int].station_id@ != picks[y as int].station_id@,
        -12_000_000_000 <= picks[x as int].corrected_time - picks[y as int].corrected_time
            <= 12_000_000_000,
    ensures
        0 <= g < r.len(),
        r[g].members@.contains(x),
        r[g].members@.contains(y),
{
    links_are_of_twelve_seconds(picks[x as int], picks[y as int]);
    let k = choose|k: int| 0 <= k < ids.len() && ids[k] == x;
    assert(grouped(r, ids[k]));
    let g = choose|g: int| 0 <= g < r.len() && (#[trigger] r[g]).members@.contains(x);
    linked_picks_share_a_group(picks, ids, r, g, x, y);
    g
}

/// Each pick is in one group and no other, and a group holds nothing else, in
/// the order of the picks.
pub proof fn groups_part_the_picks(picks: Seq<Pick>, ids: Seq<usize>, r: Seq<Cluster>, x: usize)
    requires
        clusters_of(picks, ids, r),
    ensures
        ids.contains(x) <==> exists|g: int| 0 <= g < r.len() && (#[trigger] r[g]).members@.contains(x),
        forall|g: int, h: int|
            0 <= g < r.len() && 0 <= h < r.len() && (#[trigger] r[g]).members@.contains(x) && (
            #[trigger] r[h]).members@.contains(x) ==> g == h,
        forall|g: int, i: int, j: int|
            0 <= g < r.len() && 0 <= i < j < r[g].members@.len() ==> (#[trigger] r[g].members@[i])
                < (#[trigger] r[g].members@[j]),
        forall|g: int| 0 <= g < r.len() ==> (#[trigger] r[g]).members@.len() > 0,
        forall|g: int, h: int|
            0 <= g < h < r.len() ==> picks[(#[trigger] r[g]).members@[0] as int].corrected_time
                <= picks[(#[trigger] r[h]).members@[0] as int].corrected_time,
{
    if ids.contains(x) {
        let k = choose|k: int| 0 <= k < ids.len() && ids[k] == x;
        assert(grouped(r, ids[k]));
    }
    if exists|g: int| 0 <= g < r.len() && (#[trigger] r[g]).members@.contains(x) {
        let g = choose|g: int| 0 <= g < r.len() && (#[trigger] r[g]).members@.contains(x);
        let m = choose|m: int| 0 <= m < r[g].members@.len() && r[g].members@[m] == x;
        assert(crate::cluster::cluster_wf(picks, ids, r[g]));
        assert(ids.contains(r[g].members@[m]));
    }
    assert forall|g: int| 0 <= g < r.len() implies (#[trigger] r[g]).members@.len() > 0 by {
        assert(crate::cluster::cluster_wf(picks, ids, r[g]));
    }
    assert forall|g: int, i: int, j: int|
        0 <= g < r.len() && 0 <= i < j < r[g].members@.len() implies (#[trigger] r[g].members@[i])
        < (#[trigger] r[g].members@[j]) by {
        assert(crate::cluster::cluster_wf(picks, ids, r[g]));
    }
    assert forall|g: int, h: int| 0 <= g < h < r.len() implies picks[(
    #[trigger] r[g]).members@[0] as int].corrected_time <= picks[(
    #[trigger] r[h]).members@[0] as int].corrected_time by {
        assert(crate::cluster::cluster_wf(picks, ids, r[g]));
        assert(crate::cluster::cluster_wf(picks, ids, r[h]));
        assert(<Cluster as crate::order::Ranked>::comes_first(r[g], r[h]));
    }
}

/// A path from inside a set to outside it leaves it by a link.
proof fn path_leaves(picks: Seq<Pick>, ids: Seq<usize>, path: Seq<usize>, inside: Set<usize>) -> (k:
    int)
    requires
        chain(picks, ids, path),
        inside.contains(path[0]),
        !inside.contains(path.last()),
    ensures
        0 <= k < path.len() - 1,
        inside.contains(path[k]),
        !inside.contains(path[k + 1]),
    decreases path.len(),
{
    if path.len() == 1 {
        0
    } else {
        let n = path.len() - 1;
        if inside.contains(path[n - 1]) {
            n - 1
        } else {
            let p = path.drop_last();
            assert(chain(picks, ids, p)) by {
                assert forall|k: int| 0 <= k < p.len() implies ids.contains(#[trigger] p[k]) by {
                    assert(p[k] == path[k]);
                }
                assert forall|k: int| 0 <= k < p.len() - 1 implies linked(
                    picks[#[trigger] p[k] as int],
                    picks[p[k + 1] as int],
                ) by {
                    assert(p[k] == path[k] && p[k + 1] == path[k + 1]);
                }
            }
            path_leaves(picks, ids, p, inside)
        }
    }
}

/// A group holds together: however it is parted in two, a link joins the parts.
/// So picks that no chain of links joins are never in one group.
pub proof fn groups_hold_together(
    picks: Seq<Pick>,
    ids: Seq<usize>,
    r: Seq<Cluster>,
    g: int,
    inside: Set<usize>,
    x: usize,
    y: usize,
) -> (pair: (usize, usize))
    requires
        clusters_of(picks, ids, r),
        0 <= g < r.len(),
        r[g].members@.contains(x),
        r[g].members@.contains(y),
        inside.contains(x),
        !inside.contains(y),
    ensures
        ids.contains(pair.0),
        ids.contains(pair.1),
        inside.contains(pair.0),
        !inside.contains(pair.1),
        linked(picks[pair.0 as int], picks[pair.1 as int]),
{
    groups_part_the_picks(picks, ids, r, y);
    groups_part_the_picks(picks, ids, r, x);
    assert(ids.contains(y));
    assert(connected(picks, ids, x, y));
    let path = choose|path: Seq<usize>| #[trigger]
        chain(picks, ids, path) && path[0] == x && path.last() == y;
    let k = path_leaves(picks, ids, path, inside);
    assert(linked(picks[path[k] as int], picks[path[k + 1] as int]));
    assert(ids.contains(path[k]) && ids.contains(path[k + 1]));
    (path[k], path[k + 1])
}

/// Two picks that follow each other at one station cannot both be right where
/// they are less than half a second apart, whatever their phases; a P and an S
/// arrival may be short of that by a billionth.
pub proof fn arrivals_half_a_second_apart_are_possible(a: Pick, b: Pick)
    requires
        a.corrected_time <= b.corrected_time,
    ensures
        ({
            let dt = b.corrected_time - a.corrected_time;
            impossible_pair(a, b) <==> if a.phase == Phase::P && b.phase == Phase::S {
                dt < 499_999_999
            } else {
                dt < 500_000_000
            }
        }),
{
}

} // verus!
