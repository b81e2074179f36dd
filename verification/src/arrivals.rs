//! No arrival is lost by a fit: each is accepted or rejected, and never both.
use vstd::prelude::*;

use crate::association::{all_left, taken, untaken, Blueprint, Plan};
use crate::network::{observation_of, observations_are, placed_below, PickObservation, SolveContext};
use crate::network_fit::{
    all_unused, all_used, drafted, excessive, is_sifted, late, locked, rejected_late, remaining,
    settled, staying, stays, trimmed, CandidatePick, Draft, Settled, Sifted,
};
use crate::order::{in_order, sorted, sorted_in_order, sorted_items, sorted_members};

verus! {

/// The observations of some pairs of an observation and a reason.
pub open spec fn observations_in(v: Seq<(PickObservation, Seq<char>)>) -> Seq<PickObservation> {
    v.map_values(|l: (PickObservation, Seq<char>)| l.0)
}

/// Whether no two observations are of one pick.
pub open spec fn distinct_picks(v: Seq<PickObservation>) -> bool {
    forall|i: int, j: int|
        0 <= i < j < v.len() ==> (#[trigger] v[i]).pick_index != (#[trigger] v[j]).pick_index
}

/// Taking and leaving splits the observations.
proof fn triage_splits(context: SolveContext, b: Plan, v: Seq<PickObservation>)
    ensures
        taken(context, b, v).to_multiset().add(
            observations_in(untaken(context, b, v)).to_multiset(),
        ) == v.to_multiset(),
    decreases v.len(),
{
    broadcast use vstd::seq_lib::group_to_multiset_ensures;

    let left = untaken(context, b, v);
    if v.len() > 0 {
        let t = v.drop_last();
        triage_splits(context, b, t);
        assert(v =~= t.push(v.last()));
        let before = observations_in(untaken(context, b, t));
        if left.len() > before.len() {
            assert(observations_in(left) =~= before.push(v.last()));
        }
        assert(taken(context, b, v).to_multiset().add(observations_in(left).to_multiset())
            =~= v.to_multiset());
    } else {
        assert(observations_in(left) =~= v);
        assert(v.to_multiset().add(v.to_multiset()) =~= v.to_multiset());
    }
}

/// Trimming twice and rejecting splits observations, where what stays in the
/// end is what the second list holds.
proof fn trimming_splits(
    context: SolveContext,
    v: Seq<PickObservation>,
    first: Seq<usize>,
    last: Seq<usize>,
)
    requires
        forall|i: int|
            0 <= i < v.len() ==> (last.contains((#[trigger] v[i]).pick_index) <==> (first.contains(
                v[i].pick_index,
            ) || locked(context, v[i])) && (last.contains(v[i].pick_index) || locked(
                context,
                v[i],
            ))),
    ensures
        trimmed(context, trimmed(context, v, first), last).to_multiset().add(
            observations_in(late(v, last)).to_multiset(),
        ) == v.to_multiset(),
    decreases v.len(),
{
    broadcast use vstd::seq_lib::group_to_multiset_ensures;

    let out = late(v, last);
    let once = trimmed(context, v, first);
    let twice = trimmed(context, once, last);
    if v.len() > 0 {
        let t = v.drop_last();
        let o = v.last();
        assert forall|i: int| 0 <= i < t.len() implies (last.contains((#[trigger] t[i]).pick_index)
            <==> (first.contains(t[i].pick_index) || locked(context, t[i])) && (last.contains(
            t[i].pick_index,
        ) || locked(context, t[i]))) by {
            assert(t[i] == v[i]);
        }
        trimming_splits(context, t, first, last);
        assert(o == v[v.len() - 1]);
        assert(v =~= t.push(o));
        let before = observations_in(late(t, last));
        let rest = trimmed(context, t, first);
        assert(rest.push(o).drop_last() =~= rest);
        if out.len() > before.len() {
            assert(observations_in(out) =~= before.push(o));
        }
        assert(twice.to_multiset().add(observations_in(out).to_multiset()) =~= v.to_multiset());
    } else {
        assert(observations_in(out) =~= v);
        assert(v.to_multiset().add(v.to_multiset()) =~= v.to_multiset());
    }
}

/// What is left of some observations is among them, and each of it is of a pick
/// of a list or locked.
proof fn trimmed_is(context: SolveContext, v: Seq<PickObservation>, accepted: Seq<usize>)
    ensures
        forall|i: int|
            0 <= i < trimmed(context, v, accepted).len() ==> v.contains(
                #[trigger] trimmed(context, v, accepted)[i],
            ) && (accepted.contains(trimmed(context, v, accepted)[i].pick_index) || locked(
                context,
                trimmed(context, v, accepted)[i],
            )),
    decreases v.len(),
{
    let r = trimmed(context, v, accepted);
    if v.len() > 0 {
        let t = v.drop_last();
        trimmed_is(context, t, accepted);
        let rest = trimmed(context, t, accepted);
        assert forall|i: int| 0 <= i < r.len() implies v.contains(#[trigger] r[i]) && (
        accepted.contains(r[i].pick_index) || locked(context, r[i])) by {
            if i < rest.len() {
                assert(r[i] == rest[i]);
                let k = choose|k: int| 0 <= k < t.len() && t[k] == rest[i];
                assert(v[k] == r[i]);
            } else {
                assert(v[v.len() - 1] == r[i]);
            }
        }
    }
}

/// What is of a pick of a list, or locked, is left.
proof fn trimmed_keeps(
    context: SolveContext,
    v: Seq<PickObservation>,
    accepted: Seq<usize>,
    k: int,
)
    requires
        0 <= k < v.len(),
        accepted.contains(v[k].pick_index) || locked(context, v[k]),
    ensures
        trimmed(context, v, accepted).contains(v[k]),
    decreases v.len(),
{
    let t = v.drop_last();
    let r = trimmed(context, v, accepted);
    if k < t.len() {
        trimmed_keeps(context, t, accepted, k);
        let u = trimmed(context, t, accepted);
        let i = choose|i: int| 0 <= i < u.len() && u[i] == t[k];
        assert(r[i] == v[k]);
    } else {
        assert(r[r.len() - 1] == v[k]);
    }
}

/// A pick stays exactly where one of its observations does.
proof fn staying_is(context: SolveContext, v: Seq<PickObservation>, residuals: Seq<i64>)
    requires
        v.len() == residuals.len(),
    ensures
        forall|x: usize| #[trigger]
            staying(context, v, residuals).contains(x) <==> exists|i: int|
                0 <= i < v.len() && (#[trigger] v[i]).pick_index == x && stays(
                    context,
                    v[i],
                    residuals[i] as int,
                ),
    decreases v.len(),
{
    if v.len() > 0 {
        let (t, u) = (v.drop_last(), residuals.drop_last());
        staying_is(context, t, u);
        let rest = staying(context, t, u);
        let r = staying(context, v, residuals);
        assert forall|x: usize| #[trigger] r.contains(x) <==> exists|i: int|
            0 <= i < v.len() && (#[trigger] v[i]).pick_index == x && stays(
                context,
                v[i],
                residuals[i] as int,
            ) by {
            if r.contains(x) {
                let k = choose|k: int| 0 <= k < r.len() && r[k] == x;
                if k < rest.len() {
                    assert(rest[k] == x);
                    assert(rest.contains(x));
                    let i = choose|i: int|
                        0 <= i < t.len() && (#[trigger] t[i]).pick_index == x && stays(
                            context,
                            t[i],
                            u[i] as int,
                        );
                    assert(v[i].pick_index == x);
                } else {
                    assert(v[v.len() - 1].pick_index == x);
                }
            }
            if exists|i: int|
                0 <= i < v.len() && (#[trigger] v[i]).pick_index == x && stays(
                    context,
                    v[i],
                    residuals[i] as int,
                ) {
                let i = choose|i: int|
                    0 <= i < v.len() && (#[trigger] v[i]).pick_index == x && stays(
                        context,
                        v[i],
                        residuals[i] as int,
                    );
                if i < t.len() {
                    assert(t[i].pick_index == x && stays(context, t[i], u[i] as int));
                    assert(rest.contains(x));
                    let k = choose|k: int| 0 <= k < rest.len() && rest[k] == x;
                    assert(r[k] == x);
                } else {
                    assert(r[rest.len() as int] == x);
                }
            }
        }
    } else {
        assert forall|x: usize| !(#[trigger] staying(context, v, residuals).contains(x)) by {}
    }
}

/// What stays with the last fit and what the fits reject are what went into
/// the first.
proof fn fits_split(
    context: SolveContext,
    v: Seq<PickObservation>,
    first: Seq<i64>,
    sifted: Sifted,
    residuals: Seq<i64>,
)
    requires
        first.len() == v.len(),
        is_sifted(context, v, first, sifted),
        residuals.len() == sifted.observations@.len(),
    ensures
        remaining(context, sifted, residuals).to_multiset().add(
            observations_in(rejected_late(context, v, sifted, residuals)).to_multiset(),
        ) == v.to_multiset(),
{
    let once = staying(context, v, first);
    let kept = sifted.observations@;
    let last = staying(context, kept, residuals);
    staying_is(context, kept, residuals);
    trimmed_is(context, v, once);
    assert forall|i: int| 0 <= i < v.len() implies (last.contains((#[trigger] v[i]).pick_index)
        <==> (once.contains(v[i].pick_index) || locked(context, v[i])) && (last.contains(
        v[i].pick_index,
    ) || locked(context, v[i]))) by {
        let x = v[i].pick_index;
        if last.contains(x) {
            let k = choose|k: int|
                0 <= k < kept.len() && (#[trigger] kept[k]).pick_index == x && stays(
                    context,
                    kept[k],
                    residuals[k] as int,
                );
            assert(once.contains(kept[k].pick_index) || locked(context, kept[k]));
        } else if locked(context, v[i]) {
            trimmed_keeps(context, v, once, i);
            let k = choose|k: int| 0 <= k < kept.len() && kept[k] == v[i];
            assert(kept[k].pick_index == x && stays(context, kept[k], residuals[k] as int));
        }
    }
    trimming_splits(context, v, once, last);
}

/// Every observation is accepted or rejected, and as often as it was given:
/// what a hypothesis leaves, what its fits reject, and what stays with the last
/// of them are together what there was.
pub proof fn every_observation_is_accepted_or_rejected(
    context: SolveContext,
    blueprint: Blueprint,
    observations: Seq<PickObservation>,
    draft: Draft,
    first: Seq<i64>,
    sifted: Sifted,
    residuals: Seq<i64>,
    x: int,
    y: int,
    r: Settled,
)
    requires
        drafted(context, blueprint, observations, draft),
        first.len() == draft.observations@.len(),
        is_sifted(context, draft.observations@, first, sifted),
        residuals.len() == sifted.observations@.len(),
        settled(context, draft, sifted, residuals, x, y, r),
    ensures
        r.observations@.to_multiset().add(
            observations_in(all_left(r.rejected@)).to_multiset(),
        ) == observations.to_multiset(),
{
    let v = draft.observations@;
    let out = rejected_late(context, v, sifted, residuals);
    triage_splits(context, blueprint@, observations);
    fits_split(context, v, first, sifted, residuals);
    let left = all_left(draft.rejected@);
    assert(observations_in(left + out) =~= observations_in(left) + observations_in(out));
    vstd::seq_lib::lemma_multiset_commutative(observations_in(left), observations_in(out));
    assert(r.observations@.to_multiset().add(observations_in(left + out).to_multiset())
        =~= observations.to_multiset());
}

/// Observations of distinct picks are distinct.
proof fn distinct_picks_occur_once(v: Seq<PickObservation>, o: PickObservation)
    requires
        distinct_picks(v),
    ensures
        v.to_multiset().count(o) <= 1,
{
    assert(v.no_duplicates());
    v.lemma_multiset_has_no_duplicates();
    if v.to_multiset().count(o) > 0 {
        assert(v.to_multiset().contains(o));
    }
}

/// Taking observations keeps their picks distinct.
proof fn taken_picks_are_distinct(context: SolveContext, b: Plan, v: Seq<PickObservation>)
    requires
        distinct_picks(v),
    ensures
        distinct_picks(taken(context, b, v)),
        forall|i: int|
            0 <= i < taken(context, b, v).len() ==> v.contains(#[trigger] taken(context, b, v)[i]),
    decreases v.len(),
{
    if v.len() > 0 {
        let t = v.drop_last();
        assert(distinct_picks(t)) by {
            assert forall|i: int, j: int| 0 <= i < j < t.len() implies (
            #[trigger] t[i]).pick_index != (#[trigger] t[j]).pick_index by {
                assert(t[i] == v[i] && t[j] == v[j]);
            }
        }
        taken_picks_are_distinct(context, b, t);
        let rest = taken(context, b, t);
        let r = taken(context, b, v);
        part_is_distinct(v, rest, r);
    }
}

/// A list of distinct picks of all but the last, with or without the last, has
/// distinct picks.
proof fn part_is_distinct(
    v: Seq<PickObservation>,
    rest: Seq<PickObservation>,
    r: Seq<PickObservation>,
)
    requires
        v.len() > 0,
        distinct_picks(v),
        distinct_picks(rest),
        forall|i: int| 0 <= i < rest.len() ==> v.drop_last().contains(#[trigger] rest[i]),
        r == rest || r == rest.push(v.last()),
    ensures
        distinct_picks(r),
        forall|i: int| 0 <= i < r.len() ==> v.contains(#[trigger] r[i]),
{
    let t = v.drop_last();
    assert forall|i: int, j: int| 0 <= i < j < r.len() implies (#[trigger] r[i]).pick_index != (
    #[trigger] r[j]).pick_index by {
        assert(r[i] == rest[i]);
        if j < rest.len() {
            assert(r[j] == rest[j]);
        } else {
            let k = choose|k: int| 0 <= k < t.len() && t[k] == rest[i];
            assert(v[k].pick_index != v[v.len() - 1].pick_index);
        }
    }
    assert forall|i: int| 0 <= i < r.len() implies v.contains(#[trigger] r[i]) by {
        if i < rest.len() {
            assert(r[i] == rest[i]);
            let k = choose|k: int| 0 <= k < t.len() && t[k] == rest[i];
            assert(v[k] == r[i]);
        } else {
            assert(v[v.len() - 1] == r[i]);
        }
    }
}

/// Trimming observations keeps their picks distinct.
proof fn trimmed_picks_are_distinct(
    context: SolveContext,
    v: Seq<PickObservation>,
    accepted: Seq<usize>,
)
    requires
        distinct_picks(v),
    ensures
        distinct_picks(trimmed(context, v, accepted)),
    decreases v.len(),
{
    if v.len() > 0 {
        let t = v.drop_last();
        assert(distinct_picks(t)) by {
            assert forall|i: int, j: int| 0 <= i < j < t.len() implies (
            #[trigger] t[i]).pick_index != (#[trigger] t[j]).pick_index by {
                assert(t[i] == v[i] && t[j] == v[j]);
            }
        }
        trimmed_picks_are_distinct(context, t, accepted);
        trimmed_is(context, t, accepted);
        part_is_distinct(v, trimmed(context, t, accepted), trimmed(context, v, accepted));
    }
}

/// No observation is both accepted and rejected, and none that is accepted has
/// a residual that is too large, but for those that are locked.
pub proof fn accepted_observations_are_within_limits(
    context: SolveContext,
    blueprint: Blueprint,
    observations: Seq<PickObservation>,
    draft: Draft,
    first: Seq<i64>,
    sifted: Sifted,
    residuals: Seq<i64>,
    x: int,
    y: int,
    r: Settled,
)
    requires
        distinct_picks(observations),
        drafted(context, blueprint, observations, draft),
        first.len() == draft.observations@.len(),
        is_sifted(context, draft.observations@, first, sifted),
        residuals.len() == sifted.observations@.len(),
        settled(context, draft, sifted, residuals, x, y, r),
    ensures
        forall|o: PickObservation|
            !(#[trigger] r.observations@.contains(o) && observations_in(
                all_left(r.rejected@),
            ).contains(o)),
        forall|i: int|
            0 <= i < sifted.observations@.len() && r.observations@.contains(
                #[trigger] sifted.observations@[i],
            ) ==> !excessive(sifted.observations@[i], residuals[i] as int) || locked(
                context,
                sifted.observations@[i],
            ),
{
    every_observation_is_accepted_or_rejected(
        context,
        blueprint,
        observations,
        draft,
        first,
        sifted,
        residuals,
        x,
        y,
        r,
    );
    let kept = r.observations@;
    let out = observations_in(all_left(r.rejected@));
    assert forall|o: PickObservation| !(#[trigger] kept.contains(o) && out.contains(o)) by {
        distinct_picks_occur_once(observations, o);
        vstd::seq_lib::to_multiset_contains(kept, o);
        vstd::seq_lib::to_multiset_contains(out, o);
        assert(kept.to_multiset().add(out.to_multiset()).count(o) == kept.to_multiset().count(o)
            + out.to_multiset().count(o));
    }
    let v = sifted.observations@;
    let last = staying(context, v, residuals);
    taken_picks_are_distinct(context, blueprint@, observations);
    trimmed_picks_are_distinct(
        context,
        draft.observations@,
        staying(context, draft.observations@, first),
    );
    trimmed_is(context, v, last);
    staying_is(context, v, residuals);
    assert forall|i: int| 0 <= i < v.len() && kept.contains(#[trigger] v[i]) implies !excessive(
        v[i],
        residuals[i] as int,
    ) || locked(context, v[i]) by {
        let k = choose|k: int| 0 <= k < kept.len() && kept[k] == v[i];
        assert(last.contains(kept[k].pick_index) || locked(context, kept[k]));
        if !locked(context, v[i]) {
            let n = choose|n: int|
                0 <= n < v.len() && (#[trigger] v[n]).pick_index == v[i].pick_index && stays(
                    context,
                    v[n],
                    residuals[n] as int,
                );
            assert(n == i) by {
                if n < i {
                    assert(v[n].pick_index != v[i].pick_index);
                } else if i < n {
                    assert(v[i].pick_index != v[n].pick_index);
                }
            }
        }
    }
}

/// The observations of a context are of distinct picks.
pub proof fn observed_picks_are_distinct(context: SolveContext, v: Seq<PickObservation>)
    requires
        observations_are(context, placed_below(context, context.picks@.len() as int), v),
    ensures
        distinct_picks(v),
{
    let ids = placed_below(context, context.picks@.len() as int);
    placed_below_rises(context, context.picks@.len() as int);
    assert forall|i: int, j: int| 0 <= i < j < v.len() implies (#[trigger] v[i]).pick_index != (
    #[trigger] v[j]).pick_index by {
        assert(observation_of(context, ids[i], v[i]) && observation_of(context, ids[j], v[j]));
        assert(ids[i] < ids[j]);
    }
}

/// The places of picks at known stations rise.
proof fn placed_below_rises(context: SolveContext, n: int)
    ensures
        forall|i: int, j: int|
            0 <= i < j < placed_below(context, n).len() ==> #[trigger] placed_below(context, n)[i]
                < #[trigger] placed_below(context, n)[j],
        forall|i: int|
            0 <= i < placed_below(context, n).len() ==> #[trigger] placed_below(context, n)[i] < n,
    decreases n,
{
    if n > 0 {
        placed_below_rises(context, n - 1);
        let (before, after) = (placed_below(context, n - 1), placed_below(context, n));
        assert forall|i: int| 0 <= i < after.len() implies #[trigger] after[i] < n by {
            if i < before.len() {
                assert(after[i] == before[i]);
            }
        }
        assert forall|i: int, j: int| 0 <= i < j < after.len() implies #[trigger] after[i]
            < #[trigger] after[j] by {
            assert(after[i] == before[i]);
            if j < before.len() {
                assert(after[j] == before[j]);
            }
        }
    }
}

/// Lists with the same items have the same images.
proof fn same_images<A, B>(a: Seq<A>, b: Seq<A>, f: spec_fn(A) -> B)
    requires
        a.to_multiset() == b.to_multiset(),
    ensures
        a.map_values(f).to_multiset() == b.map_values(f).to_multiset(),
    decreases a.len(),
{
    broadcast use vstd::seq_lib::group_to_multiset_ensures;

    if a.len() > 0 {
        let x = a.last();
        assert(a.contains(x));
        vstd::seq_lib::to_multiset_contains(a, x);
        vstd::seq_lib::to_multiset_contains(b, x);
        let k = choose|k: int| 0 <= k < b.len() && b[k] == x;
        let t = a.drop_last();
        let u = b.remove(k);
        assert(a =~= t.push(x));
        assert(t.to_multiset() =~= a.to_multiset().remove(x));
        assert(u.to_multiset() =~= b.to_multiset().remove(x));
        same_images(t, u, f);
        let (p, q) = (a.map_values(f), b.map_values(f));
        assert(p =~= t.map_values(f).push(f(x)));
        assert(q.remove(k) =~= u.map_values(f));
        assert(q[k] == f(x));
        vstd::seq_lib::to_multiset_contains(q, f(x));
        assert(q.contains(f(x)));
        assert(q.to_multiset() =~= q.remove(k).to_multiset().insert(f(x)));
    } else {
        assert(b.len() == 0) by {
            if b.len() > 0 {
                vstd::seq_lib::to_multiset_contains(a, b[0]);
                vstd::seq_lib::to_multiset_contains(b, b[0]);
            }
        }
        assert(a.map_values(f) =~= b.map_values(f));
    }
}

/// The id of the pick of an observation.
pub open spec fn id_of(context: SolveContext, o: PickObservation) -> Seq<char> {
    context.picks@[o.pick_index as int].pick_id@
}

/// The ids of the picks of some observations.
pub open spec fn ids_of(context: SolveContext, v: Seq<PickObservation>) -> Seq<Seq<char>> {
    v.map_values(|o: PickObservation| id_of(context, o))
}

/// The ids of the picks that some reports are about.
pub open spec fn reported_ids(v: Seq<CandidatePick>) -> Seq<Seq<char>> {
    v.map_values(|c: CandidatePick| c.pick_id@)
}

/// Every arrival is reported as often as it was given, among the accepted or
/// among the rejected. The accepted are in the order of their ids, and every
/// rejected one has a reason.
pub proof fn every_arrival_is_reported(
    context: SolveContext,
    observations: Seq<PickObservation>,
    kept: Seq<PickObservation>,
    left: Seq<(PickObservation, Seq<char>)>,
    predictions: Seq<i128>,
    contributions: Seq<i128>,
    used: Seq<CandidatePick>,
    accepted: Seq<CandidatePick>,
    rejected: Seq<CandidatePick>,
)
    requires
        kept.to_multiset().add(observations_in(left).to_multiset()) == observations.to_multiset(),
        all_used(context, kept, predictions, contributions, used),
        accepted == sorted(used),
        all_unused(context, left, rejected),
    ensures
        reported_ids(accepted + rejected).to_multiset() == ids_of(
            context,
            observations,
        ).to_multiset(),
        in_order(accepted),
        forall|i: int| 0 <= i < accepted.len() ==> (#[trigger] accepted[i]).accepted,
        forall|i: int| 0 <= i < rejected.len() ==> (#[trigger] rejected[i]).reason is Some,
{
    let f = |o: PickObservation| id_of(context, o);
    let g = |c: CandidatePick| c.pick_id@;
    let all = kept + observations_in(left);
    vstd::seq_lib::lemma_multiset_commutative(kept, observations_in(left));
    same_images(all, observations, f);
    sorted_items(used);
    sorted_in_order(used);
    sorted_members(used);
    vstd::seq_lib::lemma_multiset_commutative(accepted, rejected);
    vstd::seq_lib::lemma_multiset_commutative(used, rejected);
    same_images(accepted + rejected, used + rejected, g);
    assert((used + rejected).map_values(g) =~= all.map_values(f)) by {
        assert forall|i: int| 0 <= i < all.len() implies (#[trigger] (used + rejected)[i]).pick_id@
            == id_of(context, all[i]) by {
            if i < used.len() {
                assert((used + rejected)[i] == used[i]);
            } else {
                assert((used + rejected)[i] == rejected[i - used.len()]);
                assert(all[i] == left[i - kept.len()].0);
            }
        }
    }
    assert forall|i: int| 0 <= i < accepted.len() implies (#[trigger] accepted[i]).accepted by {
        assert(accepted.contains(accepted[i]));
        let k = choose|k: int| 0 <= k < used.len() && used[k] == accepted[i];
        assert(used[k].accepted);
    }
}

} // verus!
