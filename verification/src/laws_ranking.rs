//! Laws of ranking: which candidates of an event are kept, and in what order.
use vstd::prelude::*;

use crate::candidate::Candidate;
use crate::order::{sorted, sorted_in_order, sorted_members, Ranked};
use crate::ranking::{but_for_rank, count_of, goes_first, kept};
use crate::text::text_le;

verus! {

/// Candidates are told apart by their scores, the lower first; then by their
/// events; then by where they are, the lower x and then the lower y first,
/// where one without a place counts as at zero.
pub proof fn lower_scores_come_first(a: Candidate, b: Candidate)
    ensures
        a.score_key < b.score_key ==> goes_first(a, b) && !goes_first(b, a),
        a.score_key == b.score_key && a.event_key@ != b.event_key@ ==> (goes_first(a, b) <==> text_le(
            a.event_key@,
            b.event_key@,
        )),
        a.score_key == b.score_key && a.event_key@ == b.event_key@ ==> {
            let (x, u) = (
                if a.x_km is Some { a.x_km->0 } else { 0 },
                if b.x_km is Some { b.x_km->0 } else { 0 },
            );
            let (y, v) = (
                if a.y_km is Some { a.y_km->0 } else { 0 },
                if b.y_km is Some { b.y_km->0 } else { 0 },
            );
            &&& x < u ==> goes_first(a, b) && !goes_first(b, a)
            &&& x == u && y < v ==> goes_first(a, b) && !goes_first(b, a)
            &&& x == u && y == v ==> goes_first(a, b) && goes_first(b, a)
        },
{
}

/// The candidates of an event.
pub open spec fn of_event(v: Seq<Candidate>, key: Seq<char>) -> Seq<Candidate> {
    v.filter(|c: Candidate| c.event_key@ == key)
}

/// The candidates of an event are counted.
proof fn candidates_are_counted(v: Seq<Candidate>, key: Seq<char>)
    ensures
        count_of(v, key) == of_event(v, key).len(),
    decreases v.len(),
{
    reveal(Seq::filter);
    if v.len() > 0 {
        candidates_are_counted(v.drop_last(), key);
    }
}

/// What was kept comes from some place of a list.
proof fn kept_from(v: Seq<Candidate>, j: int) -> (i: int)
    requires
        0 <= j < kept(v).len(),
    ensures
        0 <= i < v.len(),
        but_for_rank(kept(v)[j], v[i]),
    decreases v.len(),
{
    let t = v.drop_last();
    if j < kept(t).len() {
        assert(kept(v)[j] == kept(t)[j]);
        let i = kept_from(t, j);
        assert(t[i] == v[i]);
        i
    } else {
        v.len() - 1
    }
}

/// A list has no fewer of an event than its beginning.
proof fn count_grows(v: Seq<Candidate>, n: int, key: Seq<char>)
    requires
        0 <= n <= v.len(),
    ensures
        count_of(v.take(n), key) <= count_of(v, key),
    decreases v.len(),
{
    if n < v.len() {
        count_grows(v.drop_last(), n, key);
        assert(v.drop_last().take(n) =~= v.take(n));
    } else {
        assert(v.take(n) =~= v);
    }
}

/// A candidate with fewer than three of its event before it is kept; of the
/// event of another only such are kept as come before it.
proof fn kept_by_place(v: Seq<Candidate>, i: int)
    requires
        0 <= i < v.len(),
    ensures
        count_of(v.take(i), v[i].event_key@) < 3 ==> exists|j: int|
            0 <= j < kept(v).len() && but_for_rank(#[trigger] kept(v)[j], v[i]),
        count_of(v.take(i), v[i].event_key@) >= 3 ==> forall|j: int|
            0 <= j < kept(v).len() && (#[trigger] kept(v)[j]).event_key@ == v[i].event_key@
                ==> exists|m: int| 0 <= m < i && but_for_rank(kept(v)[j], #[trigger] v[m]),
    decreases v.len(),
{
    let t = v.drop_last();
    let key = v[i].event_key@;
    let last = v.len() - 1;
    if i == last {
        assert(v.take(i) =~= t);
        if count_of(t, key) < 3 {
            assert(but_for_rank(kept(v)[kept(v).len() - 1], v[i]));
        } else {
            assert forall|j: int|
                0 <= j < kept(v).len() && (#[trigger] kept(v)[j]).event_key@ == key implies exists|
                m: int,
            |
                0 <= m < i && but_for_rank(kept(v)[j], #[trigger] v[m]) by {
                assert(kept(v)[j] == kept(t)[j]);
                let m = kept_from(t, j);
                assert(t[m] == v[m]);
            }
        }
    } else {
        kept_by_place(t, i);
        assert(t.take(i) =~= v.take(i));
        assert(t[i] == v[i]);
        if count_of(v.take(i), key) < 3 {
            let j = choose|j: int|
                0 <= j < kept(t).len() && but_for_rank(#[trigger] kept(t)[j], t[i]);
            assert(kept(v)[j] == kept(t)[j]);
        } else {
            count_grows(t, i, key);
            assert forall|j: int|
                0 <= j < kept(v).len() && (#[trigger] kept(v)[j]).event_key@ == key implies exists|
                m: int,
            |
                0 <= m < i && but_for_rank(kept(v)[j], #[trigger] v[m]) by {
                assert(j < kept(t).len());
                assert(kept(v)[j] == kept(t)[j]);
                let m = choose|m: int| 0 <= m < i && but_for_rank(kept(t)[j], #[trigger] t[m]);
                assert(but_for_rank(kept(v)[j], v[m]));
            }
        }
    }
}

/// A candidate is kept, with a rank, or is behind every one of its event that
/// is: the best of each event are kept.
pub proof fn best_candidates_are_kept(v: Seq<Candidate>, i: int)
    requires
        0 <= i < v.len(),
    ensures
        (exists|j: int|
            0 <= j < kept(sorted(v)).len() && but_for_rank(#[trigger] kept(sorted(v))[j], v[i])) || (
        forall|j: int|
            0 <= j < kept(sorted(v)).len() && (#[trigger] kept(sorted(v))[j]).event_key@
                == v[i].event_key@ ==> goes_first(kept(sorted(v))[j], v[i])),
{
    let s = sorted(v);
    sorted_members(v);
    sorted_in_order(v);
    assert(v.contains(v[i]));
    assert(s.contains(v[i]));
    let p = choose|p: int| 0 <= p < s.len() && s[p] == v[i];
    kept_by_place(s, p);
    if count_of(s.take(p), v[i].event_key@) >= 3 {
        assert forall|j: int|
            0 <= j < kept(s).len() && (#[trigger] kept(s)[j]).event_key@
                == v[i].event_key@ implies goes_first(kept(s)[j], v[i]) by {
            let m = choose|m: int| 0 <= m < p && but_for_rank(kept(s)[j], #[trigger] s[m]);
            assert(Candidate::comes_first(s[m], s[p]));
        }
    }
}

/// An event keeps all its candidates where it has at most three, and else
/// three; they are ranked from one, in their order.
pub proof fn events_keep_three_candidates(v: Seq<Candidate>, key: Seq<char>, j: int)
    requires
        0 <= j < kept(sorted(v)).len(),
    ensures
        ({
            let all = of_event(v, key).len();
            let left = of_event(kept(sorted(v)), key).len();
            &&& all <= 3 ==> left == all
            &&& all > 3 ==> left == 3
        }),
        1 <= kept(sorted(v))[j].rank <= 3,
        kept(sorted(v))[j].rank == of_event(
            kept(sorted(v)).take(j),
            kept(sorted(v))[j].event_key@,
        ).len() + 1,
        forall|i: int| 0 <= i <= j ==> goes_first(#[trigger] kept(sorted(v))[i], kept(sorted(v))[j]),
{
    let r = kept(sorted(v));
    crate::ranking::three_are_kept(v, key);
    candidates_are_counted(v, key);
    candidates_are_counted(r, key);
    crate::ranking::ranks_run(sorted(v), j);
    candidates_are_counted(r.take(j), r[j].event_key@);
    assert forall|i: int| 0 <= i <= j implies goes_first(#[trigger] r[i], r[j]) by {
        crate::ranking::kept_in_order(v, i, j);
    }
}

} // verus!
