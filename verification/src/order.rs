//! Stable sorting by a total preorder, and sorted lists of distinct names.
use vstd::prelude::*;

use crate::text::{le, text_le, text_le_antisymmetric, text_le_total, text_le_transitive, views};

verus! {

/// A type whose values are ranked: any two compare, and ties are allowed.
pub trait Ranked: Sized {
    /// Whether `a` comes before `b` or ties with it.
    spec fn comes_first(a: Self, b: Self) -> bool;

    /// Any two values compare.
    proof fn total(a: Self, b: Self)
        ensures
            Self::comes_first(a, b) || Self::comes_first(b, a),
    ;

    /// The ranking is transitive.
    proof fn transitive(a: Self, b: Self, c: Self)
        requires
            Self::comes_first(a, b),
            Self::comes_first(b, c),
        ensures
            Self::comes_first(a, c),
    ;

    /// Whether `a` comes before `b` or ties with it.
    fn first(a: &Self, b: &Self) -> (r: bool)
        ensures
            r == Self::comes_first(*a, *b),
    ;
}

/// A list in rank order.
pub open spec fn in_order<T: Ranked>(s: Seq<T>) -> bool {
    forall|i: int, j: int| 0 <= i <= j < s.len() ==> T::comes_first(#[trigger] s[i], #[trigger] s[j])
}

/// An item put into a sorted list, behind those that it ties with.
pub open spec fn inserted<T: Ranked>(s: Seq<T>, x: T) -> Seq<T>
    decreases s.len(),
{
    if s.len() == 0 || T::comes_first(s.last(), x) {
        s.push(x)
    } else {
        inserted(s.drop_last(), x).push(s.last())
    }
}

/// A list sorted so that items that tie keep their order.
pub open spec fn sorted<T: Ranked>(s: Seq<T>) -> Seq<T>
    decreases s.len(),
{
    if s.len() == 0 {
        s
    } else {
        inserted(sorted(s.drop_last()), s.last())
    }
}

/// An item put into a list that is sorted by a relation.
pub open spec fn inserted_by<V>(s: Seq<V>, x: V, first: spec_fn(V, V) -> bool) -> Seq<V>
    decreases s.len(),
{
    if s.len() == 0 || first(s.last(), x) {
        s.push(x)
    } else {
        inserted_by(s.drop_last(), x, first).push(s.last())
    }
}

/// A list sorted by a relation so that items that tie keep their order.
pub open spec fn sorted_by<V>(s: Seq<V>, first: spec_fn(V, V) -> bool) -> Seq<V>
    decreases s.len(),
{
    if s.len() == 0 {
        s
    } else {
        inserted_by(sorted_by(s.drop_last(), first), s.last(), first)
    }
}

/// Inserting commutes with a map that keeps the ranking.
proof fn inserted_map<T: Ranked, V>(
    s: Seq<T>,
    x: T,
    f: spec_fn(T) -> V,
    first: spec_fn(V, V) -> bool,
)
    requires
        forall|a: T, b: T| #[trigger] T::comes_first(a, b) == first(f(a), f(b)),
    ensures
        inserted(s, x).map_values(f) == inserted_by(s.map_values(f), f(x), first),
    decreases s.len(),
{
    let m = s.map_values(f);
    if s.len() == 0 || T::comes_first(s.last(), x) {
        if s.len() > 0 {
            assert(m.last() == f(s.last()));
        }
        assert(s.push(x).map_values(f) =~= m.push(f(x)));
    } else {
        inserted_map(s.drop_last(), x, f, first);
        assert(m.drop_last() =~= s.drop_last().map_values(f));
        assert(m.last() == f(s.last()));
        assert(inserted(s, x).map_values(f) =~= inserted(s.drop_last(), x).map_values(f).push(
            f(s.last()),
        ));
    }
}

/// Sorting commutes with a map that keeps the ranking.
pub proof fn sorted_map<T: Ranked, V>(
    s: Seq<T>,
    f: spec_fn(T) -> V,
    first: spec_fn(V, V) -> bool,
)
    requires
        forall|a: T, b: T| #[trigger] T::comes_first(a, b) == first(f(a), f(b)),
    ensures
        sorted(s).map_values(f) == sorted_by(s.map_values(f), first),
    decreases s.len(),
{
    let m = s.map_values(f);
    if s.len() > 0 {
        sorted_map(s.drop_last(), f, first);
        inserted_map(sorted(s.drop_last()), s.last(), f, first);
        assert(m.drop_last() =~= s.drop_last().map_values(f));
        assert(m.last() == f(s.last()));
    } else {
        assert(sorted(s).map_values(f) =~= m);
    }
}

/// Inserting keeps the items and adds one.
pub proof fn inserted_items<T: Ranked>(s: Seq<T>, x: T)
    ensures
        inserted(s, x).to_multiset() == s.to_multiset().insert(x),
        inserted(s, x).len() == s.len() + 1,
    decreases s.len(),
{
    broadcast use vstd::seq_lib::group_to_multiset_ensures;

    if s.len() == 0 || T::comes_first(s.last(), x) {
    } else {
        inserted_items(s.drop_last(), x);
        assert(s =~= s.drop_last().push(s.last()));
        assert(s.drop_last().to_multiset().insert(x).insert(s.last())
            =~= s.drop_last().to_multiset().insert(s.last()).insert(x));
    }
}

/// Sorting keeps the items: none is lost, none is added.
pub proof fn sorted_items<T: Ranked>(s: Seq<T>)
    ensures
        sorted(s).to_multiset() == s.to_multiset(),
        sorted(s).len() == s.len(),
    decreases s.len(),
{
    broadcast use vstd::seq_lib::group_to_multiset_ensures;

    if s.len() > 0 {
        sorted_items(s.drop_last());
        inserted_items(sorted(s.drop_last()), s.last());
        assert(s =~= s.drop_last().push(s.last()));
    }
}

/// Sorting keeps the members of a list, and whether they are distinct.
pub proof fn sorted_members<T: Ranked>(s: Seq<T>)
    ensures
        forall|x: T| #[trigger] sorted(s).contains(x) <==> s.contains(x),
        s.no_duplicates() ==> sorted(s).no_duplicates(),
{
    sorted_items(s);
    assert forall|x: T| #[trigger] sorted(s).contains(x) <==> s.contains(x) by {
        vstd::seq_lib::to_multiset_contains(s, x);
        vstd::seq_lib::to_multiset_contains(sorted(s), x);
    }
    if s.no_duplicates() {
        s.lemma_multiset_has_no_duplicates();
        sorted(s).lemma_multiset_has_no_duplicates_conv();
    }
}

/// Inserting into a sorted list gives a sorted list.
proof fn inserted_in_order<T: Ranked>(s: Seq<T>, x: T)
    requires
        in_order(s),
    ensures
        in_order(inserted(s, x)),
        forall|i: int|
            0 <= i < inserted(s, x).len() ==> s.contains(#[trigger] inserted(s, x)[i]) || inserted(
                s,
                x,
            )[i] == x,
    decreases s.len(),
{
    let r = inserted(s, x);
    if s.len() == 0 || T::comes_first(s.last(), x) {
        assert forall|i: int, j: int| 0 <= i <= j < r.len() implies T::comes_first(
            #[trigger] r[i],
            #[trigger] r[j],
        ) by {
            if j == s.len() {
                T::total(x, x);
                if i < s.len() {
                    assert(T::comes_first(s[i], s[s.len() - 1]));
                    T::transitive(s[i], s.last(), x);
                }
            }
        }
        assert forall|i: int| 0 <= i < r.len() implies s.contains(#[trigger] r[i]) || r[i] == x by {
            if i < s.len() {
                assert(r[i] == s[i]);
            }
        }
    } else {
        let t = s.drop_last();
        assert(in_order(t)) by {
            assert forall|i: int, j: int| 0 <= i <= j < t.len() implies T::comes_first(
                #[trigger] t[i],
                #[trigger] t[j],
            ) by {
                assert(t[i] == s[i] && t[j] == s[j]);
            }
        }
        inserted_in_order(t, x);
        inserted_items(t, x);
        let u = inserted(t, x);
        T::total(s.last(), x);
        assert forall|i: int, j: int| 0 <= i <= j < r.len() implies T::comes_first(
            #[trigger] r[i],
            #[trigger] r[j],
        ) by {
            if j == u.len() {
                if i == j {
                    T::total(s.last(), s.last());
                } else {
                    assert(r[i] == u[i]);
                    if t.contains(u[i]) {
                        let k = choose|k: int| 0 <= k < t.len() && t[k] == u[i];
                        assert(s[k] == u[i]);
                        assert(T::comes_first(s[k], s[s.len() - 1]));
                    }
                }
            } else {
                assert(r[i] == u[i] && r[j] == u[j]);
            }
        }
        assert forall|i: int| 0 <= i < r.len() implies s.contains(#[trigger] r[i]) || r[i] == x by {
            if i < u.len() {
                assert(r[i] == u[i]);
                if t.contains(u[i]) {
                    let k = choose|k: int| 0 <= k < t.len() && t[k] == u[i];
                    assert(s[k] == u[i]);
                }
            } else {
                assert(s[s.len() - 1] == r[i]);
            }
        }
    }
}

/// Sorting gives a list in rank order.
pub proof fn sorted_in_order<T: Ranked>(s: Seq<T>)
    ensures
        in_order(sorted(s)),
    decreases s.len(),
{
    if s.len() > 0 {
        sorted_in_order(s.drop_last());
        inserted_in_order(sorted(s.drop_last()), s.last());
    }
}

/// Sorting a list that is in order changes nothing.
pub proof fn sorted_keeps_order<T: Ranked>(s: Seq<T>)
    requires
        in_order(s),
    ensures
        sorted(s) == s,
    decreases s.len(),
{
    if s.len() > 0 {
        let t = s.drop_last();
        assert(in_order(t)) by {
            assert forall|i: int, j: int| 0 <= i <= j < t.len() implies T::comes_first(
                #[trigger] t[i],
                #[trigger] t[j],
            ) by {
                assert(t[i] == s[i] && t[j] == s[j]);
            }
        }
        sorted_keeps_order(t);
        if t.len() > 0 {
            assert(T::comes_first(s[t.len() - 1], s[t.len() as int]));
        }
        assert(t.push(s.last()) =~= s);
    }
}

/// Puts an item into a sorted list, behind those that it ties with.
fn insert_sorted<T: Ranked>(v: &mut Vec<T>, x: T)
    ensures
        final(v)@ == inserted(old(v)@, x),
{
    let mut k: usize = v.len();
    let ghost s = v@;
    assert(s.take(k as int) =~= s);
    assert(inserted(s, x) + s.skip(k as int) =~= inserted(s, x));
    while k > 0 && !T::first(&v[k - 1], &x)
        invariant
            v@ == s,
            k <= s.len(),
            inserted(s, x) == inserted(s.take(k as int), x) + s.skip(k as int),
        decreases k,
    {
        k -= 1;
        proof {
            let t = s.take(k + 1);
            assert(t.drop_last() =~= s.take(k as int));
            assert(t.last() == s[k as int]);
            assert(inserted(t, x) == inserted(s.take(k as int), x).push(s[k as int]));
            assert(inserted(s.take(k as int), x).push(s[k as int]) + s.skip(k + 1)
                =~= inserted(s.take(k as int), x) + s.skip(k as int));
        }
    }
    proof {
        let t = s.take(k as int);
        if k > 0 {
            assert(t.last() == s[k - 1]);
        }
        assert(inserted(t, x) == t.push(x));
        assert(s.insert(k as int, x) =~= t.push(x) + s.skip(k as int));
    }
    v.insert(k, x);
}

/// Sorts a list; items that tie keep their order.
pub fn sort<T: Ranked>(v: Vec<T>) -> (r: Vec<T>)
    ensures
        r@ == sorted(v@),
{
    let mut rest = v;
    let mut r: Vec<T> = Vec::new();
    let ghost s = v@;
    let ghost mut done: int = 0;
    assert(s.take(0) =~= Seq::<T>::empty());
    assert(s.skip(0) =~= s);
    while rest.len() > 0
        invariant
            0 <= done <= s.len(),
            rest@ == s.skip(done),
            r@ == sorted(s.take(done)),
        decreases rest@.len(),
    {
        let x = rest.remove(0);
        insert_sorted(&mut r, x);
        proof {
            assert(s.take(done + 1).drop_last() =~= s.take(done));
            assert(s.take(done + 1).last() == s[done]);
            assert(rest@ =~= s.skip(done + 1));
            done = done + 1;
        }
    }
    assert(s.take(done) =~= s);
    r
}

impl Ranked for String {
    open spec fn comes_first(a: Self, b: Self) -> bool {
        text_le(a@, b@)
    }

    proof fn total(a: Self, b: Self) {
        text_le_total(a@, b@);
    }

    proof fn transitive(a: Self, b: Self, c: Self) {
        text_le_transitive(a@, b@, c@);
    }

    fn first(a: &Self, b: &Self) -> (r: bool) {
        le(a.as_str(), b.as_str())
    }
}

/// Whether `a` comes strictly before `b`.
pub open spec fn text_lt(a: Seq<char>, b: Seq<char>) -> bool {
    text_le(a, b) && a != b
}

/// A list of texts in strictly rising order, hence without repetition.
pub open spec fn rising(s: Seq<Seq<char>>) -> bool {
    forall|i: int, j: int| 0 <= i < j < s.len() ==> text_lt(#[trigger] s[i], #[trigger] s[j])
}

/// Two rising lists with the same members are the same list.
pub proof fn rising_unique(a: Seq<Seq<char>>, b: Seq<Seq<char>>)
    requires
        rising(a),
        rising(b),
        forall|x: Seq<char>| a.contains(x) <==> b.contains(x),
    ensures
        a == b,
    decreases a.len(),
{
    if a.len() == 0 {
        if b.len() > 0 {
            assert(b.contains(b[0]));
        }
        assert(a =~= b);
    } else {
        assert(a.contains(a[0]));
        let k = choose|k: int| 0 <= k < b.len() && b[k] == a[0];
        assert(b.contains(b[0]));
        let m = choose|m: int| 0 <= m < a.len() && a[m] == b[0];
        if k > 0 && m > 0 {
            assert(text_lt(b[0], b[k]));
            assert(text_lt(a[0], a[m]));
            text_le_antisymmetric(a[0], b[0]);
        }
        assert(a[0] == b[0]);
        let ta = a.drop_first();
        let tb = b.drop_first();
        assert forall|x: Seq<char>| ta.contains(x) <==> tb.contains(x) by {
            if ta.contains(x) {
                let i = choose|i: int| 0 <= i < ta.len() && ta[i] == x;
                assert(a[i + 1] == x);
                assert(a.contains(x));
                let j = choose|j: int| 0 <= j < b.len() && b[j] == x;
                assert(text_lt(a[0], a[i + 1]));
                assert(j != 0);
                assert(tb[j - 1] == x);
            }
            if tb.contains(x) {
                let i = choose|i: int| 0 <= i < tb.len() && tb[i] == x;
                assert(b[i + 1] == x);
                assert(b.contains(x));
                let j = choose|j: int| 0 <= j < a.len() && a[j] == x;
                assert(text_lt(b[0], b[i + 1]));
                assert(j != 0);
                assert(ta[j - 1] == x);
            }
        }
        assert(rising(ta)) by {
            assert forall|i: int, j: int| 0 <= i < j < ta.len() implies text_lt(
                #[trigger] ta[i],
                #[trigger] ta[j],
            ) by {
                assert(text_lt(a[i + 1], a[j + 1]));
            }
        }
        assert(rising(tb)) by {
            assert forall|i: int, j: int| 0 <= i < j < tb.len() implies text_lt(
                #[trigger] tb[i],
                #[trigger] tb[j],
            ) by {
                assert(text_lt(b[i + 1], b[j + 1]));
            }
        }
        rising_unique(ta, tb);
        assert(a =~= seq![a[0]] + ta);
        assert(b =~= seq![b[0]] + tb);
    }
}

/// A rising list with one more name at its place, unless it is there.
pub open spec fn name_added(s: Seq<Seq<char>>, x: Seq<char>) -> Seq<Seq<char>>
    decreases s.len(),
{
    if s.len() == 0 {
        seq![x]
    } else if s.last() == x {
        s
    } else if text_le(s.last(), x) {
        s.push(x)
    } else {
        name_added(s.drop_last(), x).push(s.last())
    }
}

/// Adding a name keeps the list rising and adds that name alone.
pub proof fn name_added_is(s: Seq<Seq<char>>, x: Seq<char>)
    requires
        rising(s),
    ensures
        rising(name_added(s, x)),
        forall|y: Seq<char>| #[trigger] name_added(s, x).contains(y) <==> s.contains(y) || y == x,
    decreases s.len(),
{
    let r = name_added(s, x);
    if s.len() == 0 {
        assert(r[0] == x);
    } else if s.last() == x {
    } else if text_le(s.last(), x) {
        assert forall|i: int, j: int| 0 <= i < j < r.len() implies text_lt(
            #[trigger] r[i],
            #[trigger] r[j],
        ) by {
            if j == s.len() {
                if i < s.len() - 1 {
                    assert(text_lt(s[i], s[s.len() - 1]));
                    text_le_transitive(s[i], s.last(), x);
                    if s[i] == x {
                        text_le_antisymmetric(s.last(), x);
                    }
                }
            } else {
                assert(text_lt(s[i], s[j]));
            }
        }
        assert forall|y: Seq<char>| #[trigger] r.contains(y) <==> s.contains(y) || y == x by {
            if s.contains(y) {
                let i = choose|i: int| 0 <= i < s.len() && s[i] == y;
                assert(r[i] == y);
            }
            assert(r[s.len() as int] == x);
        }
    } else {
        let t = s.drop_last();
        assert(rising(t)) by {
            assert forall|i: int, j: int| 0 <= i < j < t.len() implies text_lt(
                #[trigger] t[i],
                #[trigger] t[j],
            ) by {
                assert(text_lt(s[i], s[j]));
            }
        }
        name_added_is(t, x);
        let u = name_added(t, x);
        text_le_total(s.last(), x);
        assert forall|y: Seq<char>| #[trigger] u.contains(y) implies text_lt(y, s.last()) by {
            if t.contains(y) {
                let i = choose|i: int| 0 <= i < t.len() && t[i] == y;
                assert(text_lt(s[i], s[s.len() - 1]));
            }
        }
        assert forall|i: int, j: int| 0 <= i < j < r.len() implies text_lt(
            #[trigger] r[i],
            #[trigger] r[j],
        ) by {
            assert(r[i] == u[i]);
            if j == u.len() {
                assert(u.contains(u[i]));
            } else {
                assert(r[j] == u[j]);
            }
        }
        assert forall|y: Seq<char>| #[trigger] r.contains(y) <==> s.contains(y) || y == x by {
            if r.contains(y) {
                let i = choose|i: int| 0 <= i < r.len() && r[i] == y;
                if i < u.len() {
                    assert(u.contains(u[i]));
                    if t.contains(y) {
                        let j = choose|j: int| 0 <= j < t.len() && t[j] == y;
                        assert(s[j] == y);
                    }
                } else {
                    assert(s[s.len() - 1] == y);
                }
            }
            if s.contains(y) {
                let i = choose|i: int| 0 <= i < s.len() && s[i] == y;
                if i < t.len() {
                    assert(t[i] == y);
                    assert(u.contains(y));
                    let j = choose|j: int| 0 <= j < u.len() && u[j] == y;
                    assert(r[j] == y);
                } else {
                    assert(r[u.len() as int] == y);
                }
            }
            if y == x {
                assert(u.contains(x));
                let j = choose|j: int| 0 <= j < u.len() && u[j] == x;
                assert(r[j] == x);
            }
        }
    }
}

/// Adds a name to a rising list unless it is there.
pub fn add_name(v: &mut Vec<String>, name: &str)
    requires
        rising(views(old(v)@)),
    ensures
        rising(views(final(v)@)),
        views(final(v)@) == name_added(views(old(v)@), name@),
        forall|x: Seq<char>|
            views(final(v)@).contains(x) <==> (views(old(v)@).contains(x) || x == name@),
{
    let ghost s = views(v@);
    let mut k: usize = v.len();
    assert(s.take(k as int) =~= s);
    assert(name_added(s, name@) + s.skip(k as int) =~= name_added(s, name@));
    proof {
        name_added_is(s, name@);
    }
    while k > 0 && !le(v[k - 1].as_str(), name)
        invariant
            views(v@) == s,
            k <= s.len(),
            name_added(s, name@) == name_added(s.take(k as int), name@) + s.skip(k as int),
        decreases k,
    {
        k -= 1;
        proof {
            assert(s[k as int] == v@[k as int]@);
            text_le_total(name@, name@);
            let t = s.take(k + 1);
            assert(t.drop_last() =~= s.take(k as int));
            assert(t.last() == s[k as int]);
            assert(name_added(s.take(k as int), name@).push(s[k as int]) + s.skip(k + 1)
                =~= name_added(s.take(k as int), name@) + s.skip(k as int));
        }
    }
    let ghost t = s.take(k as int);
    if k > 0 {
        assert(t.last() == s[k - 1]);
        assert(s[k - 1] == v@[k - 1]@);
        if crate::text::same(v[k - 1].as_str(), name) {
            assert(t + s.skip(k as int) =~= s);
            return;
        }
    }
    assert(name_added(t, name@) =~= t.push(name@));
    v.insert(k, name.to_owned());
    assert(views(v@) =~= t.push(name@) + s.skip(k as int));
}

/// The distinct names of a list, in rising order.
pub open spec fn names(all: Seq<Seq<char>>) -> Seq<Seq<char>>
    decreases all.len(),
{
    if all.len() == 0 {
        Seq::empty()
    } else {
        name_added(names(all.drop_last()), all.last())
    }
}

/// The distinct names of a list are its members, in rising order.
pub proof fn names_is(all: Seq<Seq<char>>)
    ensures
        rising(names(all)),
        forall|x: Seq<char>| #[trigger] names(all).contains(x) <==> all.contains(x),
        names(all).len() <= all.len(),
    decreases all.len(),
{
    if all.len() > 0 {
        let t = all.drop_last();
        names_is(t);
        name_added_is(names(t), all.last());
        name_added_len(names(t), all.last());
        assert forall|y: Seq<char>| #[trigger] names(all).contains(y) <==> all.contains(y) by {
            if all.contains(y) {
                let i = choose|i: int| 0 <= i < all.len() && all[i] == y;
                if i < all.len() - 1 {
                    assert(t[i] == y);
                }
            }
            if t.contains(y) {
                let i = choose|i: int| 0 <= i < all.len() - 1 && t[i] == y;
                assert(all[i] == y);
            }
            assert(all[all.len() - 1] == all.last());
        }
    }
}

/// Adding a name makes a list longer by one at most.
proof fn name_added_len(s: Seq<Seq<char>>, x: Seq<char>)
    ensures
        s.len() <= name_added(s, x).len() <= s.len() + 1,
    decreases s.len(),
{
    if s.len() > 0 {
        name_added_len(s.drop_last(), x);
    }
}

/// The distinct names of a list, in rising order.
pub fn distinct(v: &Vec<String>) -> (r: Vec<String>)
    ensures
        views(r@) == names(views(v@)),
{
    let mut r: Vec<String> = Vec::new();
    let mut i: usize = 0;
    assert(views(v@).take(0) =~= Seq::<Seq<char>>::empty());
    assert(views(r@) =~= Seq::<Seq<char>>::empty());
    while i < v.len()
        invariant
            i <= v@.len(),
            views(r@) == names(views(v@).take(i as int)),
        decreases v@.len() - i,
    {
        proof {
            let t = views(v@).take(i + 1);
            names_is(t.drop_last());
            assert(t.drop_last() =~= views(v@).take(i as int));
            assert(t.last() == v@[i as int]@);
        }
        add_name(&mut r, v[i].as_str());
        i += 1;
    }
    assert(views(v@).take(i as int) =~= views(v@));
    r
}

} // verus!
