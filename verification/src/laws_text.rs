//! Laws of texts: their order, what trimming leaves, how they fall into lines,
//! and how numbers are rounded to be written.
use vstd::prelude::*;

use crate::decimal::{decimal, decimal_reads_back, half_even, integer, is_digit};
use crate::text::{
    find_unique, free_of, is_space, lines_of, once, split_at, strip_return, text_le, trim_end,
    trim_start, trimmed, upper, upper_char, word_len, words_of,
};

verus! {

/// Texts are ordered by the first character in which they differ; where one is
/// the beginning of the other it comes first.
pub proof fn texts_are_ordered_by_first_difference(a: Seq<char>, b: Seq<char>, k: int)
    requires
        0 <= k <= a.len(),
        k <= b.len(),
        forall|i: int| 0 <= i < k ==> a[i] == b[i],
    ensures
        k == a.len() ==> text_le(a, b),
        k < a.len() && k == b.len() ==> !text_le(a, b),
        k < a.len() && k < b.len() && a[k] != b[k] ==> (text_le(a, b) <==> (a[k] as int) < (
        b[k] as int)),
    decreases k,
{
    if k > 0 {
        let (s, t) = (a.drop_first(), b.drop_first());
        assert(a[0] == b[0]);
        assert forall|i: int| 0 <= i < k - 1 implies s[i] == t[i] by {
            assert(a[i + 1] == b[i + 1]);
        }
        texts_are_ordered_by_first_difference(s, t, k - 1);
    }
}

/// What is trimmed at the start.
proof fn start_is_trimmed(s: Seq<char>) -> (i: int)
    ensures
        0 <= i <= s.len(),
        trim_start(s) == s.skip(i),
        forall|k: int| 0 <= k < i ==> is_space(#[trigger] s[k]),
        i < s.len() ==> !is_space(s[i]),
    decreases s.len(),
{
    if s.len() > 0 && is_space(s[0]) {
        let t = s.drop_first();
        let j = start_is_trimmed(t);
        assert(t.skip(j) =~= s.skip(j + 1));
        assert forall|k: int| 0 <= k < j + 1 implies is_space(#[trigger] s[k]) by {
            if k > 0 {
                assert(t[k - 1] == s[k]);
            }
        }
        j + 1
    } else {
        assert(s.skip(0) =~= s);
        0
    }
}

/// What is trimmed at the end.
proof fn end_is_trimmed(s: Seq<char>) -> (j: int)
    ensures
        0 <= j <= s.len(),
        trim_end(s) == s.take(j),
        forall|k: int| j <= k < s.len() ==> is_space(#[trigger] s[k]),
        j > 0 ==> !is_space(s[j - 1]),
    decreases s.len(),
{
    if s.len() > 0 && is_space(s.last()) {
        let t = s.drop_last();
        let j = end_is_trimmed(t);
        assert(t.take(j) =~= s.take(j));
        assert forall|k: int| j <= k < s.len() implies is_space(#[trigger] s[k]) by {
            if k < t.len() {
                assert(t[k] == s[k]);
            }
        }
        j
    } else {
        assert(s.take(s.len() as int) =~= s);
        s.len() as int
    }
}

/// Trimming leaves a stretch of a text: what is before it and behind it is
/// blank, and it neither begins nor ends with a blank.
pub proof fn trimming_leaves_the_middle(s: Seq<char>) -> (r: (int, int))
    ensures
        0 <= r.0 <= r.1 <= s.len(),
        trimmed(s) == s.subrange(r.0, r.1),
        forall|k: int| 0 <= k < r.0 || r.1 <= k < s.len() ==> is_space(#[trigger] s[k]),
        r.0 < r.1 ==> !is_space(s[r.0]) && !is_space(s[r.1 - 1]),
{
    let i = start_is_trimmed(s);
    let t = s.skip(i);
    let n = end_is_trimmed(t);
    assert(t.take(n) =~= s.subrange(i, i + n));
    assert forall|k: int| 0 <= k < i || i + n <= k < s.len() implies is_space(#[trigger] s[k]) by {
        if k >= i + n {
            assert(t[k - i] == s[k]);
        }
    }
    if n > 0 {
        assert(t[0] == s[i]);
        assert(t[n - 1] == s[i + n - 1]);
    }
    (i, i + n)
}

/// A text is blank exactly where each of its characters is.
pub proof fn blank_texts_are_all_blank(s: Seq<char>)
    ensures
        trimmed(s).len() == 0 <==> forall|k: int| 0 <= k < s.len() ==> is_space(#[trigger] s[k]),
{
    let r = trimming_leaves_the_middle(s);
    assert(trimmed(s).len() == r.1 - r.0);
    if trimmed(s).len() == 0 {
        assert forall|k: int| 0 <= k < s.len() implies is_space(#[trigger] s[k]) by {}
    }
    if forall|k: int| 0 <= k < s.len() ==> is_space(#[trigger] s[k]) {
        if r.0 < r.1 {
            assert(is_space(s[r.0]));
        }
    }
}

/// Of the characters of ASCII, the blanks are the space and those from the tab
/// to the carriage return.
pub proof fn ascii_blanks(c: char)
    requires
        c as int <= 127,
    ensures
        is_space(c) <==> c == ' ' || '\t' <= c <= '\r',
{
}

/// Upper case changes the letters from a to z, and nothing else.
pub proof fn upper_case_changes_letters(s: Seq<char>, i: int)
    requires
        0 <= i < s.len(),
    ensures
        upper(s).len() == s.len(),
        'a' <= s[i] <= 'z' ==> upper(s)[i] as int == s[i] as int - 32,
        !('a' <= s[i] <= 'z') ==> upper(s)[i] == s[i],
        upper(upper(s)) == upper(s),
{
    assert forall|k: int| 0 <= k < s.len() implies #[trigger] upper_char(upper_char(s[k]))
        == upper_char(s[k]) by {}
    assert(upper(upper(s)) =~= upper(s)) by {
        assert forall|k: int| 0 <= k < s.len() implies upper(upper(s))[k] == upper(s)[k] by {
            assert(upper_char(upper_char(s[k])) == upper_char(s[k]));
        }
    }
}

/// A line goes up to the next line feed, and a carriage return before that does
/// not belong to it; what follows the last line feed is a line if it is not
/// empty.
pub proof fn lines_end_at_line_feeds(a: Seq<char>, rest: Seq<char>)
    requires
        free_of(a, '\n'),
    ensures
        lines_of(a + seq!['\n'] + rest) == seq![strip_return(a)] + lines_of(rest),
        a.len() > 0 ==> lines_of(a) == seq![a],
        lines_of(Seq::empty()).len() == 0,
        strip_return(a.push('\r')) == a,
        a.len() > 0 && a.last() != '\r' ==> strip_return(a) == a,
{
    let text = a + seq!['\n'] + rest;
    assert(text[a.len() as int] == '\n');
    assert forall|i: int| 0 <= i < a.len() implies text[i] != '\n' by {
        assert(text[i] == a[i]);
    }
    find_unique(text, '\n', a.len() as int);
    assert(text.take(a.len() as int) =~= a);
    assert(text.skip(a.len() as int + 1) =~= rest);
    find_unique(a, '\n', a.len() as int);
    assert(a.push('\r').drop_last() =~= a);
}

/// A number is rounded to the nearest unit, and a half to the even one.
pub proof fn halves_go_to_the_even(n: nat, unit: nat)
    requires
        unit > 0,
    ensures
        -(unit as int) <= 2 * (n - half_even(n, unit) * unit) <= unit,
        2 * (n - half_even(n, unit) * unit) == unit || 2 * (n - half_even(n, unit) * unit) == -(
        unit as int) ==> half_even(n, unit) % 2 == 0,
{
    let (q, r) = (n as int / unit as int, n as int % unit as int);
    vstd::arithmetic::div_mod::lemma_fundamental_div_mod(n as int, unit as int);
    assert(n == unit * q + r);
    assert(unit * q == q * unit) by (nonlinear_arith);
    assert((q + 1) * unit == q * unit + unit) by (nonlinear_arith);
    assert(0 <= r < unit);
}

/// Whether a text is a word: it is not empty and has no white space.
pub open spec fn is_word(a: Seq<char>) -> bool {
    a.len() > 0 && forall|i: int| 0 <= i < a.len() ==> !is_space(#[trigger] a[i])
}

/// A word reaches to the first white space.
proof fn word_reaches(a: Seq<char>, t: Seq<char>)
    requires
        forall|i: int| 0 <= i < a.len() ==> !is_space(#[trigger] a[i]),
        t.len() == 0 || is_space(t[0]),
    ensures
        word_len(a + t) == a.len(),
    decreases a.len(),
{
    if a.len() > 0 {
        let b = a.drop_first();
        assert(!is_space(a[0]));
        assert forall|i: int| 0 <= i < b.len() implies !is_space(#[trigger] b[i]) by {
            assert(!is_space(a[i + 1]));
        }
        word_reaches(b, t);
        assert((a + t).drop_first() =~= b + t);
    } else {
        assert(a + t =~= t);
    }
}

/// The words of a text are what white space parts, however much of it there is.
pub proof fn words_are_parted_by_white_space(a: Seq<char>, c: char, rest: Seq<char>)
    requires
        is_word(a),
        is_space(c),
    ensures
        words_of(a + seq![c] + rest) == seq![a] + words_of(rest),
        words_of(seq![c] + rest) == words_of(rest),
        words_of(a) == seq![a],
        words_of(Seq::empty()).len() == 0,
{
    let s = seq![c] + rest;
    assert(s.drop_first() =~= rest);
    assert(trim_start(s) == trim_start(rest));
    assert(words_of(s) == words_of(rest));
    let none = Seq::<char>::empty();
    assert(!is_space(a[0]));
    assert(a + s =~= a + seq![c] + rest);
    word_reaches(a, s);
    assert(trim_start(a + s) == a + s);
    assert((a + s).take(a.len() as int) =~= a && (a + s).skip(a.len() as int) =~= s);
    word_reaches(a, none);
    assert(a + none =~= a);
    assert(a.take(a.len() as int) =~= a && a.skip(a.len() as int) =~= none);
    assert(words_of(none) =~= Seq::empty());
    assert(words_of(a) =~= seq![a]);
}

/// The pieces of a text are what the separator parts; one that has none is one
/// piece.
pub proof fn pieces_are_parted_by_separators(a: Seq<char>, c: char, rest: Seq<char>)
    requires
        free_of(a, c),
    ensures
        split_at(a + seq![c] + rest, c) == seq![a] + split_at(rest, c),
        split_at(a, c) == seq![a],
        once(a + seq![c] + rest, c) == Some((a, rest)),
        once(a, c) is None,
{
    let text = a + seq![c] + rest;
    assert(text[a.len() as int] == c);
    assert forall|i: int| 0 <= i < a.len() implies text[i] != c by {
        assert(text[i] == a[i]);
    }
    find_unique(text, c, a.len() as int);
    find_unique(a, c, a.len() as int);
    assert(text.take(a.len() as int) =~= a);
    assert(text.skip(a.len() as int + 1) =~= rest);
}

/// A number is read with a minus, with a plus or without a sign, as far as it is
/// one of sixty-four bits.
pub proof fn signed_numbers_are_read(n: nat)
    ensures
        n <= 9_223_372_036_854_775_807 ==> integer(decimal(n)) == Some(n as int) && integer(
            seq!['+'] + decimal(n),
        ) == Some(n as int),
        n > 9_223_372_036_854_775_807 ==> integer(decimal(n)) is None && integer(
            seq!['+'] + decimal(n),
        ) is None,
        n <= 9_223_372_036_854_775_808 ==> integer(seq!['-'] + decimal(n)) == Some(-(n as int)),
        n > 9_223_372_036_854_775_808 ==> integer(seq!['-'] + decimal(n)) is None,
        integer(Seq::empty()) is None,
{
    decimal_reads_back(n);
    let d = decimal(n);
    assert(is_digit(d[0]));
    assert((seq!['+'] + d).drop_first() =~= d);
    assert((seq!['-'] + d).drop_first() =~= d);
}

} // verus!
