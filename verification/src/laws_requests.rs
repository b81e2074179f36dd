//! Laws of requests: how they are decoded, where they go, and what is done.
use vstd::prelude::*;

use crate::http::{
    field_in, find_text, hex_digit, prefixed_in, query, raw_field_in, requested, response_text,
    unencoded, url_bytes, url_decoded, Request,
};
use crate::json::{entry, entry_names, put_entry, record, texts_in, JsonView};
use crate::laws_text::{
    is_word, pieces_are_parted_by_separators, words_are_parted_by_white_space,
};
use crate::order::{rising, text_lt};
use crate::service::{route_of, Route};
use crate::text::{
    begins, free_of, lines_of, once, text_le, text_le_antisymmetric, text_le_total,
    text_le_transitive,
};
use crate::web::{steps_for, Action, Step};

verus! {

/// Hexadecimal digits count from zero to fifteen, in either case; two of them
/// behind a per cent sign are a byte, a plus sign is a space, and all else is
/// itself.
pub proof fn encoded_bytes_are_decoded(a: u8, b: u8, rest: Seq<u8>, c: u8)
    ensures
        hex_digit(a) is Some <==> 48 <= a <= 57 || 65 <= a <= 70 || 97 <= a <= 102,
        hex_digit(a) is Some ==> 0 <= hex_digit(a)->0 <= 15,
        48 <= a <= 57 ==> hex_digit(a)->0 == a - 48,
        65 <= a <= 70 ==> hex_digit(a)->0 == a - 65 + 10,
        97 <= a <= 102 ==> hex_digit(a)->0 == a - 97 + 10,
        hex_digit(a) is Some && hex_digit(b) is Some ==> url_bytes(seq![37u8, a, b] + rest) == seq![
            (16 * hex_digit(a)->0 + hex_digit(b)->0) as u8,
        ] + url_bytes(rest),
        url_bytes(seq![43u8] + rest) == seq![32u8] + url_bytes(rest),
        c != 37 && c != 43 ==> url_bytes(seq![c] + rest) == seq![c] + url_bytes(rest),
        url_bytes(Seq::empty()) == Seq::<u8>::empty(),
{
    let s = seq![37u8, a, b] + rest;
    assert(s.skip(3) =~= rest);
    assert(s[0] == 37 && s[1] == a && s[2] == b);
    let t = seq![43u8] + rest;
    assert(t.skip(1) =~= rest);
    assert(t[0] == 43);
    let u = seq![c] + rest;
    assert(u.skip(1) =~= rest);
    assert(u[0] == c);
}

/// Bytes that are not encoded are decoded as they are.
pub proof fn plain_bytes_are_themselves(s: Seq<u8>)
    requires
        unencoded(s),
    ensures
        url_bytes(s) == s,
    decreases s.len(),
{
    if s.len() > 0 {
        let t = s.skip(1);
        assert(s[0] != 37 && s[0] != 43);
        assert forall|i: int| 0 <= i < t.len() implies (#[trigger] t[i]) != 37 && t[i] != 43 by {
            assert(s[i + 1] != 37 && s[i + 1] != 43);
        }
        plain_bytes_are_themselves(t);
        assert(seq![s[0]] + t =~= s);
    }
}

/// Whether a pair is of a name.
pub open spec fn pair_of(pair: Seq<char>, name: Seq<char>) -> bool {
    once(pair, '=') matches Some((key, _)) && key == name
}

/// A field of a query has the value of the first pair of its name, decoded; it
/// has none where there is no such pair.
pub proof fn first_pair_counts(pairs: Seq<Seq<char>>, name: Seq<char>, k: int)
    requires
        0 <= k <= pairs.len(),
        forall|i: int| 0 <= i < k ==> !pair_of(#[trigger] pairs[i], name),
        k < pairs.len() ==> pair_of(pairs[k], name),
    ensures
        k == pairs.len() ==> field_in(pairs, name) is None && raw_field_in(pairs, name) is None,
        k < pairs.len() ==> (once(pairs[k], '=') matches Some((_, value)) && raw_field_in(pairs, name)
            == Some(value) && field_in(pairs, name) == Some(url_decoded(value))),
    decreases pairs.len(),
{
    if k > 0 {
        let t = pairs.drop_first();
        assert(!pair_of(pairs[0], name));
        assert forall|i: int| 0 <= i < k - 1 implies !pair_of(#[trigger] t[i], name) by {
            assert(!pair_of(pairs[i + 1], name));
        }
        first_pair_counts(t, name, k - 1);
    }
}

/// The first piece with a prefix counts, without it.
pub proof fn first_prefixed_counts(pieces: Seq<Seq<char>>, prefix: Seq<char>, k: int)
    requires
        0 <= k <= pieces.len(),
        forall|i: int| 0 <= i < k ==> !begins(#[trigger] pieces[i], prefix),
        k < pieces.len() ==> begins(pieces[k], prefix),
    ensures
        k == pieces.len() ==> prefixed_in(pieces, prefix) is None,
        k < pieces.len() ==> prefixed_in(pieces, prefix) is Some && prefix + prefixed_in(
            pieces,
            prefix,
        )->0 == pieces[k],
    decreases pieces.len(),
{
    if k > 0 {
        let t = pieces.drop_first();
        assert(!begins(pieces[0], prefix));
        assert forall|i: int| 0 <= i < k - 1 implies !begins(#[trigger] t[i], prefix) by {
            assert(!begins(pieces[i + 1], prefix));
        }
        first_prefixed_counts(t, prefix, k - 1);
    } else if pieces.len() > 0 {
        assert(prefix + pieces[0].skip(prefix.len() as int) =~= pieces[0]);
    }
}

/// A text is found at its first place in another.
pub proof fn texts_are_found_at_their_first_place(s: Seq<char>, part: Seq<char>, k: int)
    ensures
        find_text(s, part) == Some(k) <==> 0 <= k && k + part.len() <= s.len() && s.subrange(
            k,
            k + part.len(),
        ) == part && forall|i: int|
            0 <= i < k ==> #[trigger] s.subrange(i, i + part.len()) != part,
    decreases s.len(),
{
    assert(begins(s, part) <==> part.len() <= s.len() && s.subrange(0, 0int + part.len()) == part) by {
        if part.len() <= s.len() {
            assert(s.take(part.len() as int) =~= s.subrange(0, 0int + part.len()));
        }
    }
    if begins(s, part) {
        if k > 0 {
            assert(s.subrange(0, 0int + part.len()) == part);
        }
    } else if s.len() > 0 {
        let t = s.drop_first();
        texts_are_found_at_their_first_place(t, part, k - 1);
        let right = 0 <= k && k + part.len() <= s.len() && s.subrange(k, k + part.len()) == part
            && forall|i: int| 0 <= i < k ==> #[trigger] s.subrange(i, i + part.len()) != part;
        if right {
            assert(k > 0);
            assert(t.subrange(k - 1, k - 1 + part.len()) =~= s.subrange(k, k + part.len()));
            assert forall|i: int| 0 <= i < k - 1 implies #[trigger] t.subrange(i, i + part.len())
                != part by {
                assert(s.subrange(i + 1, i + 1 + part.len()) != part);
                assert(t.subrange(i, i + part.len()) =~= s.subrange(i + 1, i + 1 + part.len()));
            }
        }
        if find_text(s, part) == Some(k) {
            assert(t.subrange(k - 1, k - 1 + part.len()) =~= s.subrange(k, k + part.len()));
            assert forall|i: int| 0 <= i < k implies #[trigger] s.subrange(i, i + part.len())
                != part by {
                if i > 0 {
                    assert(t.subrange(i - 1, i - 1 + part.len()) != part);
                    assert(t.subrange(i - 1, i - 1 + part.len()) =~= s.subrange(i, i + part.len()));
                } else if part.len() > s.len() {
                    assert(false);
                }
            }
        }
    }
}

/// A request asks for one thing by one method and path; what changes the store
/// is asked for by POST only, and what reads it by GET only.
pub proof fn routes_are_told_by_method_and_path(
    method: Seq<char>,
    path: Seq<char>,
    other: Seq<char>,
    elsewhere: Seq<char>,
)
    ensures
        route_of(method, path) == route_of(other, elsewhere) && route_of(method, path)
            != Route::Unknown ==> method == other && path == elsewhere,
        (match route_of(method, path) {
            Route::Import | Route::PickStatus | Route::Solve | Route::Freeze | Route::Duplicate
            | Route::Recompute => method == "POST"@,
            Route::Unknown => true,
            _ => method == "GET"@,
        }),
        route_of("GET"@, "/"@) == Route::Page,
        route_of("POST"@, "/api/import"@) == Route::Import,
        route_of("POST"@, "/api/solve"@) == Route::Solve,
{
    reveal_strlit("GET");
    reveal_strlit("POST");
    reveal_strlit("/api/import");
    reveal_strlit("/api/picks/status");
    reveal_strlit("/api/solve");
    assert("GET"@.len() != "POST"@.len());
    assert("/api/import"@.len() != "/api/picks/status"@.len());
    assert("/api/import"@.len() != "/api/solve"@.len());
    assert("/api/picks/status"@.len() != "/api/solve"@.len());
}

/// A response ends with its body.
pub proof fn responses_end_with_their_body(
    status: Seq<char>,
    content_type: Seq<char>,
    more: Seq<char>,
    body: Seq<char>,
)
    ensures
        response_text(status, content_type, more, body).len() >= body.len(),
        ({
            let r = response_text(status, content_type, more, body);
            r.skip(r.len() - body.len()) == body
        }),
{
    let r = response_text(status, content_type, more, body);
    assert(r.skip(r.len() - body.len()) =~= body);
}

/// Whatever is asked of an arrival or a hypothesis, the solution that depends
/// on it is computed again as the last step, behind the change.
pub proof fn changes_are_followed_by_solutions(a: Action, s: Seq<Step>)
    requires
        steps_for(a, s),
    ensures
        match a {
            Action::Lock { hypothesis, observation, .. } => s.len() == 2 && (
            s[0] matches Step::SetLock { hypothesis: h, observation: o, locked, .. } && h@
                == hypothesis@ && o@ == observation@ && locked) && (s[1] matches Step::Recompute {
                hypothesis: h,
                ..
            } && h@ == hypothesis@),
            Action::Unlock { hypothesis, observation } => s.len() == 2 && (
            s[0] matches Step::SetLock { hypothesis: h, observation: o, locked, .. } && h@
                == hypothesis@ && o@ == observation@ && !locked) && (s[1] matches Step::Recompute {
                hypothesis: h,
                ..
            } && h@ == hypothesis@),
            Action::Noise { observation, enabled } => s.len() == 3 && (
            s[0] matches Step::SetNoise { observation: o, enabled: e } && o@ == observation@ && e
                == enabled) && s[1] is Recompute && s[2] is Recompute,
            Action::Recompute { hypothesis, .. } => s.len() >= 1 && (
            s[s.len() - 1] matches Step::Recompute { hypothesis: h, .. } && h@ == hypothesis@),
            Action::Import { .. } => s.len() == 1 && s[0] is Import,
            Action::Correction { .. } => s.len() == 1 && s[0] is CreateCorrection,
        },
{
}

/// Whether a field is the last of its name.
pub open spec fn last_of_name(fields: Seq<(Seq<char>, JsonView)>, k: int) -> bool {
    0 <= k < fields.len() && forall|i: int|
        k < i < fields.len() ==> (#[trigger] fields[i]).0 != fields[k].0
}

/// An object has its names in rising order, and for each name the value that
/// was given last.
pub proof fn objects_have_the_last_values(fields: Seq<(Seq<char>, JsonView)>, k: int)
    requires
        last_of_name(fields, k),
    ensures
        rising(entry_names(record(fields))),
        record(fields).contains(fields[k]),
    decreases fields.len(),
{
    let t = fields.drop_last();
    let last = fields.last();
    record_rises(fields);
    record_rises(t);
    put_holds(record(t), last.0, last.1, fields[k]);
    if k < t.len() {
        assert(fields[fields.len() - 1].0 != fields[k].0);
        assert(last_of_name(t, k)) by {
            assert forall|i: int| k < i < t.len() implies (#[trigger] t[i]).0 != t[k].0 by {
                assert(fields[i].0 != fields[k].0);
            }
        }
        objects_have_the_last_values(t, k);
    }
}

/// The names of an object rise.
proof fn record_rises(fields: Seq<(Seq<char>, JsonView)>)
    ensures
        rising(entry_names(record(fields))),
    decreases fields.len(),
{
    if fields.len() > 0 {
        record_rises(fields.drop_last());
        put_rises(record(fields.drop_last()), fields.last().0, fields.last().1, Seq::empty());
    }
}

/// A new entry keeps the others, and the names rising.
proof fn put_rises(
    o: Seq<(Seq<char>, JsonView)>,
    name: Seq<char>,
    v: JsonView,
    bound: Seq<char>,
)
    requires
        rising(entry_names(o)),
    ensures
        rising(entry_names(put_entry(o, name, v))),
        (forall|i: int| 0 <= i < o.len() ==> text_lt((#[trigger] o[i]).0, bound)) && text_lt(
            name,
            bound,
        ) ==> forall|i: int|
            0 <= i < put_entry(o, name, v).len() ==> text_lt(
                (#[trigger] put_entry(o, name, v)[i]).0,
                bound,
            ),
    decreases o.len(),
{
    let r = put_entry(o, name, v);
    let (a, b) = (entry_names(o), entry_names(r));
    if o.len() > 0 {
        let last = o.last().0;
        let t = o.drop_last();
        assert(rising(entry_names(t))) by {
            assert forall|i: int, j: int| 0 <= i < j < t.len() implies text_lt(
                #[trigger] entry_names(t)[i],
                #[trigger] entry_names(t)[j],
            ) by {
                assert(text_lt(a[i], a[j]));
            }
        }
        assert forall|i: int| 0 <= i < t.len() implies text_lt((#[trigger] t[i]).0, last) by {
            assert(text_lt(a[i], a[o.len() - 1]));
        }
        if last == name {
            assert(b =~= a);
        } else if text_le(last, name) {
            assert forall|i: int, j: int| 0 <= i < j < b.len() implies text_lt(
                #[trigger] b[i],
                #[trigger] b[j],
            ) by {
                assert(b[i] == a[i]);
                if j < a.len() {
                    assert(b[j] == a[j]);
                    assert(text_lt(a[i], a[j]));
                } else if i < t.len() {
                    assert(text_lt(t[i].0, last));
                    text_le_transitive(b[i], last, name);
                    if b[i] == name {
                        text_le_antisymmetric(last, name);
                    }
                }
            }
        } else {
            text_le_total(last, name);
            put_rises(t, name, v, last);
            let u = put_entry(t, name, v);
            assert(text_lt(name, last));
            assert forall|i: int, j: int| 0 <= i < j < b.len() implies text_lt(
                #[trigger] b[i],
                #[trigger] b[j],
            ) by {
                assert(b[i] == u[i].0);
                if j < u.len() {
                    assert(text_lt(entry_names(u)[i], entry_names(u)[j]));
                } else {
                    assert(text_lt(u[i].0, last));
                }
            }
            put_rises(t, name, v, bound);
        }
        if (forall|i: int| 0 <= i < o.len() ==> text_lt((#[trigger] o[i]).0, bound)) && text_lt(
            name,
            bound,
        ) {
            assert(text_lt(o[o.len() - 1].0, bound));
            assert forall|i: int| 0 <= i < t.len() implies text_lt((#[trigger] t[i]).0, bound) by {
                assert(text_lt(o[i].0, bound));
            }
            assert forall|i: int| 0 <= i < r.len() implies text_lt((#[trigger] r[i]).0, bound) by {
                if last == name || text_le(last, name) {
                    if i < t.len() {
                        assert(r[i] == o[i]);
                        assert(text_lt(o[i].0, bound));
                    } else if i < o.len() {
                        assert(text_lt(o[i].0, bound));
                    }
                } else {
                    let u = put_entry(t, name, v);
                    if i < u.len() {
                        assert(r[i] == u[i]);
                    }
                }
            }
        }
    }
}

/// An entry is there where it was put or was there under another name.
proof fn put_holds(
    o: Seq<(Seq<char>, JsonView)>,
    name: Seq<char>,
    v: JsonView,
    x: (Seq<char>, JsonView),
)
    requires
        rising(entry_names(o)),
    ensures
        x == (name, v) ==> put_entry(o, name, v).contains(x),
        x.0 != name && o.contains(x) ==> put_entry(o, name, v).contains(x),
    decreases o.len(),
{
    let r = put_entry(o, name, v);
    if o.len() == 0 {
        assert(r[0] == (name, v));
    } else {
        let t = o.drop_last();
        let a = entry_names(o);
        assert(rising(entry_names(t))) by {
            assert forall|i: int, j: int| 0 <= i < j < t.len() implies text_lt(
                #[trigger] entry_names(t)[i],
                #[trigger] entry_names(t)[j],
            ) by {
                assert(text_lt(a[i], a[j]));
            }
        }
        if o.last().0 == name || text_le(o.last().0, name) {
            assert(r[r.len() - 1] == (name, v));
            if x.0 != name && o.contains(x) {
                let i = choose|i: int| 0 <= i < o.len() && o[i] == x;
                assert(r[i] == x);
            }
        } else {
            put_holds(t, name, v, x);
            let u = put_entry(t, name, v);
            if o.contains(x) {
                let i = choose|i: int| 0 <= i < o.len() && o[i] == x;
                if i < t.len() {
                    assert(t[i] == x);
                } else {
                    assert(r[r.len() - 1] == x);
                }
            }
            if u.contains(x) {
                let i = choose|i: int| 0 <= i < u.len() && u[i] == x;
                assert(r[i] == x);
            }
        }
    }
}

/// A name of an object gives its value: the first there is.
pub proof fn entries_are_found(o: Seq<(Seq<char>, JsonView)>, k: int)
    requires
        rising(entry_names(o)),
        0 <= k < o.len(),
    ensures
        entry(o, o[k].0) == Some(o[k].1),
    decreases k,
{
    if k > 0 {
        let t = o.drop_first();
        let a = entry_names(o);
        assert(text_lt(a[0], a[k]));
        assert(rising(entry_names(t))) by {
            assert forall|i: int, j: int| 0 <= i < j < t.len() implies text_lt(
                #[trigger] entry_names(t)[i],
                #[trigger] entry_names(t)[j],
            ) by {
                assert(text_lt(a[i + 1], a[j + 1]));
            }
        }
        entries_are_found(t, k - 1);
    }
}

/// A name that an object does not have gives nothing.
pub proof fn other_entries_are_not_found(o: Seq<(Seq<char>, JsonView)>, name: Seq<char>)
    requires
        forall|i: int| 0 <= i < o.len() ==> (#[trigger] o[i]).0 != name,
    ensures
        entry(o, name) is None,
    decreases o.len(),
{
    if o.len() > 0 {
        let t = o.drop_first();
        assert(o[0].0 != name);
        assert forall|i: int| 0 <= i < t.len() implies (#[trigger] t[i]).0 != name by {
            assert(o[i + 1].0 != name);
        }
        other_entries_are_not_found(t, name);
    }
}

/// The texts of a list are those of its items that are texts, in their order.
pub proof fn lists_give_their_texts(a: Seq<JsonView>, t: Seq<char>)
    ensures
        texts_in(a).contains(t) <==> exists|i: int| 0 <= i < a.len() && (#[trigger] a[i])
            == JsonView::Text(t),
    decreases a.len(),
{
    if a.len() > 0 {
        let b = a.drop_last();
        lists_give_their_texts(b, t);
        let (before, after) = (texts_in(b), texts_in(a));
        if before.contains(t) {
            let i = choose|i: int| 0 <= i < before.len() && before[i] == t;
            assert(after[i] == t);
            let k = choose|k: int| 0 <= k < b.len() && (#[trigger] b[k]) == JsonView::Text(t);
            assert(a[k] == b[k]);
        }
        if after.contains(t) && !before.contains(t) {
            let i = choose|i: int| 0 <= i < after.len() && after[i] == t;
            if i < before.len() {
                assert(before[i] == t);
            }
            assert(a[a.len() - 1] == JsonView::Text(t));
        }
        if exists|i: int| 0 <= i < a.len() && (#[trigger] a[i]) == JsonView::Text(t) {
            let i = choose|i: int| 0 <= i < a.len() && (#[trigger] a[i]) == JsonView::Text(t);
            if i < b.len() {
                assert(b[i] == JsonView::Text(t));
                let m = choose|m: int| 0 <= m < before.len() && before[m] == t;
                assert(after[m] == t);
            } else {
                assert(after[after.len() - 1] == t);
            }
        }
    }
}

/// A request has the method and the target of its first line, and its path is
/// the target without what is behind a question mark.
pub proof fn requests_are_of_their_first_line(
    text: Seq<char>,
    r: Request,
    method: Seq<char>,
    path: Seq<char>,
    asked: Seq<char>,
    version: Seq<char>,
)
    requires
        requested(text, r),
        lines_of(text).len() > 0,
        is_word(method) && is_word(path) && is_word(path + seq!['?'] + asked),
        free_of(path, '?'),
    ensures
        lines_of(text)[0] == method + seq![' '] + (path + seq![' '] + version) ==> r.method@ == method
            && r.target@ == path && r.path@ == path,
        lines_of(text)[0] == method + seq![' '] + (path + seq!['?'] + asked + seq![' '] + version)
            ==> r.method@ == method && r.target@ == path + seq!['?'] + asked && r.path@ == path
            && query(r.target@) == asked,
{
    let whole = path + seq!['?'] + asked;
    words_are_parted_by_white_space(method, ' ', path + seq![' '] + version);
    words_are_parted_by_white_space(method, ' ', whole + seq![' '] + version);
    words_are_parted_by_white_space(path, ' ', version);
    words_are_parted_by_white_space(whole, ' ', version);
    pieces_are_parted_by_separators(path, '?', asked);
}

/// The body of a request is what is behind the first blank line, where there is
/// one, up to the next.
pub proof fn bodies_are_behind_the_first_blank_line(text: Seq<char>, r: Request, k: int)
    requires
        requested(text, r),
    ensures
        find_text(text, "\r\n\r\n"@) is None <==> r.body is None,
        find_text(text, "\r\n\r\n"@) == Some(k) && find_text(text.skip(k + 4), "\r\n\r\n"@) is None
            ==> r.body is Some && r.body->0@ == text.skip(k + 4),
{
    reveal_strlit("\r\n\r\n");
    assert("\r\n\r\n"@.len() == 4);
}

} // verus!
