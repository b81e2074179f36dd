//! Requests and responses as text.
use vstd::prelude::*;
use vstd::utf8::{decode_utf8, encode_utf8, valid_utf8};

use crate::decimal::{decimal, decimal_text};
use crate::text::{
    begins, chars_of, concat2, concat3, lines, lines_of, same, split, split_at, split_once,
    string_of, strip_prefix, views, words, words_of,
};

verus! {

/// The text of some bytes, with a mark for each part that is no UTF-8.
pub uninterp spec fn lossy(bytes: Seq<u8>) -> Seq<char>;

/// Reads bytes as text with `String::from_utf8_lossy`. Bytes that are UTF-8
/// are read as what they stand for.
#[verifier::external_body]
fn decode_lossy(bytes: &[u8]) -> (r: String)
    ensures
        r@ == lossy(bytes@),
        valid_utf8(bytes@) ==> r@ == decode_utf8(bytes@),
{
    String::from_utf8_lossy(bytes).into_owned()
}

/// Where a text first occurs in another, from the start of the other on.
pub open spec fn find_text(s: Seq<char>, part: Seq<char>) -> Option<int>
    decreases s.len(),
{
    if begins(s, part) {
        Some(0)
    } else if s.len() == 0 {
        None
    } else {
        match find_text(s.drop_first(), part) {
            Some(k) => Some(k + 1),
            None => None,
        }
    }
}

/// Whether a text holds another at a position.
fn at(v: &Vec<char>, p: &Vec<char>, from: usize) -> (r: bool)
    requires
        from <= v@.len(),
    ensures
        r == begins(v@.skip(from as int), p@),
{
    if v.len() - from < p.len() {
        return false;
    }
    let ghost s = v@.skip(from as int);
    let n: usize = v.len();
    let mut j: usize = 0;
    while j < p.len()
        invariant
            j <= p@.len(),
            n == v@.len(),
            from <= v@.len(),
            p@.len() <= v@.len() - from,
            s == v@.skip(from as int),
            forall|k: int| 0 <= k < j ==> s[k] == p@[k],
        decreases p@.len() - j,
    {
        assert(s[j as int] == v@[from + j]);
        if v[from + j] != p[j] {
            assert(s.take(p@.len() as int)[j as int] != p@[j as int]);
            return false;
        }
        j += 1;
    }
    assert(s.take(p@.len() as int) =~= p@);
    true
}

/// A text that occurs in another fits into it.
proof fn find_fits(s: Seq<char>, part: Seq<char>)
    ensures
        match find_text(s, part) {
            Some(k) => 0 <= k && k + part.len() <= s.len(),
            None => true,
        },
    decreases s.len(),
{
    if !begins(s, part) && s.len() > 0 {
        find_fits(s.drop_first(), part);
    }
}

/// Where a text first occurs in another, from a position on.
fn search(v: &Vec<char>, p: &Vec<char>, from: usize) -> (r: Option<usize>)
    requires
        from <= v@.len(),
    ensures
        match r {
            Some(k) => from <= k && k + p@.len() <= v@.len() && find_text(v@.skip(from as int), p@)
                == Some(k - from),
            None => find_text(v@.skip(from as int), p@) is None,
        },
{
    let ghost s = v@.skip(from as int);
    let mut k: usize = from;
    assert(s =~= v@.skip(k as int));
    loop
        invariant
            from <= k <= v@.len(),
            s == v@.skip(from as int),
            match find_text(v@.skip(k as int), p@) {
                Some(m) => find_text(s, p@) == Some(m + k - from),
                None => find_text(s, p@) is None,
            },
        decreases v@.len() - k,
    {
        if at(v, p, k) {
            proof {
                find_fits(v@.skip(k as int), p@);
            }
            return Some(k);
        }
        if k == v.len() {
            return None;
        }
        assert(v@.skip(k as int).drop_first() =~= v@.skip(k + 1));
        k += 1;
    }
}

/// The text between the first and the second occurrence of a separator, or to
/// the end where there is one only.
pub open spec fn second_piece(s: Seq<char>, sep: Seq<char>) -> Option<Seq<char>> {
    match find_text(s, sep) {
        None => None,
        Some(k) => {
            let rest = s.skip(k + sep.len());
            match find_text(rest, sep) {
                None => Some(rest),
                Some(m) => Some(rest.take(m)),
            }
        },
    }
}

/// The text between the first and the second occurrence of a separator.
fn cut_second(s: &str, sep: &str) -> (r: Option<String>)
    ensures
        match r {
            Some(t) => second_piece(s@, sep@) == Some(t@),
            None => second_piece(s@, sep@) is None,
        },
{
    let v = chars_of(s);
    let p = chars_of(sep);
    let n: usize = v.len();
    assert(v@.skip(0) =~= s@);
    match search(&v, &p, 0) {
        None => None,
        Some(k) => {
            let from: usize = k + p.len();
            let ghost rest = s@.skip(k + sep@.len());
            assert(rest =~= v@.skip(from as int));
            let to: usize = match search(&v, &p, from) {
                None => v.len(),
                Some(m) => m,
            };
            let t = string_of(&v, from, to);
            if to == v.len() {
                assert(t@ =~= rest);
                assert(rest.take(to - from) =~= rest);
            } else {
                assert(t@ =~= rest.take(to - from));
            }
            Some(t)
        },
    }
}

/// A request: its method, what it asks for with and without the query, and
/// its body where it has one.
#[derive(Debug, Clone)]
pub struct Request {
    pub method: String,
    pub target: String,
    pub path: String,
    pub body: Option<String>,
}

/// The first line of a request; a plain one where there is none.
pub open spec fn request_line(text: Seq<char>) -> Seq<char> {
    let all = lines_of(text);
    if all.len() == 0 {
        "GET / HTTP/1.1"@
    } else {
        all[0]
    }
}

/// A word of a line, or another where it has too few.
pub open spec fn word_or(line: Seq<char>, k: int, other: Seq<char>) -> Seq<char> {
    if k < words_of(line).len() {
        words_of(line)[k]
    } else {
        other
    }
}

/// The end of the head of a request.
pub open spec fn head_end() -> Seq<char> {
    "\r\n\r\n"@
}

/// A request as it is read from its text.
pub open spec fn requested(text: Seq<char>, r: Request) -> bool {
    let line = request_line(text);
    &&& r.method@ == word_or(line, 0, "GET"@)
    &&& r.target@ == word_or(line, 1, "/"@)
    &&& r.path@ == split_at(r.target@, '?')[0]
    &&& match r.body {
        Some(b) => second_piece(text, head_end()) == Some(b@),
        None => second_piece(text, head_end()) is None,
    }
}

/// Reads a request from its text.
pub fn parse_request(text: &str) -> (r: Request)
    ensures
        requested(text@, r),
{
    let all = lines(text);
    assert(views(all@).len() == all@.len());
    let line = if all.len() == 0 {
        "GET / HTTP/1.1".to_owned()
    } else {
        assert(views(all@)[0] == all@[0]@);
        all[0].clone()
    };
    let w = words(line.as_str());
    assert(views(w@).len() == w@.len());
    let method = if w.len() > 0 {
        assert(views(w@)[0] == w@[0]@);
        w[0].clone()
    } else {
        "GET".to_owned()
    };
    let target = if w.len() > 1 {
        assert(views(w@)[1] == w@[1]@);
        w[1].clone()
    } else {
        "/".to_owned()
    };
    let pieces = split(target.as_str(), '?');
    assert(views(pieces@)[0] == pieces@[0]@);
    let path = pieces[0].clone();
    let body = cut_second(text, "\r\n\r\n");
    Request { method, target, path, body }
}

/// Reads a request from its bytes.
pub fn read_request(bytes: &[u8]) -> (r: Request)
    ensures
        requested(lossy(bytes@), r),
        valid_utf8(bytes@) ==> requested(decode_utf8(bytes@), r),
{
    let text = decode_lossy(bytes);
    parse_request(text.as_str())
}

/// The number of bytes of a text.
pub open spec fn byte_count(text: Seq<char>) -> nat {
    encode_utf8(text).len()
}

/// A response with some further lines in its head.
pub open spec fn response_text(
    status: Seq<char>,
    content_type: Seq<char>,
    more: Seq<char>,
    body: Seq<char>,
) -> Seq<char> {
    "HTTP/1.1 "@ + status + "\r\nContent-Type: "@ + content_type + "\r\nContent-Length: "@ + decimal(
        byte_count(body),
    ) + "\r\nConnection: close\r\n"@ + more + "\r\n"@ + body
}

/// Writes a response with some further lines in its head. The length that it
/// tells is that of the body in bytes.
pub fn write_response(status: &str, content_type: &str, more: &str, body: &str) -> (r: String)
    ensures
        r@ == response_text(status@, content_type@, more@, body@),
{
    let length: usize = body.as_bytes().len();
    let a = concat3("HTTP/1.1 ", status, "\r\nContent-Type: ");
    let b = concat3(a.as_str(), content_type, "\r\nContent-Length: ");
    let c = concat3(
        b.as_str(),
        decimal_text(length as u64).as_str(),
        "\r\nConnection: close\r\n",
    );
    let d = concat3(c.as_str(), more, "\r\n");
    concat2(d.as_str(), body)
}

/// The part of a target behind its first question mark; nothing where it has
/// none.
pub open spec fn query(target: Seq<char>) -> Seq<char> {
    match crate::text::once(target, '?') {
        Some((_, q)) => q,
        None => Seq::empty(),
    }
}

/// The value of a hexadecimal digit.
pub open spec fn hex_digit(b: u8) -> Option<int> {
    if 48 <= b <= 57 {
        Some(b - 48)
    } else if 65 <= b <= 70 {
        Some(b - 55)
    } else if 97 <= b <= 102 {
        Some(b - 87)
    } else {
        None
    }
}

/// The byte that two characters stand for: two hexadecimal digits, or a plus
/// and one. Anything else stands for a question mark.
pub open spec fn hex_pair(a: u8, b: u8) -> int {
    match (hex_digit(a), hex_digit(b)) {
        (Some(x), Some(y)) => x * 16 + y,
        (None, Some(y)) => if a == 43 {
            y
        } else {
            63
        },
        _ => 63,
    }
}

/// The bytes that an encoded text stands for.
pub open spec fn url_bytes(s: Seq<u8>) -> Seq<u8>
    decreases s.len(),
{
    if s.len() == 0 {
        s
    } else if s[0] == 37 && s.len() > 2 {
        seq![hex_pair(s[1], s[2]) as u8] + url_bytes(s.skip(3))
    } else if s[0] == 43 {
        seq![32u8] + url_bytes(s.skip(1))
    } else {
        seq![s[0]] + url_bytes(s.skip(1))
    }
}

/// The value of a hexadecimal digit.
fn read_hex(b: u8) -> (r: Option<u8>)
    ensures
        match r {
            Some(d) => hex_digit(b) == Some(d as int) && d < 16,
            None => hex_digit(b) is None,
        },
{
    if 48 <= b && b <= 57 {
        Some(b - 48)
    } else if 65 <= b && b <= 70 {
        Some(b - 55)
    } else if 97 <= b && b <= 102 {
        Some(b - 87)
    } else {
        None
    }
}

/// The byte that two characters stand for.
fn read_pair(a: u8, b: u8) -> (r: u8)
    ensures
        r == hex_pair(a, b),
{
    match (read_hex(a), read_hex(b)) {
        (Some(x), Some(y)) => x * 16 + y,
        (None, Some(y)) => if a == 43 {
            y
        } else {
            63
        },
        _ => 63,
    }
}

/// The bytes that an encoded text stands for.
fn decode_bytes(s: &[u8]) -> (r: Vec<u8>)
    ensures
        r@ == url_bytes(s@),
{
    let n: usize = s.len();
    let mut r: Vec<u8> = Vec::new();
    let mut i: usize = 0;
    assert(s@.skip(0) =~= s@);
    assert(r@ + url_bytes(s@) =~= url_bytes(s@));
    while i < n
        invariant
            n == s@.len(),
            i <= n,
            url_bytes(s@) == r@ + url_bytes(s@.skip(i as int)),
        decreases n - i,
    {
        let ghost t = s@.skip(i as int);
        let ghost before = r@;
        assert(t[0] == s@[i as int]);
        if s[i] == 37 && n - i > 2 {
            assert(t[1] == s@[i + 1] && t[2] == s@[i + 2]);
            let b: u8 = read_pair(s[i + 1], s[i + 2]);
            r.push(b);
            assert(t.skip(3) =~= s@.skip(i + 3));
            assert(before + (seq![b] + url_bytes(s@.skip(i + 3))) =~= r@ + url_bytes(
                s@.skip(i + 3),
            ));
            i += 3;
        } else {
            let b: u8 = if s[i] == 43 {
                32
            } else {
                s[i]
            };
            r.push(b);
            assert(t.skip(1) =~= s@.skip(i + 1));
            assert(before + (seq![b] + url_bytes(s@.skip(i + 1))) =~= r@ + url_bytes(
                s@.skip(i + 1),
            ));
            i += 1;
        }
    }
    assert(s@.skip(i as int) =~= Seq::<u8>::empty());
    assert(r@ + Seq::<u8>::empty() =~= r@);
    r
}

/// The text that an encoded text stands for.
pub open spec fn url_decoded(text: Seq<char>) -> Seq<char> {
    lossy(url_bytes(encode_utf8(text)))
}

/// Whether some bytes hold nothing encoded.
pub open spec fn unencoded(s: Seq<u8>) -> bool {
    forall|i: int| 0 <= i < s.len() ==> (#[trigger] s[i]) != 37 && s[i] != 43
}

/// Bytes that hold nothing encoded stand for themselves.
proof fn unencoded_bytes(s: Seq<u8>)
    requires
        unencoded(s),
    ensures
        url_bytes(s) == s,
    decreases s.len(),
{
    if s.len() > 0 {
        unencoded_bytes(s.skip(1));
        assert(seq![s[0]] + s.skip(1) =~= s);
    }
}

/// The text that an encoded text stands for. A text that holds nothing encoded
/// stands for itself.
pub fn url_decode(input: &str) -> (r: String)
    ensures
        r@ == url_decoded(input@),
        valid_utf8(url_bytes(encode_utf8(input@))) ==> r@ == decode_utf8(
            url_bytes(encode_utf8(input@)),
        ),
        unencoded(encode_utf8(input@)) ==> r@ == input@,
{
    let bytes = decode_bytes(input.as_bytes());
    proof {
        if unencoded(encode_utf8(input@)) {
            unencoded_bytes(encode_utf8(input@));
            vstd::utf8::encode_utf8_valid_utf8(input@);
            vstd::utf8::encode_utf8_decode_utf8(input@);
        }
    }
    decode_lossy(bytes.as_slice())
}

/// The value of the first of some fields with a name.
pub open spec fn field_in(pairs: Seq<Seq<char>>, name: Seq<char>) -> Option<Seq<char>>
    decreases pairs.len(),
{
    if pairs.len() == 0 {
        None
    } else {
        match crate::text::once(pairs[0], '=') {
            Some((key, value)) => if key == name {
                Some(url_decoded(value))
            } else {
                field_in(pairs.drop_first(), name)
            },
            None => field_in(pairs.drop_first(), name),
        }
    }
}

/// The value of the first field with a name in the query of a target.
pub open spec fn query_value(target: Seq<char>, name: Seq<char>) -> Option<Seq<char>> {
    match crate::text::once(target, '?') {
        Some((_, q)) => field_in(split_at(q, '&'), name),
        None => None,
    }
}

/// The encoded value of the first of some fields with a name.
pub open spec fn raw_field_in(pairs: Seq<Seq<char>>, name: Seq<char>) -> Option<Seq<char>>
    decreases pairs.len(),
{
    if pairs.len() == 0 {
        None
    } else {
        match crate::text::once(pairs[0], '=') {
            Some((key, value)) => if key == name {
                Some(value)
            } else {
                raw_field_in(pairs.drop_first(), name)
            },
            None => raw_field_in(pairs.drop_first(), name),
        }
    }
}

/// The encoded value of the first field with a name in the query of a target.
pub open spec fn raw_value(target: Seq<char>, name: Seq<char>) -> Option<Seq<char>> {
    match crate::text::once(target, '?') {
        Some((_, q)) => raw_field_in(split_at(q, '&'), name),
        None => None,
    }
}

/// The value of the first field with a name in the query of a target. Where
/// its bytes are UTF-8, it is the text that they stand for.
pub fn query_field(target: &str, name: &str) -> (r: Option<String>)
    ensures
        match r {
            Some(t) => {
                &&& query_value(target@, name@) == Some(t@)
                &&& raw_value(target@, name@) is Some
                &&& valid_utf8(url_bytes(encode_utf8(raw_value(target@, name@)->0))) ==> t@
                    == decode_utf8(url_bytes(encode_utf8(raw_value(target@, name@)->0)))
                &&& unencoded(encode_utf8(raw_value(target@, name@)->0)) ==> t@ == raw_value(
                    target@,
                    name@,
                )->0
            },
            None => query_value(target@, name@) is None && raw_value(target@, name@) is None,
        },
{
    match split_once(target, '?') {
        None => None,
        Some((_, q)) => {
            let pairs = split(q.as_str(), '&');
            let ghost all = views(pairs@);
            let mut i: usize = 0;
            assert(all.skip(0) =~= all);
            while i < pairs.len()
                invariant
                    i <= pairs@.len(),
                    all == views(pairs@),
                    field_in(all, name@) == field_in(all.skip(i as int), name@),
                    query_value(target@, name@) == field_in(all, name@),
                    raw_field_in(all, name@) == raw_field_in(all.skip(i as int), name@),
                    raw_value(target@, name@) == raw_field_in(all, name@),
                decreases pairs@.len() - i,
            {
                assert(all.skip(i as int)[0] == pairs@[i as int]@);
                assert(all.skip(i as int).drop_first() =~= all.skip(i + 1));
                if let Some((key, value)) = split_once(pairs[i].as_str(), '=') {
                    if same(key.as_str(), name) {
                        return Some(url_decode(value.as_str()));
                    }
                }
                i += 1;
            }
            None
        },
    }
}

/// The rest of the first of some pieces that begins with a prefix.
pub open spec fn prefixed_in(pieces: Seq<Seq<char>>, prefix: Seq<char>) -> Option<Seq<char>>
    decreases pieces.len(),
{
    if pieces.len() == 0 {
        None
    } else if begins(pieces[0], prefix) {
        Some(pieces[0].skip(prefix.len() as int))
    } else {
        prefixed_in(pieces.drop_first(), prefix)
    }
}

/// The rest of the first part of a target's query that begins with a prefix.
pub fn query_prefixed(target: &str, prefix: &str) -> (r: Option<String>)
    ensures
        match r {
            Some(t) => prefixed_in(split_at(query(target@), '&'), prefix@) == Some(t@),
            None => prefixed_in(split_at(query(target@), '&'), prefix@) is None,
        },
{
    let q = match split_once(target, '?') {
        Some((_, q)) => q,
        None => String::new(),
    };
    assert(q@ =~= query(target@));
    let pairs = split(q.as_str(), '&');
    let ghost all = views(pairs@);
    let mut i: usize = 0;
    assert(all.skip(0) =~= all);
    while i < pairs.len()
        invariant
            i <= pairs@.len(),
            all == views(pairs@),
            all == split_at(query(target@), '&'),
            prefixed_in(all, prefix@) == prefixed_in(all.skip(i as int), prefix@),
        decreases pairs@.len() - i,
    {
        assert(all.skip(i as int)[0] == pairs@[i as int]@);
        assert(all.skip(i as int).drop_first() =~= all.skip(i + 1));
        if let Some(rest) = strip_prefix(pairs[i].as_str(), prefix) {
            return Some(rest);
        }
        i += 1;
    }
    None
}

} // verus!
