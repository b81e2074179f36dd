//! Decimal numbers as text: reading signed integers, writing natural numbers.
use vstd::prelude::*;

use crate::text::{chars_of, code};

verus! {

/// Whether a character is a decimal digit.
pub open spec fn is_digit(c: char) -> bool {
    '0' <= c && c <= '9'
}

/// Whether a text is made of decimal digits alone.
pub open spec fn all_digits(s: Seq<char>) -> bool {
    forall|i: int| 0 <= i < s.len() ==> is_digit(#[trigger] s[i])
}

/// The number that a run of digits stands for.
pub open spec fn digits_value(s: Seq<char>) -> nat
    decreases s.len(),
{
    if s.len() == 0 {
        0
    } else {
        10 * digits_value(s.drop_last()) + ((s.last() as int) - ('0' as int)) as nat
    }
}

/// A nonempty run of digits as a number.
pub open spec fn natural(s: Seq<char>) -> Option<nat> {
    if s.len() > 0 && all_digits(s) {
        Some(digits_value(s))
    } else {
        None
    }
}

/// A text as a 64-bit integer: an optional sign, then digits, within range.
pub open spec fn integer(s: Seq<char>) -> Option<int> {
    let negative = s.len() > 0 && s[0] == '-';
    let signed = s.len() > 0 && (s[0] == '-' || s[0] == '+');
    match natural(if signed {
        s.drop_first()
    } else {
        s
    }) {
        Some(n) => {
            let value = if negative {
                -(n as int)
            } else {
                n as int
            };
            if i64::MIN <= value <= i64::MAX {
                Some(value)
            } else {
                None
            }
        },
        None => None,
    }
}

/// A longer run of digits stands for a number at least as large.
proof fn digits_value_grows(s: Seq<char>, k: int)
    requires
        0 <= k <= s.len(),
        all_digits(s),
    ensures
        digits_value(s.take(k)) <= digits_value(s),
    decreases s.len() - k,
{
    if k < s.len() {
        digits_value_grows(s, k + 1);
        assert(s.take(k + 1).drop_last() =~= s.take(k));
        assert(s.take(k + 1).last() == s[k]);
        assert(is_digit(s[k]));
    } else {
        assert(s.take(k) =~= s);
    }
}

/// Whether a text is digits from a position on.
fn digits_from(v: &Vec<char>, from: usize) -> (r: bool)
    requires
        from <= v@.len(),
    ensures
        r == all_digits(v@.skip(from as int)),
{
    let mut i: usize = from;
    while i < v.len()
        invariant
            from <= i <= v@.len(),
            forall|j: int| 0 <= j < i - from ==> is_digit(#[trigger] v@.skip(from as int)[j]),
        decreases v@.len() - i,
    {
        assert(v@.skip(from as int)[i - from] == v@[i as int]);
        if !('0' <= v[i] && v[i] <= '9') {
            assert(!is_digit(v@.skip(from as int)[i - from]));
            return false;
        }
        i += 1;
    }
    true
}

/// The number that the digits from a position on stand for, unless it needs
/// more than 64 bits.
fn value_from(v: &Vec<char>, from: usize) -> (r: Option<i128>)
    requires
        from <= v@.len(),
        all_digits(v@.skip(from as int)),
    ensures
        match r {
            Some(n) => n == digits_value(v@.skip(from as int)) && n <= 0x1_0000_0000_0000_0000,
            None => digits_value(v@.skip(from as int)) > 0x1_0000_0000_0000_0000,
        },
{
    let ghost body = v@.skip(from as int);
    let mut value: i128 = 0;
    let mut i: usize = from;
    assert(body.take(0) =~= Seq::<char>::empty());
    while i < v.len()
        invariant
            from <= i <= v@.len(),
            body == v@.skip(from as int),
            all_digits(body),
            value as int == digits_value(body.take(i - from)),
            0 <= value <= 0x1_0000_0000_0000_0000,
        decreases v@.len() - i,
    {
        let c: char = v[i];
        assert(c == body[i - from]);
        assert(is_digit(c));
        let d: u32 = code(c) - 48;
        value = value * 10 + d as i128;
        assert(body.take(i - from + 1).drop_last() =~= body.take(i - from));
        assert(body.take(i - from + 1).last() == c);
        i += 1;
        if value > 0x1_0000_0000_0000_0000 {
            proof {
                digits_value_grows(body, i - from);
            }
            return None;
        }
    }
    assert(body.take(i - from) =~= body);
    Some(value)
}

/// Reads a 64-bit integer.
pub fn parse_i64(text: &str) -> (r: Option<i64>)
    ensures
        match r {
            Some(v) => integer(text@) == Some(v as int),
            None => integer(text@) is None,
        },
{
    let v = chars_of(text);
    let negative = v.len() > 0 && v[0] == '-';
    let signed = v.len() > 0 && (v[0] == '-' || v[0] == '+');
    let from: usize = if signed {
        1
    } else {
        0
    };
    let ghost s = text@;
    let ghost body = if signed {
        s.drop_first()
    } else {
        s
    };
    assert(body =~= v@.skip(from as int));
    if v.len() == from || !digits_from(&v, from) {
        return None;
    }
    match value_from(&v, from) {
        None => None,
        Some(value) => {
            let result: i128 = if negative {
                -value
            } else {
                value
            };
            if -0x8000_0000_0000_0000 <= result && result <= 0x7fff_ffff_ffff_ffff {
                Some(result as i64)
            } else {
                None
            }
        },
    }
}

/// The digit for a number below ten.
pub open spec fn digit(d: nat) -> char {
    (('0' as int) + d) as char
}

/// A number in decimal, without leading zeros.
pub open spec fn decimal(n: nat) -> Seq<char>
    decreases n,
{
    if n < 10 {
        seq![digit(n)]
    } else {
        decimal(n / 10).push(digit(n % 10))
    }
}

/// As many zeros as given.
pub open spec fn zeros(n: nat) -> Seq<char> {
    Seq::new(n, |i: int| '0')
}

/// A number in decimal, with leading zeros up to the given width.
pub open spec fn padded(n: nat, width: nat) -> Seq<char> {
    let d = decimal(n);
    if d.len() < width {
        zeros((width - d.len()) as nat) + d
    } else {
        d
    }
}

/// What is written in decimal reads back as the same number.
pub proof fn decimal_reads_back(n: nat)
    ensures
        decimal(n).len() > 0,
        all_digits(decimal(n)),
        digits_value(decimal(n)) == n,
    decreases n,
{
    let d = decimal(n);
    if n < 10 {
        assert(d.drop_last() =~= Seq::<char>::empty());
        assert(d.last() == digit(n));
        reveal_with_fuel(digits_value, 2);
    } else {
        decimal_reads_back(n / 10);
        assert(d.drop_last() =~= decimal(n / 10));
        assert(d.last() == digit(n % 10));
        assert forall|i: int| 0 <= i < d.len() implies is_digit(#[trigger] d[i]) by {
            if i < d.len() - 1 {
                assert(d[i] == decimal(n / 10)[i]);
            }
        }
    }
}

/// Leading zeros do not change what a run of digits stands for.
proof fn leading_zeros(k: nat, s: Seq<char>)
    requires
        all_digits(s),
    ensures
        all_digits(zeros(k) + s),
        digits_value(zeros(k) + s) == digits_value(s),
    decreases s.len() + k,
{
    let t = zeros(k) + s;
    assert forall|i: int| 0 <= i < t.len() implies is_digit(#[trigger] t[i]) by {
        if i >= k {
            assert(t[i] == s[i - k]);
        }
    }
    if s.len() > 0 {
        assert(t.drop_last() =~= zeros(k) + s.drop_last());
        assert(all_digits(s.drop_last())) by {
            assert forall|i: int| 0 <= i < s.len() - 1 implies is_digit(
                #[trigger] s.drop_last()[i],
            ) by {
                assert(s.drop_last()[i] == s[i]);
            }
        }
        leading_zeros(k, s.drop_last());
        assert(t.last() == s.last());
    } else if k > 0 {
        assert(t.drop_last() =~= zeros((k - 1) as nat) + s);
        leading_zeros((k - 1) as nat, s);
        assert(t.last() == '0');
    } else {
        assert(t =~= s);
    }
}

/// What is written with leading zeros reads back as the same number.
pub proof fn padded_reads_back(n: nat, width: nat)
    requires
        n <= i64::MAX,
    ensures
        natural(padded(n, width)) == Some(n),
        integer(padded(n, width)) == Some(n as int),
        padded(n, width).len() >= width,
        all_digits(padded(n, width)),
{
    decimal_reads_back(n);
    if decimal(n).len() < width {
        leading_zeros((width - decimal(n).len()) as nat, decimal(n));
    }
    assert(is_digit(padded(n, width)[0]));
}

/// The digits needed for a number below a power of ten.
pub proof fn decimal_width(n: nat, width: nat)
    requires
        width >= 1,
        n < vstd::arithmetic::power::pow(10, width),
    ensures
        decimal(n).len() <= width,
    decreases width,
{
    vstd::arithmetic::power::lemma_pow1(10);
    if n >= 10 {
        if width == 1 {
        } else {
            vstd::arithmetic::power::lemma_pow_adds(10, 1, (width - 1) as nat);
            let p = vstd::arithmetic::power::pow(10, (width - 1) as nat);
            assert(n < 10 * p);
            assert(n / 10 < p);
            decimal_width(n / 10, (width - 1) as nat);
        }
    }
}

/// Writes a number in decimal.
pub fn decimal_text(n: u64) -> (r: String)
    ensures
        r@ == decimal(n as nat),
    decreases n,
{
    let low: u8 = (n % 10) as u8;
    let c: char = (48 + low) as char;
    let mut r = if n < 10 {
        String::new()
    } else {
        decimal_text(n / 10)
    };
    r.push(c);
    assert(Seq::<char>::empty().push(c) =~= seq![c]);
    r
}

/// Writes a number in decimal with leading zeros up to the given width.
pub fn padded_text(n: u64, width: usize) -> (r: String)
    ensures
        r@ == padded(n as nat, width as nat),
{
    let d = decimal_text(n);
    let v = chars_of(d.as_str());
    if v.len() >= width {
        return d;
    }
    let missing: usize = width - v.len();
    let mut r = String::new();
    let mut i: usize = 0;
    while i < missing
        invariant
            i <= missing,
            r@ == zeros(i as nat),
        decreases missing - i,
    {
        r.push('0');
        i += 1;
        assert(zeros(i as nat) =~= zeros((i - 1) as nat).push('0'));
    }
    crate::text::concat2(r.as_str(), d.as_str())
}

/// The nearest whole multiple of `unit` to `n`, counted in units; a tie goes to
/// the even count.
pub open spec fn half_even(n: nat, unit: nat) -> nat {
    let q = n / unit;
    let rest = n % unit;
    if 2 * rest < unit || (2 * rest == unit && q % 2 == 0) {
        q
    } else {
        q + 1
    }
}

/// Rounds to a multiple of `unit`, a tie to the even count.
pub fn round_half_even(n: u64, unit: u64) -> (r: u64)
    requires
        2 <= unit <= u64::MAX / 2,
    ensures
        r == half_even(n as nat, unit as nat),
{
    let q: u64 = n / unit;
    let rest: u64 = n % unit;
    assert(q <= n / 2) by (nonlinear_arith)
        requires
            q == n / unit,
            unit >= 2,
    ;
    if 2 * rest < unit || (2 * rest == unit && q % 2 == 0) {
        q
    } else {
        q + 1
    }
}

/// The size of a number, without its sign.
pub open spec fn size(v: int) -> nat {
    if v < 0 {
        (-v) as nat
    } else {
        v as nat
    }
}

/// The size of a number, without its sign.
pub fn magnitude(v: i64) -> (r: u64)
    ensures
        r == size(v as int),
{
    if v == i64::MIN {
        9_223_372_036_854_775_808
    } else if v < 0 {
        (-v) as u64
    } else {
        v as u64
    }
}

/// A number of billionths in whole units, with a sign where it is negative.
pub open spec fn whole(v: int) -> Seq<char> {
    let digits = decimal(half_even(size(v), 1_000_000_000));
    if v < 0 {
        "-"@ + digits
    } else {
        digits
    }
}

/// Writes a number of billionths in whole units.
pub fn whole_text(v: i64) -> (r: String)
    ensures
        r@ == whole(v as int),
{
    let digits = decimal_text(round_half_even(magnitude(v), 1_000_000_000));
    if v < 0 {
        crate::text::concat2("-", digits.as_str())
    } else {
        digits
    }
}

/// A number of billionths with one digit behind the point.
pub open spec fn tenths(n: nat) -> Seq<char> {
    let q = half_even(n, 100_000_000);
    decimal(q / 10) + "."@ + decimal(q % 10)
}

/// Writes a number of billionths with one digit behind the point.
pub fn tenths_text(n: u64) -> (r: String)
    ensures
        r@ == tenths(n as nat),
{
    let q: u64 = round_half_even(n, 100_000_000);
    crate::text::concat3(decimal_text(q / 10).as_str(), ".", decimal_text(q % 10).as_str())
}

/// A number of billionths with two digits behind the point.
pub open spec fn hundredths(n: nat) -> Seq<char> {
    let q = half_even(n, 10_000_000);
    decimal(q / 100) + "."@ + padded(q % 100, 2)
}

/// Writes a number of billionths with two digits behind the point.
pub fn hundredths_text(n: u64) -> (r: String)
    ensures
        r@ == hundredths(n as nat),
{
    let q: u64 = round_half_even(n, 10_000_000);
    crate::text::concat3(decimal_text(q / 100).as_str(), ".", padded_text(q % 100, 2).as_str())
}

} // verus!
