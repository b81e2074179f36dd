//! Laws of times: the calendar, and how a written time is read.
use vstd::prelude::*;

use crate::decimal::integer;
use crate::epoch::{
    clock_value, date_value, day_number, digits_at, epoch_value, is_date, local_value, month_days,
    month_start, offset_value, text_reads_back, thousandths, utc_value, whole_seconds,
    year_is_its_months,
};
use crate::text::{free_of, once, once_at, one_piece, split_at};

verus! {

/// Each day follows the one before it; the first of 1970 is day zero. February
/// has a 29th in each fourth year, but for the hundreds that are not divisible
/// by four hundred; four hundred years have 146,097 days.
pub proof fn days_follow_each_other(y: int, m: int, d: int)
    requires
        1 <= m <= 12,
    ensures
        day_number(y, m, d + 1) == day_number(y, m, d) + 1,
        day_number(1970, 1, 1) == 0,
        m == 1 || m == 3 || m == 5 || m == 7 || m == 8 || m == 10 ==> day_number(y, m + 1, 1)
            == day_number(y, m, 1) + 31,
        m == 4 || m == 6 || m == 9 || m == 11 ==> day_number(y, m + 1, 1) == day_number(y, m, 1)
            + 30,
        m == 2 ==> day_number(y, 3, 1) == day_number(y, 2, 1) + if y % 4 == 0 && (y % 100 != 0 || y
            % 400 == 0) {
            29int
        } else {
            28int
        },
        m == 12 ==> day_number(y + 1, 1, 1) == day_number(y, 12, 1) + 31,
        day_number(y + 400, 1, 1) == day_number(y, 1, 1) + 146_097,
        is_date(y, m, d) <==> 1 <= d && day_number(y, m, d) < if m == 12 {
            day_number(y + 1, 1, 1)
        } else {
            day_number(y, m + 1, 1)
        },
{
    assert(month_start(y, m + 1) == month_start(y, m) + month_days(y, m));
    assert(month_start(y, 1) == 0);
    assert(month_start(1970, 1) == 0);
    assert(month_start(y + 1, 1) == 0);
    assert(month_start(y + 400, 1) == 0);
    year_is_its_months(y);
    let z = y - 1;
    assert((z + 400) / 4 == z / 4 + 100 && (z + 400) / 100 == z / 100 + 4 && (z + 400) / 400 == z
        / 400 + 1);
}

/// A date is read as its year, month and day; it is refused where the month is
/// not from 1 to 12 or the day not from 1 to 31.
pub proof fn dates_are_read(a: Seq<char>, b: Seq<char>, c: Seq<char>, y: int, m: int, d: int)
    requires
        free_of(a, '-'),
        free_of(b, '-'),
        free_of(c, '-'),
        integer(a) == Some(y),
        integer(b) == Some(m),
        integer(c) == Some(d),
    ensures
        date_value(a + seq!['-'] + b + seq!['-'] + c) == if 1 <= m <= 12 && 1 <= d <= 31 {
            Ok::<int, Seq<char>>(day_number(y, m, d))
        } else {
            Err("invalid calendar date"@)
        },
{
    let rest = b + seq!['-'] + c;
    assert(a + seq!['-'] + b + seq!['-'] + c =~= a + seq!['-'] + rest);
    once_at(a, '-', rest);
    once_at(b, '-', c);
    one_piece(c, '-');
    assert(seq![a] + (seq![b] + seq![c]) =~= seq![a, b, c]);
}

/// A time of day is read as its hours, minutes and seconds, in thousandths; it
/// is refused where the hours are not below 24, the minutes not below 60, or
/// the seconds above 60.
pub proof fn clocks_are_read(a: Seq<char>, b: Seq<char>, c: Seq<char>, h: int, m: int, s: int)
    requires
        free_of(a, ':'),
        free_of(b, ':'),
        free_of(c, ':'),
        free_of(c, '.'),
        integer(a) == Some(h),
        integer(b) == Some(m),
        integer(c) == Some(s),
    ensures
        clock_value(a + seq![':'] + b + seq![':'] + c) == if 0 <= h <= 23 && 0 <= m <= 59 && 0 <= s
            <= 60 {
            Ok::<int, Seq<char>>(h * 3_600_000 + m * 60_000 + s * 1000)
        } else {
            Err("invalid clock time"@)
        },
{
    short_clock(a, b, c);
    assert(whole_seconds(c) == s);
    assert(thousandths(c) == Some(0int));
    assert(split_at(a + seq![':'] + b + seq![':'] + c, ':')[2] == c);
}

/// A time of day without a fraction in its pieces.
proof fn short_clock(a: Seq<char>, b: Seq<char>, c: Seq<char>)
    requires
        free_of(a, ':'),
        free_of(b, ':'),
        free_of(c, ':'),
        free_of(c, '.'),
    ensures
        split_at(a + seq![':'] + b + seq![':'] + c, ':') == seq![a, b, c],
        split_at(c, '.')[0] == c,
        once(c, '.') is None,
{
    let rest = b + seq![':'] + c;
    assert(a + seq![':'] + b + seq![':'] + c =~= a + seq![':'] + rest);
    once_at(a, ':', rest);
    once_at(b, ':', c);
    one_piece(c, ':');
    one_piece(c, '.');
    assert(seq![a] + (seq![b] + seq![c]) =~= seq![a, b, c]);
}

/// Three digits behind the point are thousandths of a second; more than three
/// are cut off.
pub proof fn fractions_are_read(
    a: Seq<char>,
    b: Seq<char>,
    c: Seq<char>,
    f: Seq<char>,
    h: int,
    m: int,
    s: int,
    ms: int,
)
    requires
        free_of(a, ':'),
        free_of(b, ':'),
        free_of(c, ':'),
        free_of(f, ':'),
        free_of(c, '.'),
        integer(a) == Some(h),
        integer(b) == Some(m),
        integer(c) == Some(s),
        0 <= h <= 23,
        0 <= m <= 59,
        0 <= s <= 60,
        f.len() >= 3,
        integer(f.take(3)) == Some(ms),
    ensures
        clock_value(a + seq![':'] + b + seq![':'] + c + seq!['.'] + f) == Ok::<int, Seq<char>>(
            h * 3_600_000 + m * 60_000 + s * 1000 + ms,
        ),
{
    let tail = c + seq!['.'] + f;
    pieces_of_clock(a, b, c, f);
    assert(whole_seconds(tail) == s);
    assert(thousandths(tail) == Some(ms));
    assert(split_at(a + seq![':'] + b + seq![':'] + c + seq!['.'] + f, ':')[2] == tail);
}

/// A time of day in its pieces.
proof fn pieces_of_clock(a: Seq<char>, b: Seq<char>, c: Seq<char>, f: Seq<char>)
    requires
        free_of(a, ':'),
        free_of(b, ':'),
        free_of(c, ':'),
        free_of(f, ':'),
        free_of(c, '.'),
    ensures
        split_at(a + seq![':'] + b + seq![':'] + c + seq!['.'] + f, ':') == seq![
            a,
            b,
            c + seq!['.'] + f,
        ],
        split_at(c + seq!['.'] + f, '.')[0] == c,
        once(c + seq!['.'] + f, '.') == Some((c, f)),
{
    let tail = c + seq!['.'] + f;
    let rest = b + seq![':'] + tail;
    assert(a + seq![':'] + b + seq![':'] + c + seq!['.'] + f =~= a + seq![':'] + rest);
    once_at(a, ':', rest);
    once_at(b, ':', tail);
    assert forall|i: int| 0 <= i < tail.len() implies tail[i] != ':' by {
        if i < c.len() {
            assert(tail[i] == c[i]);
        } else if i > c.len() {
            assert(tail[i] == f[i - c.len() - 1]);
        }
    }
    one_piece(tail, ':');
    once_at(c, '.', f);
    assert(seq![a] + (seq![b] + seq![tail]) =~= seq![a, b, tail]);
}

/// A time is read as its date and its time of day, in nanoseconds since 1970.
pub proof fn times_are_read(date: Seq<char>, clock: Seq<char>, days: int, ms: int)
    requires
        free_of(date, 'T'),
        date_value(date) == Ok::<int, Seq<char>>(days),
        clock_value(clock) == Ok::<int, Seq<char>>(ms),
    ensures
        epoch_value(date + seq!['T'] + clock + seq!['Z']) == Ok::<int, Seq<char>>(
            days * 86_400_000_000_000 + ms * 1_000_000,
        ),
        utc_value(date + seq!['T'] + clock + seq!['Z']) == Ok::<int, Seq<char>>(
            days * 86_400_000_000_000 + ms * 1_000_000,
        ),
{
    text_reads_back(date, clock, days, ms);
    z_is_utc(date + seq!['T'] + clock);
    assert((days * 86_400_000 + ms) * 1_000_000 == days * 86_400_000_000_000 + ms * 1_000_000);
}

/// A time that ends in Z is read without it.
proof fn z_is_utc(local: Seq<char>)
    ensures
        epoch_value(local + seq!['Z']) == local_value(local),
        utc_value(local + seq!['Z']) == local_value(local),
{
    let text = local + seq!['Z'];
    assert(text.last() == 'Z');
    assert(text.drop_last() =~= local);
}

/// What an offset is read as.
proof fn offset_is_read(local: Seq<char>, tail: Seq<char>)
    requires
        tail.len() == 6,
        tail[5] != 'Z',
    ensures
        offset_value(local + tail) == offset_value(tail),
        epoch_value(local + tail) == match offset_value(tail) {
            None => Err::<int, Seq<char>>("time must carry an explicit UTC offset"@),
            Some(minutes) => match local_value(local) {
                Err(e) => Err(e),
                Ok(t) => Ok(t - minutes * 60_000_000_000),
            },
        },
{
    let text = local + tail;
    let n = text.len();
    assert(text.skip(n - 6) =~= tail);
    assert(tail.skip(0) =~= tail);
    assert(text.take(n - 6) =~= local);
    assert(text.last() == tail[5]);
}

/// A time with an offset is as much earlier as its clock is ahead of UTC, and
/// as much later as it is behind; one whose offset cannot be read is refused.
pub proof fn offsets_shift_times(local: Seq<char>, tail: Seq<char>)
    requires
        tail.len() == 6,
        tail[5] != 'Z',
    ensures
        epoch_value(local + tail) == match offset_value(tail) {
            None => Err::<int, Seq<char>>("time must carry an explicit UTC offset"@),
            Some(minutes) => match epoch_value(local + seq!['Z']) {
                Err(e) => Err(e),
                Ok(t) => Ok(t - minutes * 60_000_000_000),
            },
        },
{
    z_is_utc(local);
    offset_is_read(local, tail);
}

/// An offset is a sign, two digits of hours, a colon and two digits of minutes:
/// hours below 24, minutes below 60.
pub proof fn offsets_are_read(sign: char, h1: char, h2: char, m1: char, m2: char)
    requires
        sign == '+' || sign == '-',
        '0' <= h1 <= '9',
        '0' <= h2 <= '9',
        '0' <= m1 <= '9',
        '0' <= m2 <= '9',
    ensures
        ({
            let hours = (h1 as int - 48) * 10 + (h2 as int - 48);
            let minutes = (m1 as int - 48) * 10 + (m2 as int - 48);
            offset_value(seq![sign, h1, h2, ':', m1, m2]) == if hours > 23 || minutes > 59 {
                None
            } else if sign == '+' {
                Some(hours * 60 + minutes)
            } else {
                Some(-(hours * 60 + minutes))
            }
        }),
{
    let tail = seq![sign, h1, h2, ':', m1, m2];
    assert(tail.skip(0) =~= tail);
    assert(digits_at(tail, 1) == (h1 as int - 48) * 10 + (h2 as int - 48));
    assert(digits_at(tail, 4) == (m1 as int - 48) * 10 + (m2 as int - 48));
}

/// A time without an offset is refused.
pub proof fn times_carry_an_offset(text: Seq<char>)
    requires
        text.len() == 0 || text.last() != 'Z',
        text.len() < 6 || (text[text.len() - 6] != '+' && text[text.len() - 6] != '-'),
    ensures
        epoch_value(text) == Err::<int, Seq<char>>("time must carry an explicit UTC offset"@),
{
    if text.len() >= 6 {
        assert(text.skip(text.len() - 6)[0] == text[text.len() - 6]);
    }
}

} // verus!
