//! Dates and times of day, and the texts they are written as.
use vstd::prelude::*;

use crate::decimal::{
    integer, is_digit, padded, padded_reads_back, padded_text, parse_i64,
};
use crate::text::{
    chars_of, concat2, concat3, free_of, once, once_at, one_piece, split, split_at, split_once,
    string_of, views,
};

verus! {

/// Whether a year has a leap day.
pub open spec fn leap(y: int) -> bool {
    y % 4 == 0 && (y % 100 != 0 || y % 400 == 0)
}

/// The leap years from year one up to a year.
pub open spec fn leaps(y: int) -> int {
    y / 4 - y / 100 + y / 400
}

/// The days from 1970-01-01 to the first day of a year.
pub open spec fn year_start(y: int) -> int {
    365 * (y - 1970) + leaps(y - 1) - leaps(1969)
}

/// The days of a month.
pub open spec fn month_days(y: int, m: int) -> int {
    if m == 2 {
        if leap(y) {
            29
        } else {
            28
        }
    } else if m == 4 || m == 6 || m == 9 || m == 11 {
        30
    } else {
        31
    }
}

/// The days of a year before a month.
pub open spec fn month_start(y: int, m: int) -> int
    decreases m,
{
    if m <= 1 {
        0
    } else {
        month_start(y, m - 1) + month_days(y, m - 1)
    }
}

/// The days from 1970-01-01 to a date. A day beyond its month runs into the
/// next.
pub open spec fn day_number(y: int, m: int, d: int) -> int {
    year_start(y) + month_start(y, m) + d - 1
}

/// Whether a date is in the calendar.
pub open spec fn is_date(y: int, m: int, d: int) -> bool {
    1 <= m <= 12 && 1 <= d <= month_days(y, m)
}

/// Where the months of a year start.
proof fn month_starts(y: int)
    ensures
        month_start(y, 1) == 0,
        month_start(y, 2) == 31,
        ({
            let f = month_days(y, 2);
            &&& month_start(y, 3) == 31 + f
            &&& month_start(y, 4) == 62 + f
            &&& month_start(y, 5) == 92 + f
            &&& month_start(y, 6) == 123 + f
            &&& month_start(y, 7) == 153 + f
            &&& month_start(y, 8) == 184 + f
            &&& month_start(y, 9) == 215 + f
            &&& month_start(y, 10) == 245 + f
            &&& month_start(y, 11) == 276 + f
            &&& month_start(y, 12) == 306 + f
            &&& month_start(y, 13) == 337 + f
        }),
{
    reveal_with_fuel(month_start, 14);
}

/// A year is as long as its months.
pub proof fn year_is_its_months(y: int)
    ensures
        year_start(y + 1) - year_start(y) == month_start(y, 13),
        month_start(y, 13) == if leap(y) {
            366int
        } else {
            365int
        },
{
    month_starts(y);
    assert(leaps(y) - leaps(y - 1) == if leap(y) {
        1int
    } else {
        0int
    });
}

/// The day after the last of a month is the first of the next.
pub proof fn months_follow(y: int, m: int)
    requires
        1 <= m <= 12,
    ensures
        m < 12 ==> day_number(y, m, month_days(y, m)) + 1 == day_number(y, m + 1, 1),
        m == 12 ==> day_number(y, m, month_days(y, m)) + 1 == day_number(y + 1, 1, 1),
        day_number(1970, 1, 1) == 0,
{
    year_is_its_months(y);
    month_starts(y);
    month_starts(y + 1);
    month_starts(1970);
}

/// A year has at least as many days as a common year and at most one more.
proof fn year_bounds(y: int)
    ensures
        y >= 1970 ==> 365 * (y - 1970) <= year_start(y) <= 366 * (y - 1970),
        y <= 1970 ==> 366 * (y - 1970) <= year_start(y) <= 365 * (y - 1970),
{
}

/// Later years start later.
proof fn years_rise(a: int, b: int)
    requires
        a < b,
    ensures
        year_start(a) + 365 <= year_start(b),
    decreases b - a,
{
    year_is_its_months(b - 1);
    if a < b - 1 {
        years_rise(a, b - 1);
    }
}

/// Later months start later.
proof fn months_rise(y: int, a: int, b: int)
    requires
        1 <= a < b <= 13,
    ensures
        month_start(y, a) + month_days(y, a) <= month_start(y, b),
    decreases b - a,
{
    if a < b - 1 {
        months_rise(y, a, b - 1);
    }
}

/// A day has one date only.
pub proof fn date_is_unique(y: int, m: int, d: int, y2: int, m2: int, d2: int)
    requires
        is_date(y, m, d),
        is_date(y2, m2, d2),
        day_number(y, m, d) == day_number(y2, m2, d2),
    ensures
        y == y2,
        m == m2,
        d == d2,
{
    year_is_its_months(y);
    year_is_its_months(y2);
    months_rise_to_end(y, m);
    months_rise_to_end(y2, m2);
    if y < y2 {
        if y + 1 < y2 {
            years_rise(y + 1, y2);
        }
    } else if y2 < y {
        if y2 + 1 < y {
            years_rise(y2 + 1, y);
        }
    }
    if m < m2 {
        months_rise(y, m, m2);
    } else if m2 < m {
        months_rise(y, m2, m);
    }
}

/// A month ends within its year.
proof fn months_rise_to_end(y: int, m: int)
    requires
        1 <= m <= 12,
    ensures
        0 <= month_start(y, m),
        month_start(y, m) + month_days(y, m) <= month_start(y, 13),
{
    months_rise(y, m, 13);
    month_starts(y);
    if m > 1 {
        months_rise(y, 1, m);
    }
}

/// The days before a month, counted from the first of March, and the months
/// from March on.
proof fn march_months(y: int, m: int)
    requires
        1 <= m <= 12,
    ensures
        m > 2 ==> (153 * (m - 3) + 2) / 5 == month_start(y, m) - month_start(y, 3),
        m <= 2 ==> (153 * (m + 9) + 2) / 5 == month_start(y, m) + 306,
{
    month_starts(y);
}

/// The days from 1970-01-01 to a date.
pub fn days_from_civil(year: i64, month: i64, day: i64) -> (r: i128)
    requires
        1 <= month <= 12,
    ensures
        r == day_number(year as int, month as int, day as int),
{
    let y: i128 = if month <= 2 {
        year as i128 - 1
    } else {
        year as i128
    };
    let (era, yoe) = era_of(y);
    let adjusted: i128 = if month > 2 {
        month as i128 - 3
    } else {
        month as i128 + 9
    };
    let doy: i128 = (153 * adjusted + 2) / 5 + day as i128 - 1;
    let doe: i128 = yoe * 365 + yoe / 4 - yoe / 100 + doy;
    proof {
        leaps_by_era(y as int, era as int, yoe as int);
        march_months(year as int, month as int);
        month_starts(year as int);
        year_is_its_months(year as int);
    }
    era * 146097 + doe - 719468
}

/// A second in nanoseconds.
pub const SECOND: i128 = 1_000_000_000;

/// The k-th of some pieces as an integer, or what is wrong with it.
pub open spec fn part(pieces: Seq<Seq<char>>, k: int, name: Seq<char>) -> Result<int, Seq<char>> {
    if k >= pieces.len() {
        Err("missing "@ + name)
    } else {
        match integer(pieces[k]) {
            Some(v) => Ok(v),
            None => Err("invalid "@ + name),
        }
    }
}

/// The first three characters of a text, with zeros where there are fewer.
pub open spec fn three(f: Seq<char>) -> Seq<char> {
    if f.len() >= 3 {
        f.take(3)
    } else {
        f + crate::decimal::zeros((3 - f.len()) as nat)
    }
}

/// The thousandths of a second behind the point, if they can be read.
pub open spec fn thousandths(s: Seq<char>) -> Option<int> {
    match once(s, '.') {
        None => Some(0),
        Some((_, f)) => integer(three(f)),
    }
}

/// The whole seconds before the point; -1 where they cannot be read.
pub open spec fn whole_seconds(s: Seq<char>) -> int {
    match integer(split_at(s, '.')[0]) {
        Some(v) => v,
        None => -1,
    }
}

/// A date as its day number, or what is wrong with it.
pub open spec fn date_value(date: Seq<char>) -> Result<int, Seq<char>> {
    let p = split_at(date, '-');
    match part(p, 0, "year"@) {
        Err(e) => Err(e),
        Ok(y) => match part(p, 1, "month"@) {
            Err(e) => Err(e),
            Ok(m) => match part(p, 2, "day"@) {
                Err(e) => Err(e),
                Ok(d) => if p.len() > 3 || !(1 <= m <= 12) || !(1 <= d <= 31) {
                    Err("invalid calendar date"@)
                } else {
                    Ok(day_number(y, m, d))
                },
            },
        },
    }
}

/// A time of day in milliseconds, or what is wrong with it.
pub open spec fn clock_value(clock: Seq<char>) -> Result<int, Seq<char>> {
    let p = split_at(clock, ':');
    match part(p, 0, "hour"@) {
        Err(e) => Err(e),
        Ok(h) => match part(p, 1, "minute"@) {
            Err(e) => Err(e),
            Ok(m) => if p.len() < 3 {
                Err("missing seconds"@)
            } else {
                let s = whole_seconds(p[2]);
                if p.len() > 3 || !(0 <= h <= 23) || !(0 <= m <= 59) || !(0 <= s <= 60) {
                    Err("invalid clock time"@)
                } else {
                    match thousandths(p[2]) {
                        None => Err("invalid fractional seconds"@),
                        Some(f) => Ok(((h * 60 + m) * 60 + s) * 1000 + f),
                    }
                }
            },
        },
    }
}

/// A date and a time of day in nanoseconds, or what is wrong with them.
pub open spec fn local_value(text: Seq<char>) -> Result<int, Seq<char>> {
    match once(text, 'T') {
        None => Err("expected YYYY-MM-DDTHH:MM:SSZ"@),
        Some((date, clock)) => match date_value(date) {
            Err(e) => Err(e),
            Ok(days) => match clock_value(clock) {
                Err(e) => Err(e),
                Ok(ms) => Ok((days * 86_400_000 + ms) * 1_000_000),
            },
        },
    }
}

/// A universal time in nanoseconds since 1970, or what is wrong with it. It
/// has to end in the letter for universal time.
pub open spec fn utc_value(text: Seq<char>) -> Result<int, Seq<char>> {
    if text.len() > 0 && text.last() == 'Z' {
        local_value(text.drop_last())
    } else {
        Err("expected YYYY-MM-DDTHH:MM:SSZ"@)
    }
}

/// Reads one of some pieces.
fn parse_part(pieces: &Vec<String>, k: usize, name: &str) -> (r: Result<i64, String>)
    ensures
        match r {
            Ok(v) => part(views(pieces@), k as int, name@) == Ok::<int, Seq<char>>(v as int),
            Err(m) => part(views(pieces@), k as int, name@) == Err::<int, Seq<char>>(m@),
        },
{
    if k >= pieces.len() {
        return Err(concat2("missing ", name));
    }
    assert(views(pieces@)[k as int] == pieces@[k as int]@);
    match parse_i64(pieces[k].as_str()) {
        Some(v) => Ok(v),
        None => Err(concat2("invalid ", name)),
    }
}

/// Reads a date.
fn parse_date(date: &str) -> (r: Result<i128, String>)
    ensures
        match r {
            Ok(v) => date_value(date@) == Ok::<int, Seq<char>>(v as int)
                && -3_400_000_000_000_000_000_000 <= v <= 3_400_000_000_000_000_000_000,
            Err(m) => date_value(date@) == Err::<int, Seq<char>>(m@),
        },
{
    let p = split(date, '-');
    let y: i64 = match parse_part(&p, 0, "year") {
        Ok(v) => v,
        Err(m) => {
            return Err(m);
        },
    };
    let m: i64 = match parse_part(&p, 1, "month") {
        Ok(v) => v,
        Err(m) => {
            return Err(m);
        },
    };
    let d: i64 = match parse_part(&p, 2, "day") {
        Ok(v) => v,
        Err(m) => {
            return Err(m);
        },
    };
    assert(views(p@).len() == p@.len());
    if p.len() > 3 || m < 1 || m > 12 || d < 1 || d > 31 {
        return Err("invalid calendar date".to_owned());
    }
    proof {
        year_bounds(y as int);
        months_rise_to_end(y as int, m as int);
        year_is_its_months(y as int);
    }
    Ok(days_from_civil(y, m, d))
}

/// Reads the thousandths of a second.
fn parse_thousandths(s: &str) -> (r: Option<i64>)
    ensures
        match r {
            Some(v) => thousandths(s@) == Some(v as int),
            None => thousandths(s@) is None,
        },
{
    match split_once(s, '.') {
        None => Some(0),
        Some((_, f)) => {
            let v = chars_of(f.as_str());
            let mut digits = String::new();
            let mut i: usize = 0;
            while i < 3
                invariant
                    i <= 3,
                    v@ == f@,
                    digits@ == three(f@).take(i as int),
                decreases 3 - i,
            {
                let c: char = if i < v.len() {
                    v[i]
                } else {
                    '0'
                };
                assert(three(f@).take(i + 1) =~= three(f@).take(i as int).push(c));
                digits.push(c);
                i += 1;
            }
            assert(three(f@).take(3) =~= three(f@));
            parse_i64(digits.as_str())
        },
    }
}

/// Reads a time of day.
fn parse_clock(clock: &str) -> (r: Result<i128, String>)
    ensures
        match r {
            Ok(v) => clock_value(clock@) == Ok::<int, Seq<char>>(v as int)
                && -0x1_0000_0000_0000_0000 <= v <= 0x1_0000_0000_0000_0000,
            Err(m) => clock_value(clock@) == Err::<int, Seq<char>>(m@),
        },
{
    let p = split(clock, ':');
    let h: i64 = match parse_part(&p, 0, "hour") {
        Ok(v) => v,
        Err(m) => {
            return Err(m);
        },
    };
    let m: i64 = match parse_part(&p, 1, "minute") {
        Ok(v) => v,
        Err(m) => {
            return Err(m);
        },
    };
    assert(views(p@).len() == p@.len());
    if p.len() < 3 {
        return Err("missing seconds".to_owned());
    }
    assert(views(p@)[2] == p@[2]@);
    let pieces = split(p[2].as_str(), '.');
    assert(views(pieces@)[0] == pieces@[0]@);
    let s: i64 = match parse_i64(pieces[0].as_str()) {
        Some(v) => v,
        None => -1,
    };
    if p.len() > 3 || h < 0 || h > 23 || m < 0 || m > 59 || s < 0 || s > 60 {
        return Err("invalid clock time".to_owned());
    }
    match parse_thousandths(p[2].as_str()) {
        None => Err("invalid fractional seconds".to_owned()),
        Some(f) => Ok(((h as i128 * 60 + m as i128) * 60 + s as i128) * 1000 + f as i128),
    }
}

/// A time that a text can stand for.
pub open spec fn readable(t: int) -> bool {
    -300_000_000_000_000_000_000_000_000_000_000_000 <= t
        <= 300_000_000_000_000_000_000_000_000_000_000_000
}

/// Reads a date and a time of day.
fn parse_local(text: &str) -> (r: Result<i128, String>)
    ensures
        match r {
            Ok(v) => local_value(text@) == Ok::<int, Seq<char>>(v as int) && readable(v as int),
            Err(m) => local_value(text@) == Err::<int, Seq<char>>(m@),
        },
{
    match split_once(text, 'T') {
        None => Err("expected YYYY-MM-DDTHH:MM:SSZ".to_owned()),
        Some((date, clock)) => match parse_date(date.as_str()) {
            Err(m) => Err(m),
            Ok(days) => match parse_clock(clock.as_str()) {
                Err(m) => Err(m),
                Ok(ms) => Ok((days * 86_400_000 + ms) * 1_000_000),
            },
        },
    }
}

/// Reads a universal time in nanoseconds since 1970.
pub fn parse_rfc3339_utc(input: &str) -> (r: Result<i128, String>)
    ensures
        match r {
            Ok(v) => utc_value(input@) == Ok::<int, Seq<char>>(v as int) && readable(v as int),
            Err(m) => utc_value(input@) == Err::<int, Seq<char>>(m@),
        },
{
    let v = chars_of(input);
    let n: usize = v.len();
    if n > 0 && v[n - 1] == 'Z' {
        let text = string_of(&v, 0, n - 1);
        assert(text@ =~= input@.drop_last());
        parse_local(text.as_str())
    } else {
        Err("expected YYYY-MM-DDTHH:MM:SSZ".to_owned())
    }
}

/// The minutes of an offset such as `+02:00`, if a text ends in one: two
/// digits below 24, a colon and two digits below 60.
pub open spec fn offset_value(text: Seq<char>) -> Option<int> {
    let n = text.len();
    if n < 6 {
        None
    } else {
        let t = text.skip(n - 6);
        let hours = digits_at(t, 1);
        let minutes = digits_at(t, 4);
        if (t[0] == '+' || t[0] == '-') && t[3] == ':' && is_digit(t[1]) && is_digit(t[2])
            && is_digit(t[4]) && is_digit(t[5]) && hours <= 23 && minutes <= 59 {
            if t[0] == '-' {
                Some(-(hours * 60 + minutes))
            } else {
                Some(hours * 60 + minutes)
            }
        } else {
            None
        }
    }
}

/// The number that two digits at a position stand for.
pub open spec fn digits_at(t: Seq<char>, k: int) -> int {
    (t[k] as int - 48) * 10 + (t[k + 1] as int - 48)
}

/// A time with an explicit offset, in nanoseconds since 1970, or what is wrong
/// with it.
pub open spec fn epoch_value(text: Seq<char>) -> Result<int, Seq<char>> {
    if text.len() > 0 && text.last() == 'Z' {
        local_value(text.drop_last())
    } else {
        match offset_value(text) {
            None => Err("time must carry an explicit UTC offset"@),
            Some(minutes) => match local_value(text.take(text.len() - 6)) {
                Err(e) => Err(e),
                Ok(t) => Ok(t - minutes * 60 * SECOND),
            },
        }
    }
}

/// The value of a digit.
fn digit_value(c: char) -> (r: Option<i128>)
    ensures
        match r {
            Some(d) => is_digit(c) && d == c as int - 48,
            None => !is_digit(c),
        },
{
    if '0' <= c && c <= '9' {
        Some((crate::text::code(c) - 48) as i128)
    } else {
        None
    }
}

/// The minutes of the offset that a text ends in.
fn parse_offset(v: &Vec<char>) -> (r: Option<i128>)
    ensures
        match r {
            Some(m) => offset_value(v@) == Some(m as int) && -1440 <= m <= 1440 && v@.len() >= 6,
            None => offset_value(v@) is None,
        },
{
    let n: usize = v.len();
    if n < 6 {
        return None;
    }
    let ghost t = v@.skip(n - 6);
    assert(forall|k: int| 0 <= k < 6 ==> t[k] == v@[n - 6 + k]);
    let sign: char = v[n - 6];
    if !(sign == '+' || sign == '-') || v[n - 3] != ':' {
        return None;
    }
    match (digit_value(v[n - 5]), digit_value(v[n - 4]), digit_value(v[n - 2]), digit_value(
        v[n - 1],
    )) {
        (Some(a), Some(b), Some(c), Some(d)) => {
            let hours: i128 = a * 10 + b;
            let minutes: i128 = c * 10 + d;
            if hours > 23 || minutes > 59 {
                None
            } else if sign == '-' {
                Some(-(hours * 60 + minutes))
            } else {
                Some(hours * 60 + minutes)
            }
        },
        _ => None,
    }
}

/// Reads a time with an explicit offset, in nanoseconds since 1970.
pub fn parse_epoch(text: &str) -> (r: Result<i128, String>)
    ensures
        match r {
            Ok(v) => epoch_value(text@) == Ok::<int, Seq<char>>(v as int)
                && crate::network::timely(v as int),
            Err(m) => epoch_value(text@) == Err::<int, Seq<char>>(m@),
        },
{
    let v = chars_of(text);
    let n: usize = v.len();
    if n > 0 && v[n - 1] == 'Z' {
        let body = string_of(&v, 0, n - 1);
        assert(body@ =~= text@.drop_last());
        return parse_local(body.as_str());
    }
    match parse_offset(&v) {
        None => Err("time must carry an explicit UTC offset".to_owned()),
        Some(minutes) => {
            let body = string_of(&v, 0, n - 6);
            assert(body@ =~= text@.take(n - 6));
            match parse_local(body.as_str()) {
                Err(m) => Err(m),
                Ok(t) => Ok(t - minutes * 60 * SECOND),
            }
        },
    }
}

/// The nearest millisecond; a tie goes away from zero.
pub open spec fn millis(t: int) -> int {
    if t >= 0 {
        (t + 500_000) / 1_000_000
    } else {
        -((500_000 - t) / 1_000_000)
    }
}

/// A year in four digits at least, the sign counted.
pub open spec fn year_text(y: int) -> Seq<char> {
    if y < 0 {
        "-"@ + padded((-y) as nat, 3)
    } else {
        padded(y as nat, 4)
    }
}

/// A date as text.
pub open spec fn date_text(y: int, m: int, d: int) -> Seq<char> {
    year_text(y) + "-"@ + padded(m as nat, 2) + "-"@ + padded(d as nat, 2)
}

/// A time of day, given in milliseconds, as text.
pub open spec fn clock_text(ms: int) -> Seq<char> {
    padded((ms / 3_600_000) as nat, 2) + ":"@ + padded((ms / 60_000 % 60) as nat, 2) + ":"@
        + padded((ms / 1000 % 60) as nat, 2) + "."@ + padded((ms % 1000) as nat, 3)
}

/// Whether a text is the universal time of some milliseconds since 1970.
pub open spec fn written(ms: int, text: Seq<char>) -> bool {
    exists|y: int, m: int, d: int| #[trigger]
        is_date(y, m, d) && day_number(y, m, d) == ms / 86_400_000 && text == date_text(y, m, d)
            + "T"@ + clock_text(ms % 86_400_000) + "Z"@
}

/// The times that can be written with a year of 64 bits.
pub open spec fn writable(t: int) -> bool {
    -500_000_000_000_000_000_000_000_000_000_000_000 <= t
        <= 500_000_000_000_000_000_000_000_000_000_000_000
}

/// The leap years up to a year, by the period of four hundred years that it is
/// in.
proof fn leaps_by_era(a: int, era: int, yoe: int)
    requires
        a == 400 * era + yoe,
        0 <= yoe < 400,
    ensures
        leaps(a) == era * 97 + yoe / 4 - yoe / 100,
        a / 400 == era,
{
    assert(a / 400 == era);
    assert(a / 100 == 4 * era + yoe / 100);
    assert(a / 4 == 100 * era + yoe / 4);
}

/// The period of four hundred years that a year is in.
fn era_of(k: i128) -> (r: (i128, i128))
    requires
        -30_000_000_000_000_000_000 <= k <= 30_000_000_000_000_000_000,
    ensures
        k == 400 * r.0 + r.1,
        0 <= r.1 < 400,
{
    let era: i128 = if k >= 0 {
        k / 400
    } else {
        -((399 - k) / 400)
    };
    (era, k - era * 400)
}

/// The days from 1970-01-01 to the first day of a year.
fn start_of_year(y: i128) -> (r: i128)
    requires
        -20_000_000_000_000_000_000 <= y <= 20_000_000_000_000_000_000,
    ensures
        r == year_start(y as int),
{
    let (era, yoe) = era_of(y - 1);
    proof {
        leaps_by_era(y - 1, era as int, yoe as int);
    }
    365 * (y - 1970) + era * 97 + yoe / 4 - yoe / 100 - 477
}

/// The year that a day is in.
fn year_of(days: i128) -> (y: i128)
    requires
        -6_000_000_000_000_000_000_000 <= days <= 6_000_000_000_000_000_000_000,
    ensures
        year_start(y as int) <= days < year_start(y + 1),
        -18_000_000_000_000_000_000 <= y <= 18_000_000_000_000_000_000,
{
    let mut y: i128 = 1970 + days * 400 / 146_097;
    while start_of_year(y) > days
        invariant
            -6_000_000_000_000_000_000_000 <= days <= 6_000_000_000_000_000_000_000,
            -17_000_000_000_000_000_000 <= y <= 17_500_000_000_000_000_000,
        decreases year_start(y as int) - days + 366,
    {
        proof {
            year_is_its_months(y - 1);
            year_bounds(y as int);
        }
        y -= 1;
    }
    while start_of_year(y + 1) <= days
        invariant
            -6_000_000_000_000_000_000_000 <= days <= 6_000_000_000_000_000_000_000,
            -17_000_000_000_000_000_000 <= y <= 17_500_000_000_000_000_000,
            year_start(y as int) <= days,
        decreases days - year_start(y as int) + 366,
    {
        proof {
            year_is_its_months(y as int);
            year_bounds(y + 1);
        }
        y += 1;
    }
    y
}

/// The month that a day of a year is in, and the day of the month.
fn month_of(y: i128, day: i128) -> (r: (i128, i128))
    requires
        -18_000_000_000_000_000_000 <= y <= 18_000_000_000_000_000_000,
        0 <= day < month_start(y as int, 13),
    ensures
        is_date(y as int, r.0 as int, r.1 as int),
        month_start(y as int, r.0 as int) + r.1 - 1 == day,
        r.1 <= 31,
{
    proof {
        month_starts(y as int);
    }
    let k: i128 = y % 400;
    let century = y % 100 == 0;
    let leap_year = y % 4 == 0 && (!century || k == 0);
    assert(leap_year == leap(y as int)) by {
        let a = y as int;
        assert((y % 4 == 0) == (a % 4 == 0));
        assert((y % 100 == 0) == (a % 100 == 0));
        assert((y % 400 == 0) == (a % 400 == 0));
    }
    let mut m: i128 = 1;
    let mut rest: i128 = day;
    loop
        invariant
            1 <= m <= 12,
            0 <= rest,
            month_start(y as int, m as int) + rest == day,
            day < month_start(y as int, 13),
            leap_year == leap(y as int),
        decreases 13 - m,
    {
        let long: i128 = if m == 2 {
            if leap_year {
                29
            } else {
                28
            }
        } else if m == 4 || m == 6 || m == 9 || m == 11 {
            30
        } else {
            31
        };
        assert(long == month_days(y as int, m as int));
        if rest < long {
            return (m, rest + 1);
        }
        proof {
            assert(month_start(y as int, m + 1) == month_start(y as int, m as int) + long);
        }
        rest -= long;
        m += 1;
    }
}

/// Writes a year.
fn write_year(y: i128) -> (r: String)
    requires
        -18_000_000_000_000_000_000 <= y <= 18_000_000_000_000_000_000,
    ensures
        r@ == year_text(y as int),
{
    if y < 0 {
        concat2("-", padded_text((-y) as u64, 3).as_str())
    } else {
        padded_text(y as u64, 4)
    }
}

/// Writes a time of day.
fn write_clock(ms: i128) -> (r: String)
    requires
        0 <= ms < 86_400_000,
    ensures
        r@ == clock_text(ms as int),
{
    let n: u64 = ms as u64;
    let hour = padded_text(n / 3_600_000, 2);
    let minute = padded_text(n / 60_000 % 60, 2);
    let second = padded_text(n / 1000 % 60, 2);
    let rest = padded_text(n % 1000, 3);
    let a = concat3(hour.as_str(), ":", minute.as_str());
    let b = concat3(a.as_str(), ":", second.as_str());
    concat3(b.as_str(), ".", rest.as_str())
}

/// The nearest millisecond; a tie goes away from zero.
fn to_millis(t: i128) -> (r: i128)
    requires
        writable(t as int),
    ensures
        r == millis(t as int),
{
    if t >= 0 {
        (t + 500_000) / 1_000_000
    } else {
        -((500_000 - t) / 1_000_000)
    }
}

/// Writes a time in nanoseconds since 1970, to the millisecond.
pub fn format_epoch(t: i128) -> (r: String)
    requires
        writable(t as int),
    ensures
        written(millis(t as int), r@),
{
    let ms: i128 = to_millis(t);
    let days: i128 = if ms >= 0 {
        ms / 86_400_000
    } else {
        -((86_399_999 - ms) / 86_400_000)
    };
    proof {
        assert(days == (ms as int) / 86_400_000) by {
            if ms < 0 {
                let n = (86_399_999 - ms) as int;
                assert(n / 86_400_000 * 86_400_000 <= n < n / 86_400_000 * 86_400_000 + 86_400_000);
            }
        }
    }
    let rest: i128 = ms - days * 86_400_000;
    assert(rest == (ms as int) % 86_400_000);
    let y: i128 = year_of(days);
    proof {
        year_is_its_months(y as int);
    }
    let (m, d) = month_of(y, days - start_of_year(y));
    let year = write_year(y);
    let month = padded_text(m as u64, 2);
    let day = padded_text(d as u64, 2);
    let a = concat3(year.as_str(), "-", month.as_str());
    let date = concat3(a.as_str(), "-", day.as_str());
    let both = concat3(date.as_str(), "T", write_clock(rest).as_str());
    let r = concat2(both.as_str(), "Z");
    assert(is_date(y as int, m as int, d as int));
    assert(r@ == date_text(y as int, m as int, d as int) + "T"@ + clock_text(rest as int) + "Z"@);
    r
}

/// A time is written in one way only.
pub proof fn written_once(ms: int, a: Seq<char>, b: Seq<char>)
    requires
        written(ms, a),
        written(ms, b),
    ensures
        a == b,
{
    let (y, m, d) = choose|y: int, m: int, d: int| #[trigger]
        is_date(y, m, d) && day_number(y, m, d) == ms / 86_400_000 && a == date_text(y, m, d)
            + "T"@ + clock_text(ms % 86_400_000) + "Z"@;
    let (y2, m2, d2) = choose|y: int, m: int, d: int| #[trigger]
        is_date(y, m, d) && day_number(y, m, d) == ms / 86_400_000 && b == date_text(y, m, d)
            + "T"@ + clock_text(ms % 86_400_000) + "Z"@;
    date_is_unique(y, m, d, y2, m2, d2);
}

/// Digits are no separators.
proof fn digits_are_free(n: nat, width: nat)
    requires
        n <= i64::MAX,
    ensures
        free_of(padded(n, width), '-'),
        free_of(padded(n, width), ':'),
        free_of(padded(n, width), '.'),
        free_of(padded(n, width), 'T'),
{
    padded_reads_back(n, width);
    assert forall|i: int| 0 <= i < padded(n, width).len() implies is_digit(
        #[trigger] padded(n, width)[i],
    ) by {}
}

/// A date that is written reads back.
proof fn date_reads_back(y: int, m: int, d: int)
    requires
        is_date(y, m, d),
        0 <= y <= i64::MAX,
    ensures
        date_value(date_text(y, m, d)) == Ok::<int, Seq<char>>(day_number(y, m, d)),
        free_of(date_text(y, m, d), 'T'),
{
    reveal_strlit("-");
    let a = padded(y as nat, 4);
    let b = padded(m as nat, 2);
    let c = padded(d as nat, 2);
    digits_are_free(y as nat, 4);
    digits_are_free(m as nat, 2);
    digits_are_free(d as nat, 2);
    padded_reads_back(y as nat, 4);
    padded_reads_back(m as nat, 2);
    padded_reads_back(d as nat, 2);
    let rest = b + seq!['-'] + c;
    let text = date_text(y, m, d);
    assert("-"@ =~= seq!['-']);
    assert(text =~= a + seq!['-'] + rest);
    once_at(a, '-', rest);
    once_at(b, '-', c);
    one_piece(c, '-');
    assert(split_at(text, '-') =~= seq![a, b, c]);
    assert forall|i: int| 0 <= i < text.len() implies text[i] != 'T' by {
        if i < a.len() {
            assert(text[i] == a[i]);
        } else if i > a.len() {
            let k = i - a.len() - 1;
            assert(text[i] == rest[k]);
            if k < b.len() {
                assert(rest[k] == b[k]);
            } else if k > b.len() {
                assert(rest[k] == c[k - b.len() - 1]);
            }
        }
    }
}

/// Hours, minutes, seconds and thousandths make up a time of day.
proof fn clock_parts(ms: int)
    requires
        0 <= ms < 86_400_000,
    ensures
        0 <= ms / 3_600_000 <= 23,
        0 <= ms / 60_000 % 60 <= 59,
        0 <= ms / 1000 % 60 <= 59,
        0 <= ms % 1000 <= 999,
        ((ms / 3_600_000 * 60 + ms / 60_000 % 60) * 60 + ms / 1000 % 60) * 1000 + ms % 1000 == ms,
{
}

/// The thousandths of a second are three digits.
proof fn three_digits(f: nat)
    requires
        f < 1000,
    ensures
        three(padded(f, 3)) == padded(f, 3),
{
    padded_reads_back(f, 3);
    assert(vstd::arithmetic::power::pow(10, 3) == 1000) by {
        reveal_with_fuel(vstd::arithmetic::power::pow, 4);
    }
    crate::decimal::decimal_width(f, 3);
    assert(padded(f, 3).take(3) =~= padded(f, 3));
}

/// A time of day in its pieces.
proof fn clock_pieces(a: Seq<char>, b: Seq<char>, c: Seq<char>, d: Seq<char>)
    requires
        free_of(a, ':'),
        free_of(b, ':'),
        free_of(c, ':'),
        free_of(d, ':'),
        free_of(c, '.'),
    ensures
        split_at(a + ":"@ + b + ":"@ + c + "."@ + d, ':') == seq![a, b, c + seq!['.'] + d],
        split_at(c + seq!['.'] + d, '.')[0] == c,
        once(c + seq!['.'] + d, '.') == Some((c, d)),
{
    reveal_strlit(":");
    reveal_strlit(".");
    assert(":"@ =~= seq![':']);
    assert("."@ =~= seq!['.']);
    let tail = c + seq!['.'] + d;
    let rest = b + seq![':'] + tail;
    assert(a + ":"@ + b + ":"@ + c + "."@ + d =~= a + seq![':'] + rest);
    once_at(a, ':', rest);
    once_at(b, ':', tail);
    assert forall|i: int| 0 <= i < tail.len() implies tail[i] != ':' by {
        if i < c.len() {
            assert(tail[i] == c[i]);
        } else if i > c.len() {
            assert(tail[i] == d[i - c.len() - 1]);
        }
    }
    one_piece(tail, ':');
    assert(seq![a] + (seq![b] + seq![tail]) =~= seq![a, b, tail]);
    once_at(c, '.', d);
}

/// A time of day that is written reads back.
proof fn clock_reads_back(ms: int)
    requires
        0 <= ms < 86_400_000,
    ensures
        clock_value(clock_text(ms)) == Ok::<int, Seq<char>>(ms),
{
    let h = (ms / 3_600_000) as nat;
    let m = (ms / 60_000 % 60) as nat;
    let s = (ms / 1000 % 60) as nat;
    let f = (ms % 1000) as nat;
    clock_parts(ms);
    digits_are_free(h, 2);
    digits_are_free(m, 2);
    digits_are_free(s, 2);
    digits_are_free(f, 3);
    padded_reads_back(h, 2);
    padded_reads_back(m, 2);
    padded_reads_back(s, 2);
    padded_reads_back(f, 3);
    clock_pieces(padded(h, 2), padded(m, 2), padded(s, 2), padded(f, 3));
    three_digits(f);
}

/// A day between two years is in a year between them.
proof fn year_between(y: int, m: int, d: int, low: int, high: int)
    requires
        is_date(y, m, d),
        year_start(low) <= day_number(y, m, d) < year_start(high),
    ensures
        low <= y < high,
{
    year_is_its_months(y);
    months_rise_to_end(y, m);
    if y < low {
        if y + 1 < low {
            years_rise(y + 1, low);
        }
    }
    if y > high {
        years_rise(high, y);
    }
}

/// A date and a time of day read back.
pub proof fn text_reads_back(date: Seq<char>, clock: Seq<char>, days: int, ms: int)
    requires
        date_value(date) == Ok::<int, Seq<char>>(days),
        clock_value(clock) == Ok::<int, Seq<char>>(ms),
        free_of(date, 'T'),
    ensures
        local_value(date + seq!['T'] + clock) == Ok::<int, Seq<char>>(
            (days * 86_400_000 + ms) * 1_000_000,
        ),
{
    once_at(date, 'T', clock);
}

/// A time that is written to the millisecond, in a year that is not negative
/// and fits 64 bits, reads back as that millisecond.
pub proof fn written_reads_back(ms: int, text: Seq<char>)
    requires
        written(ms, text),
        year_start(0) <= ms / 86_400_000 < year_start(0x8000_0000_0000_0000),
    ensures
        epoch_value(text) == Ok::<int, Seq<char>>(ms * 1_000_000),
        utc_value(text) == Ok::<int, Seq<char>>(ms * 1_000_000),
{
    let rest = ms % 86_400_000;
    let (y, m, d) = choose|y: int, m: int, d: int| #[trigger]
        is_date(y, m, d) && day_number(y, m, d) == ms / 86_400_000 && text == date_text(y, m, d)
            + "T"@ + clock_text(ms % 86_400_000) + "Z"@;
    year_between(y, m, d, 0, 0x8000_0000_0000_0000);
    let date = date_text(y, m, d);
    let clock = clock_text(rest);
    date_reads_back(y, m, d);
    clock_reads_back(rest);
    text_reads_back(date, clock, ms / 86_400_000, rest);
    reveal_strlit("T");
    reveal_strlit("Z");
    assert("T"@ =~= seq!['T']);
    assert("Z"@ =~= seq!['Z']);
    assert(text.last() == 'Z');
    assert(text.drop_last() =~= date + seq!['T'] + clock);
    assert(ms / 86_400_000 * 86_400_000 + rest == ms);
}

} // verus!
