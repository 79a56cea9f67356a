//! Calendar dates and instants: validity, ordering, successor/predecessor
//! arithmetic, and the fixed `YYYY-MM-DD` text form used by the day codec.
use vstd::prelude::*;

use crate::chars::{
    digit_char_spec, digit_to_char, digit_val, is_digit_char, parse_u32_spec, trim_spec,
};

verus! {

/// A calendar day in the proleptic Gregorian calendar, year 0 through 9999.
#[derive(Clone, Copy, PartialEq, Eq, Structural, Debug)]
pub struct Date {
    pub year: u32,
    pub month: u32,
    pub day: u32,
}

/// An instant in time: a calendar day plus a second count within that day.
#[derive(Clone, Copy, PartialEq, Eq, Structural, Debug)]
pub struct Instant {
    pub day: Date,
    pub secs: u32,
}

pub open spec fn leap_year(y: int) -> bool {
    y % 4 == 0 && (y % 100 != 0 || y % 400 == 0)
}

pub open spec fn days_in_month(y: int, m: int) -> int {
    if m == 2 {
        if leap_year(y) {
            29
        } else {
            28
        }
    } else if m == 4 || m == 6 || m == 9 || m == 11 {
        30
    } else {
        31
    }
}

pub open spec fn valid_date(d: Date) -> bool {
    d.year <= 9999 && 1 <= d.month <= 12 && 1 <= d.day <= days_in_month(
        d.year as int,
        d.month as int,
    )
}

pub fn days_in_month_of(y: u32, m: u32) -> (r: u32)
    ensures
        r == days_in_month(y as int, m as int),
{
    if m == 2 {
        if y % 4 == 0 && (y % 100 != 0 || y % 400 == 0) {
            29
        } else {
            28
        }
    } else if m == 4 || m == 6 || m == 9 || m == 11 {
        30
    } else {
        31
    }
}

pub fn check_valid_date(d: &Date) -> (r: bool)
    ensures
        r == valid_date(*d),
{
    d.year <= 9999 && 1 <= d.month && d.month <= 12 && 1 <= d.day && d.day <= days_in_month_of(
        d.year,
        d.month,
    )
}

// ---------------------------------------------------------------------------
// Ordering
// ---------------------------------------------------------------------------

pub open spec fn date_lt_spec(a: Date, b: Date) -> bool {
    a.year < b.year || (a.year == b.year && (a.month < b.month || (a.month == b.month && a.day
        < b.day)))
}

pub open spec fn date_le_spec(a: Date, b: Date) -> bool {
    date_lt_spec(a, b) || a == b
}

pub fn date_lt(a: &Date, b: &Date) -> (r: bool)
    ensures
        r == date_lt_spec(*a, *b),
{
    a.year < b.year || (a.year == b.year && (a.month < b.month || (a.month == b.month && a.day
        < b.day)))
}

pub fn date_le(a: &Date, b: &Date) -> (r: bool)
    ensures
        r == date_le_spec(*a, *b),
{
    date_lt(a, b) || (a.year == b.year && a.month == b.month && a.day == b.day)
}

/// Instants order by day, then by second within the day.
pub open spec fn instant_lt_spec(a: Instant, b: Instant) -> bool {
    date_lt_spec(a.day, b.day) || (a.day == b.day && a.secs < b.secs)
}

pub fn instant_lt(a: &Instant, b: &Instant) -> (r: bool)
    ensures
        r == instant_lt_spec(*a, *b),
{
    date_lt(&a.day, &b.day) || (a.day.year == b.day.year && a.day.month == b.day.month
        && a.day.day == b.day.day && a.secs < b.secs)
}

/// A measure that respects the calendar order of valid dates.
pub open spec fn date_idx(d: Date) -> int {
    (d.year * 12 + d.month) * 32 + d.day
}

pub proof fn lemma_idx_order(a: Date, b: Date)
    requires
        valid_date(a),
        valid_date(b),
    ensures
        date_lt_spec(a, b) <==> date_idx(a) < date_idx(b),
        a == b <==> date_idx(a) == date_idx(b),
{
}

// ---------------------------------------------------------------------------
// Successor and predecessor
// ---------------------------------------------------------------------------

pub open spec fn is_max_date(d: Date) -> bool {
    d.year == 9999 && d.month == 12 && d.day == 31
}

pub open spec fn is_min_date(d: Date) -> bool {
    d.year == 0 && d.month == 1 && d.day == 1
}

pub open spec fn next_day_spec(d: Date) -> Date {
    if d.day < days_in_month(d.year as int, d.month as int) {
        Date { year: d.year, month: d.month, day: (d.day + 1) as u32 }
    } else if d.month < 12 {
        Date { year: d.year, month: (d.month + 1) as u32, day: 1 }
    } else {
        Date { year: (d.year + 1) as u32, month: 1, day: 1 }
    }
}

pub proof fn lemma_next_day(d: Date)
    requires
        valid_date(d),
        !is_max_date(d),
    ensures
        valid_date(next_day_spec(d)),
        date_lt_spec(d, next_day_spec(d)),
        date_idx(d) < date_idx(next_day_spec(d)),
{
}

/// The successor is the least valid date above `a`: nothing valid fits between.
pub proof fn lemma_next_day_least(a: Date, b: Date)
    requires
        valid_date(a),
        valid_date(b),
        date_lt_spec(a, b),
        !is_max_date(a),
    ensures
        date_le_spec(next_day_spec(a), b),
{
}

pub fn next_day(d: &Date) -> (r: Date)
    requires
        valid_date(*d),
        !is_max_date(*d),
    ensures
        r == next_day_spec(*d),
        valid_date(r),
{
    proof {
        lemma_next_day(*d);
    }
    if d.day < days_in_month_of(d.year, d.month) {
        Date { year: d.year, month: d.month, day: d.day + 1 }
    } else if d.month < 12 {
        Date { year: d.year, month: d.month + 1, day: 1 }
    } else {
        Date { year: d.year + 1, month: 1, day: 1 }
    }
}

pub open spec fn prev_day_spec(d: Date) -> Date {
    if d.day > 1 {
        Date { year: d.year, month: d.month, day: (d.day - 1) as u32 }
    } else if d.month > 1 {
        Date {
            year: d.year,
            month: (d.month - 1) as u32,
            day: days_in_month(d.year as int, (d.month - 1) as int) as u32,
        }
    } else {
        Date { year: (d.year - 1) as u32, month: 12, day: 31 }
    }
}

pub fn prev_day(d: &Date) -> (r: Date)
    requires
        valid_date(*d),
        !is_min_date(*d),
    ensures
        r == prev_day_spec(*d),
        valid_date(r),
{
    if d.day > 1 {
        Date { year: d.year, month: d.month, day: d.day - 1 }
    } else if d.month > 1 {
        Date { year: d.year, month: d.month - 1, day: days_in_month_of(d.year, d.month - 1) }
    } else {
        Date { year: d.year - 1, month: 12, day: 31 }
    }
}

// ---------------------------------------------------------------------------
// Day ranges and day offsets
// ---------------------------------------------------------------------------

/// Every calendar day from `start` through `end`, inclusive, in order.
pub open spec fn date_range_spec(start: Date, end: Date) -> Seq<Date>
    decreases date_idx(end) - date_idx(start),
        when valid_date(start) && valid_date(end) && date_le_spec(start, end) via
    date_range_decreases
{
    if start == end {
        seq![start]
    } else {
        seq![start] + date_range_spec(next_day_spec(start), end)
    }
}

#[via_fn]
proof fn date_range_decreases(start: Date, end: Date) {
    if start != end {
        lemma_not_max(start, end);
        lemma_next_day(start);
        lemma_next_day_least(start, end);
        lemma_idx_order(next_day_spec(start), end);
    }
}

/// A date strictly below another valid date cannot be the calendar maximum.
pub proof fn lemma_not_max(a: Date, b: Date)
    requires
        valid_date(b),
        date_lt_spec(a, b),
    ensures
        !is_max_date(a),
{
}

/// The range walk is gap-free: one entry per calendar day, beginning at
/// `start`, ending at `end`, each day the successor of the one before it,
/// in strictly ascending order with no duplicates.
pub proof fn lemma_date_range_props(start: Date, end: Date)
    requires
        valid_date(start),
        valid_date(end),
        date_le_spec(start, end),
    ensures
        ({
            let r = date_range_spec(start, end);
            &&& r.len() >= 1
            &&& r[0] == start
            &&& r.last() == end
            &&& forall|k: int| 0 <= k < r.len() ==> valid_date(#[trigger] r[k])
            &&& forall|k: int|
                0 <= k < r.len() ==> date_le_spec(start, #[trigger] r[k]) && date_le_spec(
                    r[k],
                    end,
                )
            &&& forall|k: int|
                0 <= k < r.len() - 1 ==> !is_max_date(#[trigger] r[k]) && r[k + 1]
                    == next_day_spec(r[k])
            &&& forall|i: int, j: int|
                0 <= i < j < r.len() ==> date_lt_spec(#[trigger] r[i], #[trigger] r[j])
        }),
    decreases date_idx(end) - date_idx(start),
{
    let r = date_range_spec(start, end);
    if start == end {
        assert(r == seq![start]);
    } else {
        lemma_not_max(start, end);
        lemma_next_day(start);
        lemma_next_day_least(start, end);
        lemma_idx_order(next_day_spec(start), end);
        lemma_date_range_props(next_day_spec(start), end);
        let t = date_range_spec(next_day_spec(start), end);
        assert(r == seq![start] + t);
        assert(forall|k: int| 0 <= k < t.len() ==> r[k + 1] == t[k]);
        assert(r[0] == start);
        assert(r.last() == t.last());
        assert forall|i: int, j: int| 0 <= i < j < r.len() implies date_lt_spec(
            #[trigger] r[i],
            #[trigger] r[j],
        ) by {
            if i == 0 {
                assert(r[j] == t[j - 1]);
                assert(date_le_spec(next_day_spec(start), t[j - 1]));
            } else {
                assert(r[i] == t[i - 1]);
                assert(r[j] == t[j - 1]);
            }
        }
        assert forall|k: int| 0 <= k < r.len() - 1 implies !is_max_date(#[trigger] r[k]) && r[k
            + 1] == next_day_spec(r[k]) by {
            if k == 0 {
                assert(r[1] == t[0]);
            } else {
                assert(r[k] == t[k - 1]);
                assert(r[k + 1] == t[k]);
            }
        }
    }
}

/// Walk the calendar from `start` to `end`, inclusive.
pub fn date_range(start: &Date, end: &Date) -> (r: Vec<Date>)
    requires
        valid_date(*start),
        valid_date(*end),
        date_le_spec(*start, *end),
    ensures
        r@ == date_range_spec(*start, *end),
{
    let mut out: Vec<Date> = Vec::new();
    let mut cur: Date = *start;
    loop
        invariant_except_break
            valid_date(cur),
            valid_date(*end),
            date_le_spec(cur, *end),
            date_range_spec(*start, *end) == out@ + date_range_spec(cur, *end),
        ensures
            out@ == date_range_spec(*start, *end),
        decreases date_idx(*end) - date_idx(cur),
    {
        out.push(cur);
        if cur.year == end.year && cur.month == end.month && cur.day == end.day {
            proof {
                assert(cur == *end);
                assert(date_range_spec(cur, *end) == seq![cur]);
                assert(out@.drop_last() + seq![cur] =~= out@);
            }
            break ;
        }
        proof {
            assert(cur != *end);
            lemma_not_max(cur, *end);
            lemma_next_day(cur);
            lemma_next_day_least(cur, *end);
            lemma_idx_order(next_day_spec(cur), *end);
            assert(date_range_spec(cur, *end) == seq![cur] + date_range_spec(
                next_day_spec(cur),
                *end,
            ));
            assert(out@.drop_last() + (seq![cur] + date_range_spec(next_day_spec(cur), *end))
                =~= out@ + date_range_spec(next_day_spec(cur), *end));
        }
        cur = next_day(&cur);
    }
    out
}

/// `n` days after `d`, if the calendar does not run out.
pub open spec fn add_days_spec(d: Date, n: int) -> Option<Date>
    decreases n,
{
    if n <= 0 {
        Some(d)
    } else if is_max_date(d) {
        None
    } else {
        add_days_spec(next_day_spec(d), n - 1)
    }
}

/// `n` days before `d`, if the calendar does not run out.
pub open spec fn sub_days_spec(d: Date, n: int) -> Option<Date>
    decreases n,
{
    if n <= 0 {
        Some(d)
    } else if is_min_date(d) {
        None
    } else {
        sub_days_spec(prev_day_spec(d), n - 1)
    }
}

pub fn add_days(d: &Date, n: u32) -> (r: Option<Date>)
    requires
        valid_date(*d),
    ensures
        r == add_days_spec(*d, n as int),
        r is Some ==> valid_date(r->0),
{
    let mut cur: Date = *d;
    let mut rem: u32 = n;
    loop
        invariant
            valid_date(cur),
            add_days_spec(*d, n as int) == add_days_spec(cur, rem as int),
        ensures
            rem == 0,
            add_days_spec(*d, n as int) == Some(cur),
            valid_date(cur),
        decreases rem,
    {
        if rem == 0 {
            break ;
        }
        if cur.year == 9999 && cur.month == 12 && cur.day == 31 {
            assert(is_max_date(cur));
            return None;
        }
        proof {
            lemma_next_day(cur);
        }
        cur = next_day(&cur);
        rem = rem - 1;
    }
    Some(cur)
}

pub fn sub_days(d: &Date, n: u32) -> (r: Option<Date>)
    requires
        valid_date(*d),
    ensures
        r == sub_days_spec(*d, n as int),
        r is Some ==> valid_date(r->0),
{
    let mut cur: Date = *d;
    let mut rem: u32 = n;
    loop
        invariant
            valid_date(cur),
            sub_days_spec(*d, n as int) == sub_days_spec(cur, rem as int),
        ensures
            rem == 0,
            sub_days_spec(*d, n as int) == Some(cur),
            valid_date(cur),
        decreases rem,
    {
        if rem == 0 {
            break ;
        }
        if cur.year == 0 && cur.month == 1 && cur.day == 1 {
            assert(is_min_date(cur));
            return None;
        }
        cur = prev_day(&cur);
        rem = rem - 1;
    }
    Some(cur)
}

/// Where a signed day offset lands relative to a starting day: `None` offset
/// means the starting day itself; a positive offset walks forward, any other
/// offset walks backward by its magnitude.
pub open spec fn map_day_spec(start: Date, delta: Option<i32>) -> Option<Date> {
    match delta {
        None => Some(start),
        Some(x) => if x > 0 {
            add_days_spec(start, x as int)
        } else {
            sub_days_spec(start, -(x as int))
        },
    }
}

pub fn map_day(start: &Date, delta: Option<i32>) -> (r: Option<Date>)
    requires
        valid_date(*start),
    ensures
        r == map_day_spec(*start, delta),
        r is Some ==> valid_date(r->0),
{
    match delta {
        None => Some(*start),
        Some(x) => {
            if x > 0 {
                add_days(start, x as u32)
            } else {
                let mag_wide: i64 = -(x as i64);
                assert(0 <= mag_wide <= u32::MAX);
                sub_days(start, mag_wide as u32)
            }
        },
    }
}

// ---------------------------------------------------------------------------
// The fixed `YYYY-MM-DD` text form
// ---------------------------------------------------------------------------

/// The ten characters `YYYY-MM-DD` for a date.
pub open spec fn date_str_spec(d: Date) -> Seq<char> {
    seq![
        digit_char_spec(d.year as int / 1000),
        digit_char_spec((d.year as int / 100) % 10),
        digit_char_spec((d.year as int / 10) % 10),
        digit_char_spec(d.year as int % 10),
        '-',
        digit_char_spec(d.month as int / 10),
        digit_char_spec(d.month as int % 10),
        '-',
        digit_char_spec(d.day as int / 10),
        digit_char_spec(d.day as int % 10),
    ]
}

/// What a date header's text must look like: exactly `YYYY-MM-DD`, naming a
/// valid calendar day.
pub open spec fn parse_date_spec(s: Seq<char>) -> Option<Date> {
    if s.len() == 10 && is_digit_char(s[0]) && is_digit_char(s[1]) && is_digit_char(s[2])
        && is_digit_char(s[3]) && s[4] == '-' && is_digit_char(s[5]) && is_digit_char(s[6]) && s[7]
        == '-' && is_digit_char(s[8]) && is_digit_char(s[9]) {
        let y = digit_val(s[0]) * 1000 + digit_val(s[1]) * 100 + digit_val(s[2]) * 10 + digit_val(
            s[3],
        );
        let m = digit_val(s[5]) * 10 + digit_val(s[6]);
        let dd = digit_val(s[8]) * 10 + digit_val(s[9]);
        let date = Date { year: y as u32, month: m as u32, day: dd as u32 };
        if valid_date(date) {
            Some(date)
        } else {
            None
        }
    } else {
        None
    }
}

fn digit_value(c: char) -> (r: u32)
    requires
        is_digit_char(c),
    ensures
        r == digit_val(c),
        r <= 9,
{
    c as u32 - '0' as u32
}

fn is_digit(c: char) -> (r: bool)
    ensures
        r == is_digit_char(c),
{
    c >= '0' && c <= '9'
}

pub fn parse_date_chars(v: &Vec<char>) -> (r: Option<Date>)
    ensures
        r == parse_date_spec(v@),
        r is Some ==> valid_date(r->0),
{
    if v.len() != 10 {
        return None;
    }
    if !(is_digit(v[0]) && is_digit(v[1]) && is_digit(v[2]) && is_digit(v[3]) && v[4] == '-'
        && is_digit(v[5]) && is_digit(v[6]) && v[7] == '-' && is_digit(v[8]) && is_digit(v[9])) {
        return None;
    }
    let y: u32 = digit_value(v[0]) * 1000 + digit_value(v[1]) * 100 + digit_value(v[2]) * 10
        + digit_value(v[3]);
    let m: u32 = digit_value(v[5]) * 10 + digit_value(v[6]);
    let dd: u32 = digit_value(v[8]) * 10 + digit_value(v[9]);
    let date = Date { year: y, month: m, day: dd };
    if check_valid_date(&date) {
        Some(date)
    } else {
        None
    }
}

pub fn date_to_chars(d: &Date) -> (r: Vec<char>)
    requires
        valid_date(*d),
    ensures
        r@ == date_str_spec(*d),
{
    let mut r: Vec<char> = Vec::new();
    r.push(digit_to_char(d.year / 1000));
    r.push(digit_to_char((d.year / 100) % 10));
    r.push(digit_to_char((d.year / 10) % 10));
    r.push(digit_to_char(d.year % 10));
    r.push('-');
    r.push(digit_to_char(d.month / 10));
    r.push(digit_to_char(d.month % 10));
    r.push('-');
    r.push(digit_to_char(d.day / 10));
    r.push(digit_to_char(d.day % 10));
    assert(r@ =~= date_str_spec(*d));
    r
}

/// Serializing a valid date and parsing the text back yields the same date.
pub proof fn lemma_date_round_trip(d: Date)
    requires
        valid_date(d),
    ensures
        parse_date_spec(date_str_spec(d)) == Some(d),
{
    let s = date_str_spec(d);
    let y = d.year as int;
    let m = d.month as int;
    let dd = d.day as int;
    crate::chars::lemma_digit_char_val(y / 1000);
    crate::chars::lemma_digit_char_val((y / 100) % 10);
    crate::chars::lemma_digit_char_val((y / 10) % 10);
    crate::chars::lemma_digit_char_val(y % 10);
    crate::chars::lemma_digit_char_val(m / 10);
    crate::chars::lemma_digit_char_val(m % 10);
    crate::chars::lemma_digit_char_val(dd / 10);
    crate::chars::lemma_digit_char_val(dd % 10);
    assert(y == 1000 * (y / 1000) + 100 * ((y / 100) % 10) + 10 * ((y / 10) % 10) + y % 10) by {
        vstd::arithmetic::div_mod::lemma_small_mod(y as nat, 10000);
        vstd::arithmetic::div_mod::lemma_breakdown(y, 1000, 10);
        vstd::arithmetic::div_mod::lemma_breakdown(y, 100, 10);
        vstd::arithmetic::div_mod::lemma_breakdown(y, 10, 10);
        vstd::arithmetic::div_mod::lemma_small_mod((y / 1000) as nat, 10);
    }
    assert(m == 10 * (m / 10) + m % 10) by {
        vstd::arithmetic::div_mod::lemma_fundamental_div_mod(m, 10);
    }
    assert(dd == 10 * (dd / 10) + dd % 10) by {
        vstd::arithmetic::div_mod::lemma_fundamental_div_mod(dd, 10);
    }
}

} // verus!
