//! Calendar model: proleptic Gregorian dates in years 0 through 9999,
//! counted as whole days from the year 0 onward, with weekday and
//! week-of-year derivation, and parsing and formatting of the stored
//! `YYYY-MM-DD` date and `YYYY-MM-DDTHH:MM:SS.mmmZ` timestamp texts.

use vstd::prelude::*;
use vstd::string::*;

verus! {

/// A calendar date, no time component.
#[derive(Clone, Copy, Debug, PartialEq, Eq, Structural)]
pub struct Date {
    pub year: u32,
    pub month: u32,
    pub day: u32,
}

/// An instant in time: a calendar date plus milliseconds since that day's
/// midnight.
#[derive(Clone, Copy, Debug, PartialEq, Eq, Structural)]
pub struct Timestamp {
    pub date: Date,
    pub ms: u64,
}

pub const MS_PER_DAY: u64 = 86400000;

pub open spec fn is_leap_year(y: int) -> bool {
    y % 4 == 0 && (y % 100 != 0 || y % 400 == 0)
}

pub open spec fn days_in_month(y: int, m: int) -> int {
    if m == 2 {
        if is_leap_year(y) {
            29
        } else {
            28
        }
    } else if m == 4 || m == 6 || m == 9 || m == 11 {
        30
    } else {
        31
    }
}

pub open spec fn valid_date(d: Date) -> bool {
    d.year <= 9999 && 1 <= d.month <= 12 && 1 <= d.day <= days_in_month(
        d.year as int,
        d.month as int,
    )
}

pub open spec fn valid_timestamp(t: Timestamp) -> bool {
    valid_date(t.date) && t.ms < MS_PER_DAY
}

/// Days of the months strictly before month `m` of year `y`.
pub open spec fn days_before_month(y: int, m: int) -> int
    decreases m,
{
    if m <= 1 {
        0
    } else {
        days_before_month(y, m - 1) + days_in_month(y, m - 1)
    }
}

/// The number of leap years in `0..y`; the year 0 itself is a leap year.
pub open spec fn leap_years_before(y: int) -> int {
    if y <= 0 {
        0
    } else {
        (y - 1) / 4 - (y - 1) / 100 + (y - 1) / 400 + 1
    }
}

/// Whole days from the first day of year 0 to the given date.
pub open spec fn day_number(d: Date) -> int {
    365 * d.year + leap_years_before(d.year as int) + days_before_month(
        d.year as int,
        d.month as int,
    ) + d.day - 1
}

/// The weekday of a day number, with 0 standing for Sunday; day 0 of year 0
/// is a Saturday.
pub open spec fn weekday_of(day_num: int) -> int {
    (day_num + 6) % 7
}

/// Milliseconds from the first midnight of year 0 to the given instant.
pub open spec fn total_ms(t: Timestamp) -> int {
    day_number(t.date) * (MS_PER_DAY as int) + t.ms
}

fn is_leap_year_exec(y: u32) -> (r: bool)
    ensures
        r == is_leap_year(y as int),
{
    y % 4 == 0 && (y % 100 != 0 || y % 400 == 0)
}

fn days_in_month_exec(y: u32, m: u32) -> (r: u32)
    ensures
        r == days_in_month(y as int, m as int),
{
    if m == 2 {
        if is_leap_year_exec(y) {
            29
        } else {
            28
        }
    } else if m == 4 || m == 6 || m == 9 || m == 11 {
        30
    } else {
        31
    }
}

proof fn lemma_dbm_mono(y: int, m1: int, m2: int)
    requires
        1 <= m1 <= m2,
    ensures
        days_before_month(y, m1) <= days_before_month(y, m2),
    decreases m2 - m1,
{
    if m1 < m2 {
        lemma_dbm_mono(y, m1, m2 - 1);
    }
}

proof fn lemma_days_before_month_bound(y: int, m: int)
    requires
        1 <= m <= 13,
    ensures
        0 <= days_before_month(y, m) <= 366,
{
    assert(days_before_month(y, 13) <= 366) by {
        reveal_with_fuel(days_before_month, 14);
    }
    lemma_dbm_mono(y, 1, m);
    lemma_dbm_mono(y, m, 13);
}

pub proof fn lemma_day_number_bound(d: Date)
    requires
        valid_date(d),
    ensures
        0 <= day_number(d) < 3700000,
        day_number(Date { year: d.year, month: 1, day: 1 }) <= day_number(d),
        day_number(d) - day_number(Date { year: d.year, month: 1, day: 1 }) <= 365,
{
    lemma_days_before_month_bound(d.year as int, d.month as int);
    assert(days_before_month(d.year as int, 1) == 0);
    assert(days_before_month(d.year as int, d.month as int) + days_in_month(
        d.year as int,
        d.month as int,
    ) <= 366) by {
        assert(days_before_month(d.year as int, d.month as int + 1) == days_before_month(
            d.year as int,
            d.month as int,
        ) + days_in_month(d.year as int, d.month as int));
        lemma_days_before_month_bound(d.year as int, d.month as int + 1);
    }
}

/// Whole days from the first day of year 0 to this date.
pub fn day_number_exec(d: &Date) -> (r: u32)
    requires
        valid_date(*d),
    ensures
        r == day_number(*d),
{
    let leaps: u32 = if d.year == 0 {
        0
    } else {
        (d.year - 1) / 4 - (d.year - 1) / 100 + (d.year - 1) / 400 + 1
    };
    let mut before: u32 = 0;
    let mut m: u32 = 1;
    while m < d.month
        invariant
            1 <= m <= d.month,
            valid_date(*d),
            before == days_before_month(d.year as int, m as int),
            before <= 366,
        decreases d.month - m,
    {
        proof {
            lemma_days_before_month_bound(d.year as int, m as int + 1);
        }
        before = before + days_in_month_exec(d.year, m);
        m = m + 1;
    }
    365 * d.year + leaps + before + d.day - 1
}

/// The weekday of this date, 0 standing for Sunday.
pub fn weekday_exec(d: &Date) -> (r: u32)
    requires
        valid_date(*d),
    ensures
        r == weekday_of(day_number(*d)),
        r < 7,
{
    proof {
        lemma_day_number_bound(*d);
    }
    (day_number_exec(d) + 6) % 7
}

/// Milliseconds from the first midnight of year 0 to this instant.
pub fn total_ms_exec(t: &Timestamp) -> (r: u64)
    requires
        valid_timestamp(*t),
    ensures
        r == total_ms(*t),
{
    proof {
        lemma_day_number_bound(t.date);
    }
    (day_number_exec(&t.date) as u64) * MS_PER_DAY + t.ms
}

/// A valid instant's total milliseconds fit comfortably below the 64-bit
/// signed range.
pub proof fn lemma_total_ms_bound(t: Timestamp)
    requires
        valid_timestamp(t),
    ensures
        0 <= total_ms(t) < 320000000000000,
{
    lemma_day_number_bound(t.date);
}

/// The week number of the year under the convention that weeks begin on
/// Monday and any days before the year's first Monday fall in week 0.
pub open spec fn week_of_year(d: Date) -> int {
    let yday = day_number(d) - day_number(Date { year: d.year, month: 1, day: 1 });
    let mwday = (weekday_of(day_number(d)) + 6) % 7;
    (yday + 7 - mwday) / 7
}

/// The week number of this date within its year.
pub fn week_of_year_exec(d: &Date) -> (r: u32)
    requires
        valid_date(*d),
    ensures
        r == week_of_year(*d),
        r <= 53,
{
    proof {
        lemma_day_number_bound(*d);
    }
    let dn = day_number_exec(d);
    let first = Date { year: d.year, month: 1, day: 1 };
    let dn0 = day_number_exec(&first);
    let yday = dn - dn0;
    let mwday = ((dn + 6) % 7 + 6) % 7;
    (yday + 7 - mwday) / 7
}

pub open spec fn digit_char(d: int) -> char {
    ((48 + d) as u8) as char
}

pub open spec fn is_digit(c: char) -> bool {
    '0' <= c && c <= '9'
}

pub open spec fn digit_val(c: char) -> int {
    (c as u32) - 48
}

/// Two decimal digits, zero padded.
pub open spec fn pad2_seq(n: int) -> Seq<char> {
    seq![digit_char(n / 10), digit_char(n % 10)]
}

/// Three decimal digits, zero padded.
pub open spec fn pad3_seq(n: int) -> Seq<char> {
    seq![digit_char(n / 100), digit_char((n / 10) % 10), digit_char(n % 10)]
}

/// Four decimal digits, zero padded.
pub open spec fn pad4_seq(n: int) -> Seq<char> {
    seq![digit_char(n / 1000), digit_char((n / 100) % 10), digit_char((n / 10) % 10), digit_char(
        n % 10,
    )]
}

fn push_digit(out: &mut String, d: u32)
    requires
        d < 10,
    ensures
        final(out)@ == old(out)@.push(digit_char(d as int)),
{
    crate::text::push_char(out, ((48 + d) as u8) as char);
}

fn push_pad2(out: &mut String, n: u32)
    requires
        n < 100,
    ensures
        final(out)@ =~= old(out)@ + pad2_seq(n as int),
{
    push_digit(out, n / 10);
    push_digit(out, n % 10);
}

fn push_pad3(out: &mut String, n: u32)
    requires
        n < 1000,
    ensures
        final(out)@ =~= old(out)@ + pad3_seq(n as int),
{
    push_digit(out, n / 100);
    push_digit(out, (n / 10) % 10);
    push_digit(out, n % 10);
}

fn push_pad4(out: &mut String, n: u32)
    requires
        n < 10000,
    ensures
        final(out)@ =~= old(out)@ + pad4_seq(n as int),
{
    push_digit(out, n / 1000);
    push_digit(out, (n / 100) % 10);
    push_digit(out, (n / 10) % 10);
    push_digit(out, n % 10);
}

/// The period label of a date's week: the zero-padded year, a dash, and the
/// zero-padded week of the year.
pub open spec fn week_key_seq(d: Date) -> Seq<char> {
    pad4_seq(d.year as int) + seq!['-'] + pad2_seq(week_of_year(d))
}

/// The period label of a date's month: the zero-padded year, a dash, and
/// the zero-padded month.
pub open spec fn month_key_seq(d: Date) -> Seq<char> {
    pad4_seq(d.year as int) + seq!['-'] + pad2_seq(d.month as int)
}

/// The week of the year lies between 0 and 53.
pub proof fn lemma_week_of_year_bounds(d: Date)
    requires
        valid_date(d),
    ensures
        0 <= week_of_year(d) <= 53,
{
    lemma_day_number_bound(d);
}

/// A period label from a numeric period key: the zero-padded high part,
/// a dash, and the zero-padded low part — `YYYY-WW` for weeks, `YYYY-MM`
/// for months.
pub open spec fn period_label(k: int) -> Seq<char> {
    pad4_seq(k / 100) + seq!['-'] + pad2_seq(k % 100)
}

/// The numeric period key a label spells.
pub open spec fn label_num(s: Seq<char>) -> int {
    100 * (1000 * digit_val(s[0]) + 100 * digit_val(s[1]) + 10 * digit_val(s[2]) + digit_val(s[3]))
        + 10 * digit_val(s[5]) + digit_val(s[6])
}

/// A period label decodes back to its key.
pub proof fn lemma_period_label_decode(k: int)
    requires
        0 <= k <= 999999,
    ensures
        label_num(period_label(k)) == k,
        period_label(k).len() == 7,
{
    let s = period_label(k);
    let hi = k / 100;
    let lo = k % 100;
    assert(s[0] == digit_char(hi / 1000));
    assert(s[1] == digit_char((hi / 100) % 10));
    assert(s[2] == digit_char((hi / 10) % 10));
    assert(s[3] == digit_char(hi % 10));
    assert(s[5] == digit_char(lo / 10));
    assert(s[6] == digit_char(lo % 10));
    assert(0 <= hi <= 9999 && 0 <= lo <= 99);
    assert(digit_val(digit_char(hi / 1000)) == hi / 1000);
    assert(digit_val(digit_char((hi / 100) % 10)) == (hi / 100) % 10);
    assert(digit_val(digit_char((hi / 10) % 10)) == (hi / 10) % 10);
    assert(digit_val(digit_char(hi % 10)) == hi % 10);
    assert(digit_val(digit_char(lo / 10)) == lo / 10);
    assert(digit_val(digit_char(lo % 10)) == lo % 10);
    assert(1000 * (hi / 1000) + 100 * ((hi / 100) % 10) + 10 * ((hi / 10) % 10) + hi % 10 == hi);
    assert(10 * (lo / 10) + lo % 10 == lo);
    assert(100 * hi + lo == k);
}

/// Formats a numeric period key as its label.
pub fn period_label_exec(k: u32) -> (r: String)
    requires
        k <= 999999,
    ensures
        r@ == period_label(k as int),
{
    let mut out = String::new();
    push_pad4(&mut out, k / 100);
    crate::text::push_char(&mut out, '-');
    push_pad2(&mut out, k % 100);
    proof {
        assert(out@ =~= period_label(k as int));
    }
    out
}

/// The stored text of a date: `YYYY-MM-DD`.
pub open spec fn date_str_seq(d: Date) -> Seq<char> {
    pad4_seq(d.year as int) + seq!['-'] + pad2_seq(d.month as int) + seq!['-'] + pad2_seq(
        d.day as int,
    )
}

/// Formats the week period label of this date.
pub fn week_key_exec(d: &Date) -> (r: String)
    requires
        valid_date(*d),
    ensures
        r@ == week_key_seq(*d),
{
    let mut out = String::new();
    push_pad4(&mut out, d.year);
    crate::text::push_char(&mut out, '-');
    push_pad2(&mut out, week_of_year_exec(d));
    proof {
        assert(out@ =~= week_key_seq(*d));
    }
    out
}

/// Formats the month period label of this date.
pub fn month_key_exec(d: &Date) -> (r: String)
    requires
        valid_date(*d),
    ensures
        r@ == month_key_seq(*d),
{
    let mut out = String::new();
    push_pad4(&mut out, d.year);
    crate::text::push_char(&mut out, '-');
    push_pad2(&mut out, d.month);
    proof {
        assert(out@ =~= month_key_seq(*d));
    }
    out
}

/// Formats this date as its stored `YYYY-MM-DD` text.
pub fn format_date(d: &Date) -> (r: String)
    requires
        valid_date(*d),
    ensures
        r@ == date_str_seq(*d),
{
    let mut out = String::new();
    push_pad4(&mut out, d.year);
    crate::text::push_char(&mut out, '-');
    push_pad2(&mut out, d.month);
    crate::text::push_char(&mut out, '-');
    push_pad2(&mut out, d.day);
    proof {
        assert(out@ =~= date_str_seq(*d));
    }
    out
}

/// The calendar fields spelled at the date positions of a stored text.
pub open spec fn date_str_fields(s: Seq<char>) -> Date {
    Date {
        year: (1000 * digit_val(s[0]) + 100 * digit_val(s[1]) + 10 * digit_val(s[2]) + digit_val(
            s[3],
        )) as u32,
        month: (10 * digit_val(s[5]) + digit_val(s[6])) as u32,
        day: (10 * digit_val(s[8]) + digit_val(s[9])) as u32,
    }
}

/// Whether a text spells a valid stored date, `YYYY-MM-DD`.
pub open spec fn is_date_str(s: Seq<char>) -> bool {
    &&& s.len() == 10
    &&& is_digit(s[0]) && is_digit(s[1]) && is_digit(s[2]) && is_digit(s[3])
    &&& s[4] == '-'
    &&& is_digit(s[5]) && is_digit(s[6])
    &&& s[7] == '-'
    &&& is_digit(s[8]) && is_digit(s[9])
    &&& valid_date(date_str_fields(s))
}

/// The date a stored text spells, or nothing where the text is not a valid
/// date.
pub open spec fn parse_date_spec(s: Seq<char>) -> Option<Date> {
    if is_date_str(s) {
        Some(date_str_fields(s))
    } else {
        None
    }
}

fn read_digit(s: &str, i: usize) -> (r: Option<u32>)
    requires
        i < s@.len(),
    ensures
        r is Some <==> is_digit(s@[i as int]),
        r is Some ==> r->0 == digit_val(s@[i as int]) && r->0 <= 9,
{
    let c = s.get_char(i);
    if '0' <= c && c <= '9' {
        Some((c as u32) - 48)
    } else {
        None
    }
}

/// Parses a stored `YYYY-MM-DD` text into a date, rejecting anything that
/// is not a valid calendar date in that exact shape.
pub fn parse_date(s: &str) -> (r: Option<Date>)
    ensures
        r == parse_date_spec(s@),
        r is Some ==> valid_date(r->0),
{
    if s.unicode_len() != 10 {
        return None;
    }
    if s.get_char(4) != '-' || s.get_char(7) != '-' {
        return None;
    }
    let (y0, y1, y2, y3) = match (read_digit(s, 0), read_digit(s, 1), read_digit(s, 2), read_digit(
        s,
        3,
    )) {
        (Some(a), Some(b), Some(c), Some(d)) => (a, b, c, d),
        _ => { return None },
    };
    let (m0, m1) = match (read_digit(s, 5), read_digit(s, 6)) {
        (Some(a), Some(b)) => (a, b),
        _ => { return None },
    };
    let (d0, d1) = match (read_digit(s, 8), read_digit(s, 9)) {
        (Some(a), Some(b)) => (a, b),
        _ => { return None },
    };
    let d = Date {
        year: 1000 * y0 + 100 * y1 + 10 * y2 + y3,
        month: 10 * m0 + m1,
        day: 10 * d0 + d1,
    };
    if d.month < 1 || d.month > 12 {
        return None;
    }
    if d.day < 1 || d.day > days_in_month_exec(d.year, d.month) {
        return None;
    }
    Some(d)
}

/// The milliseconds past midnight spelled at the time positions of a
/// stored timestamp text.
pub open spec fn ts_str_ms(s: Seq<char>) -> int {
    ((10 * digit_val(s[11]) + digit_val(s[12])) * 60 + (10 * digit_val(s[14]) + digit_val(s[15])))
        * 60000 + (10 * digit_val(s[17]) + digit_val(s[18])) * 1000 + 100 * digit_val(s[20]) + 10
        * digit_val(s[21]) + digit_val(s[22])
}

/// Whether a text spells a valid stored timestamp,
/// `YYYY-MM-DDTHH:MM:SS.mmmZ`.
pub open spec fn is_ts_str(s: Seq<char>) -> bool {
    &&& s.len() == 24
    &&& is_digit(s[0]) && is_digit(s[1]) && is_digit(s[2]) && is_digit(s[3])
    &&& s[4] == '-'
    &&& is_digit(s[5]) && is_digit(s[6])
    &&& s[7] == '-'
    &&& is_digit(s[8]) && is_digit(s[9])
    &&& s[10] == 'T'
    &&& is_digit(s[11]) && is_digit(s[12])
    &&& s[13] == ':'
    &&& is_digit(s[14]) && is_digit(s[15])
    &&& s[16] == ':'
    &&& is_digit(s[17]) && is_digit(s[18])
    &&& s[19] == '.'
    &&& is_digit(s[20]) && is_digit(s[21]) && is_digit(s[22])
    &&& s[23] == 'Z'
    &&& valid_date(date_str_fields(s))
    &&& 10 * digit_val(s[11]) + digit_val(s[12]) < 24
    &&& 10 * digit_val(s[14]) + digit_val(s[15]) < 60
    &&& 10 * digit_val(s[17]) + digit_val(s[18]) < 60
}

/// The instant a stored text spells, or nothing where the text is not a
/// valid timestamp.
pub open spec fn parse_ts_spec(s: Seq<char>) -> Option<Timestamp> {
    if is_ts_str(s) {
        Some(Timestamp { date: date_str_fields(s), ms: ts_str_ms(s) as u64 })
    } else {
        None
    }
}

/// Parses a stored `YYYY-MM-DDTHH:MM:SS.mmmZ` text into an instant,
/// rejecting anything that is not a valid timestamp in that exact shape.
pub fn parse_timestamp(s: &str) -> (r: Option<Timestamp>)
    ensures
        r == parse_ts_spec(s@),
        r is Some ==> valid_timestamp(r->0),
{
    if s.unicode_len() != 24 {
        return None;
    }
    if s.get_char(4) != '-' || s.get_char(7) != '-' || s.get_char(10) != 'T' || s.get_char(13)
        != ':' || s.get_char(16) != ':' || s.get_char(19) != '.' || s.get_char(23) != 'Z' {
        return None;
    }
    let (y0, y1, y2, y3) = match (read_digit(s, 0), read_digit(s, 1), read_digit(s, 2), read_digit(
        s,
        3,
    )) {
        (Some(a), Some(b), Some(c), Some(d)) => (a, b, c, d),
        _ => { return None },
    };
    let (m0, m1) = match (read_digit(s, 5), read_digit(s, 6)) {
        (Some(a), Some(b)) => (a, b),
        _ => { return None },
    };
    let (d0, d1) = match (read_digit(s, 8), read_digit(s, 9)) {
        (Some(a), Some(b)) => (a, b),
        _ => { return None },
    };
    let (h0, h1) = match (read_digit(s, 11), read_digit(s, 12)) {
        (Some(a), Some(b)) => (a, b),
        _ => { return None },
    };
    let (n0, n1) = match (read_digit(s, 14), read_digit(s, 15)) {
        (Some(a), Some(b)) => (a, b),
        _ => { return None },
    };
    let (s0, s1) = match (read_digit(s, 17), read_digit(s, 18)) {
        (Some(a), Some(b)) => (a, b),
        _ => { return None },
    };
    let (f0, f1, f2) = match (read_digit(s, 20), read_digit(s, 21), read_digit(s, 22)) {
        (Some(a), Some(b), Some(c)) => (a, b, c),
        _ => { return None },
    };
    let d = Date {
        year: 1000 * y0 + 100 * y1 + 10 * y2 + y3,
        month: 10 * m0 + m1,
        day: 10 * d0 + d1,
    };
    if d.month < 1 || d.month > 12 {
        return None;
    }
    if d.day < 1 || d.day > days_in_month_exec(d.year, d.month) {
        return None;
    }
    let hour = 10 * h0 + h1;
    let minute = 10 * n0 + n1;
    let second = 10 * s0 + s1;
    if hour >= 24 || minute >= 60 || second >= 60 {
        return None;
    }
    let ms: u64 = ((hour as u64 * 60 + minute as u64) * 60 + second as u64) * 1000 + (100 * f0 + 10
        * f1 + f2) as u64;
    Some(Timestamp { date: d, ms })
}

/// The stored text of an instant: `YYYY-MM-DDTHH:MM:SS.mmmZ`.
pub open spec fn ts_str_seq(t: Timestamp) -> Seq<char> {
    date_str_seq(t.date) + seq!['T'] + pad2_seq(t.ms as int / 3600000) + seq![':'] + pad2_seq(
        (t.ms as int / 60000) % 60,
    ) + seq![':'] + pad2_seq((t.ms as int / 1000) % 60) + seq!['.'] + pad3_seq(t.ms as int % 1000)
        + seq!['Z']
}

/// Formats this instant as its stored timestamp text.
pub fn format_timestamp(t: &Timestamp) -> (r: String)
    requires
        valid_timestamp(*t),
    ensures
        r@ == ts_str_seq(*t),
{
    let mut out = format_date(&t.date);
    crate::text::push_char(&mut out, 'T');
    push_pad2(&mut out, (t.ms / 3600000) as u32);
    crate::text::push_char(&mut out, ':');
    push_pad2(&mut out, ((t.ms / 60000) % 60) as u32);
    crate::text::push_char(&mut out, ':');
    push_pad2(&mut out, ((t.ms / 1000) % 60) as u32);
    crate::text::push_char(&mut out, '.');
    push_pad3(&mut out, (t.ms % 1000) as u32);
    crate::text::push_char(&mut out, 'Z');
    proof {
        assert(out@ =~= ts_str_seq(*t));
    }
    out
}

} // verus!
