//! Calendar dates: from Unix timestamps (through the `time` crate), from
//! journal text (through `chrono`), their text form, and their order.

use vstd::prelude::*;
use crate::journal::text_views;
use crate::text::{second_word, trim_start, trim_start_text, words};
use chrono::Datelike;

verus! {

/// A date of the proleptic Gregorian calendar, as year, month and day.
#[derive(Debug, Clone, Copy, PartialEq, Eq, Structural)]
pub struct Date {
    pub year: i32,
    pub month: u32,
    pub day: u32,
}

/// The date as a triple of plain integers.
pub open spec fn ymd(d: Date) -> (i32, u32, u32) {
    (d.year, d.month, d.day)
}

/// The date that a triple of plain integers describes.
pub open spec fn date_of(t: (i32, u32, u32)) -> Date {
    Date { year: t.0, month: t.1, day: t.2 }
}

pub open spec fn is_leap_year(y: int) -> bool {
    y % 4 == 0 && (y % 100 != 0 || y % 400 == 0)
}

pub open spec fn days_in_month(y: int, m: int) -> int {
    if m == 2 {
        if is_leap_year(y) {
            29
        } else {
            28
        }
    } else if m == 4 || m == 6 || m == 9 || m == 11 {
        30
    } else {
        31
    }
}

/// The day exists in the calendar.
pub open spec fn is_valid_date(y: int, m: int, d: int) -> bool {
    1 <= m <= 12 && 1 <= d <= days_in_month(y, m)
}

/// Days of the year before the first day of month `m`.
pub open spec fn days_before_month(y: int, m: int) -> int {
    let leap = if is_leap_year(y) {
        1int
    } else {
        0int
    };
    if m <= 1 {
        0
    } else if m == 2 {
        31
    } else if m == 3 {
        59 + leap
    } else if m == 4 {
        90 + leap
    } else if m == 5 {
        120 + leap
    } else if m == 6 {
        151 + leap
    } else if m == 7 {
        181 + leap
    } else if m == 8 {
        212 + leap
    } else if m == 9 {
        243 + leap
    } else if m == 10 {
        273 + leap
    } else if m == 11 {
        304 + leap
    } else {
        334 + leap
    }
}

/// Days from 0001-01-01 to the first day of year `y`.
pub open spec fn days_before_year(y: int) -> int {
    365 * (y - 1) + (y - 1) / 4 - (y - 1) / 100 + (y - 1) / 400
}

/// Days from 1970-01-01 (the Unix epoch) to the given day.
pub open spec fn epoch_day(y: int, m: int, d: int) -> int {
    days_before_year(y) + days_before_month(y, m) + d - 1 - 719162
}

/// Chronological order of valid dates: by year, then month, then day.
pub open spec fn date_before(a: Date, b: Date) -> bool {
    ||| a.year < b.year
    ||| (a.year == b.year && a.month < b.month)
    ||| (a.year == b.year && a.month == b.month && a.day < b.day)
}

/// A decimal digit.
pub open spec fn digit_char(n: int) -> char {
    if n == 0 {
        '0'
    } else if n == 1 {
        '1'
    } else if n == 2 {
        '2'
    } else if n == 3 {
        '3'
    } else if n == 4 {
        '4'
    } else if n == 5 {
        '5'
    } else if n == 6 {
        '6'
    } else if n == 7 {
        '7'
    } else if n == 8 {
        '8'
    } else {
        '9'
    }
}

/// `n` in four digits, zero-padded.
pub open spec fn four_digits(n: int) -> Seq<char> {
    seq![
        digit_char((n / 1000) % 10),
        digit_char((n / 100) % 10),
        digit_char((n / 10) % 10),
        digit_char(n % 10),
    ]
}

/// `n` in two digits, zero-padded.
pub open spec fn two_digits(n: int) -> Seq<char> {
    seq![digit_char((n / 10) % 10), digit_char(n % 10)]
}

/// The text of a date: `YYYY-MM-DD`, with a leading `-` for years before 0.
pub open spec fn date_text(t: (i32, u32, u32)) -> Seq<char> {
    let y = t.0 as int;
    (if y < 0 {
        seq!['-']
    } else {
        seq![]
    }) + four_digits(if y < 0 {
        -y
    } else {
        y
    }) + seq!['-'] + two_digits(t.1 as int) + seq!['-'] + two_digits(t.2 as int)
}

/// The first day on which the `time` crate can represent a timestamp.
pub open spec fn time_first_day() -> int {
    epoch_day(-9999, 1, 1)
}

/// The last day on which the `time` crate can represent a timestamp.
pub open spec fn time_last_day() -> int {
    epoch_day(9999, 12, 31)
}

/// The UTC calendar date of a Unix timestamp, as the `time` crate computes
/// it (`OffsetDateTime::from_unix_timestamp(t)` and its `date()`).
pub uninterp spec fn utc_calendar_date(timestamp: i64) -> Option<(i32, u32, u32)>;

/// The date that `chrono::NaiveDate::parse_from_str(text, "%Y-%m-%d")` reads.
pub uninterp spec fn chrono_ymd_parse(text: Seq<char>) -> Option<(i32, u32, u32)>;

/// `time::OffsetDateTime::from_unix_timestamp`, then `date()`.  The crate
/// fails for timestamps before -9999-01-01 or after 9999-12-31 (without its
/// `large-dates` feature); otherwise the date is the valid calendar day whose
/// distance from the epoch is the timestamp divided by 86400, rounded down.
#[verifier::external_body]
pub(crate) fn utc_date_of_timestamp(timestamp: i64) -> (r: Option<Date>)
    ensures
        match r {
            Some(d) => utc_calendar_date(timestamp) == Some(ymd(d)),
            None => utc_calendar_date(timestamp) is None,
        },
        r is Some <==> time_first_day() <= timestamp as int / 86400 <= time_last_day(),
        r matches Some(d) ==> is_valid_date(d.year as int, d.month as int, d.day as int) && -9999
            <= d.year <= 9999 && epoch_day(d.year as int, d.month as int, d.day as int)
            == timestamp as int / 86400,
{
    match time::OffsetDateTime::from_unix_timestamp(timestamp) {
        Ok(t) => {
            let d = t.date();
            Some(Date { year: d.year(), month: u8::from(d.month()) as u32, day: d.day() as u32 })
        },
        Err(_) => None,
    }
}

/// `Display` of `time::Date`: `YYYY-MM-DD`, with a leading `-` before year 0
/// (the `large-dates` feature, which would widen years, is not enabled).
#[verifier::external_body]
fn time_date_text(date: Date) -> (r: String)
    requires
        is_valid_date(date.year as int, date.month as int, date.day as int),
        -9999 <= date.year <= 9999,
    ensures
        r@ == date_text(ymd(date)),
{
    let month = match time::Month::try_from(date.month as u8) {
        Ok(m) => m,
        Err(_) => return String::new(),
    };
    match time::Date::from_calendar_date(date.year, month, date.day as u8) {
        Ok(d) => d.to_string(),
        Err(_) => String::new(),
    }
}

/// `chrono::NaiveDate::from_ymd_opt`: a date when the day exists and the year
/// lies in chrono's range.
#[verifier::external_body]
pub(crate) fn chrono_date_from_ymd(year: i32, month: u32, day: u32) -> (r: Option<Date>)
    ensures
        r is Some <==> (is_valid_date(year as int, month as int, day as int) && -262143 <= year
            <= 262142),
        r matches Some(d) ==> d == (Date { year, month, day }),
{
    match chrono::NaiveDate::from_ymd_opt(year, month, day) {
        Some(d) => Some(Date { year: d.year(), month: d.month(), day: d.day() }),
        None => None,
    }
}

/// `chrono::NaiveDate::parse_from_str(text, "%Y-%m-%d")`.  What text the
/// format accepts is left to the name `chrono_ymd_parse`; a parsed date is
/// always a valid day within chrono's range.
#[verifier::external_body]
fn parse_ymd_date(text: &str) -> (r: Option<Date>)
    ensures
        match r {
            Some(d) => chrono_ymd_parse(text@) == Some(ymd(d)),
            None => chrono_ymd_parse(text@) is None,
        },
        r matches Some(d) ==> is_valid_date(d.year as int, d.month as int, d.day as int)
            && -262143 <= d.year <= 262142,
{
    match chrono::NaiveDate::parse_from_str(text, "%Y-%m-%d") {
        Ok(d) => Some(Date { year: d.year(), month: d.month(), day: d.day() }),
        Err(_) => None,
    }
}

/// Decides `date_before`.
pub fn is_before(a: &Date, b: &Date) -> (r: bool)
    ensures
        r == date_before(*a, *b),
{
    a.year < b.year || (a.year == b.year && a.month < b.month) || (a.year == b.year && a.month
        == b.month && a.day < b.day)
}

/// The UTC day of a timestamp as journal text, `YYYY-MM-DD`; `None` when the
/// `time` crate cannot represent the timestamp.
pub fn day_key(timestamp: i64) -> (r: Option<String>)
    ensures
        match utc_calendar_date(timestamp) {
            None => r is None,
            Some(t) => r matches Some(s) && s@ == date_text(t),
        },
        r is Some <==> time_first_day() <= timestamp as int / 86400 <= time_last_day(),
        r is Some ==> (utc_calendar_date(timestamp) matches Some(t) && is_valid_date(
            t.0 as int,
            t.1 as int,
            t.2 as int,
        ) && epoch_day(t.0 as int, t.1 as int, t.2 as int) == timestamp as int / 86400),
{
    match utc_date_of_timestamp(timestamp) {
        None => None,
        Some(d) => Some(time_date_text(d)),
    }
}

/// The later of a running maximum and a candidate date.
pub open spec fn later_of(m: Option<Date>, c: Option<Date>) -> Option<Date> {
    match c {
        None => m,
        Some(d) => match m {
            None => Some(d),
            Some(x) => if date_before(x, d) {
                Some(d)
            } else {
                Some(x)
            },
        },
    }
}

/// The latest of the candidate dates, if any is present.
pub open spec fn latest_of(s: Seq<Option<Date>>) -> Option<Date>
    decreases s.len(),
{
    if s.len() == 0 {
        None
    } else {
        later_of(latest_of(s.drop_last()), s.last())
    }
}

/// The latest of the candidates is one of them, and none of them is later.
pub proof fn lemma_latest_is_maximum(s: Seq<Option<Date>>)
    ensures
        latest_of(s) is None <==> forall|i: int| 0 <= i < s.len() ==> s[i] is None,
        latest_of(s) matches Some(d) ==> exists|i: int| 0 <= i < s.len() && s[i] == Some(d),
        latest_of(s) matches Some(d) ==> forall|i: int|
            0 <= i < s.len() && #[trigger] s[i] is Some ==> !date_before(d, s[i]->0),
    decreases s.len(),
{
    if s.len() > 0 {
        let p = s.drop_last();
        lemma_latest_is_maximum(p);
        assert forall|i: int| 0 <= i < p.len() implies p[i] == s[i] by {}
        if latest_of(p) is None && s.last() is None {
            assert forall|i: int| 0 <= i < s.len() implies s[i] is None by {
                if i < p.len() {
                    assert(p[i] is None);
                }
            }
        }
        if let Some(d) = latest_of(s) {
            if latest_of(s) == s.last() {
                assert(s[s.len() - 1] == Some(d));
            } else {
                let i = choose|i: int| 0 <= i < p.len() && p[i] == Some(d);
                assert(s[i] == Some(d));
            }
        }
    }
}

/// The latest of the candidate dates (`None` when none is present).
pub fn latest_date(candidates: &Vec<Option<Date>>) -> (r: Option<Date>)
    ensures
        r == latest_of(candidates@),
{
    let mut latest: Option<Date> = None;
    let n = candidates.len();
    let mut i: usize = 0;
    assert(candidates@.take(0) =~= Seq::<Option<Date>>::empty());
    while i < n
        invariant
            n == candidates.len(),
            i <= n,
            latest == latest_of(candidates@.take(i as int)),
        decreases n - i,
    {
        assert(candidates@.take(i + 1).drop_last() =~= candidates@.take(i as int));
        if let Some(d) = candidates[i] {
            match latest {
                None => {
                    latest = Some(d);
                },
                Some(x) => {
                    if is_before(&x, &d) {
                        latest = Some(d);
                    }
                },
            }
        }
        i += 1;
    }
    assert(candidates@.take(n as int) =~= candidates@);
    latest
}

/// The date field of a price line: the line without leading whitespace
/// starts with `P` and has a second whitespace-separated word.
pub open spec fn price_line_date_field(line: Seq<char>) -> Option<Seq<char>> {
    let t = trim_start(line);
    if t.len() > 0 && t[0] == 'P' && words(t).len() >= 2 {
        Some(words(t)[1])
    } else {
        None
    }
}

/// The date a line of a prices file holds, as chrono reads its date field.
pub open spec fn line_price_date(line: Seq<char>) -> Option<Date> {
    match price_line_date_field(line) {
        None => None,
        Some(w) => match chrono_ymd_parse(w) {
            None => None,
            Some(t) => Some(date_of(t)),
        },
    }
}

/// Decides `price_line_date_field`.
pub fn price_line_date_word(line: &str) -> (r: Option<String>)
    ensures
        match price_line_date_field(line@) {
            None => r is None,
            Some(w) => r matches Some(x) && x@ == w,
        },
{
    let t = trim_start_text(line);
    let ts = t.as_str();
    if ts.unicode_len() == 0 || ts.get_char(0) != 'P' {
        return None;
    }
    second_word(ts)
}

/// The latest date of the price lines of a prices file (`None` when no line
/// holds a readable date).
pub fn latest_price_date(lines: &Vec<String>) -> (r: Option<Date>)
    ensures
        r == latest_of(text_views(lines@).map_values(|l: Seq<char>| line_price_date(l))),
{
    let ghost target = text_views(lines@).map_values(|l: Seq<char>| line_price_date(l));
    let mut candidates: Vec<Option<Date>> = Vec::new();
    let n = lines.len();
    let mut i: usize = 0;
    while i < n
        invariant
            n == lines.len(),
            i <= n,
            target == text_views(lines@).map_values(|l: Seq<char>| line_price_date(l)),
            candidates@ == target.take(i as int),
        decreases n - i,
    {
        let c = match price_line_date_word(lines[i].as_str()) {
            None => None,
            Some(w) => parse_ymd_date(w.as_str()),
        };
        proof {
            assert(target[i as int] == line_price_date(lines@[i as int]@));
            match c {
                Some(d) => assert(date_of(ymd(d)) == d),
                None => {},
            }
        }
        candidates.push(c);
        assert(candidates@ =~= target.take(i + 1));
        i += 1;
    }
    assert(target.take(n as int) =~= target);
    latest_date(&candidates)
}

} // verus!
