//! Dates: the length of months, date ranges, and the text form of a moment.
//!
//! A moment is written as `YYYY-MM-DD hh:mm:ss`. For the years 0 to 9999 the
//! dictionary order of these texts is the order of the moments.

use vstd::prelude::*;

use crate::number::{lemma_padded_is_read_back, lemma_padded_order, padded, push_padded, unsigned_value};
use crate::text::{
    lemma_order_by_parts, lemma_text_order_total, optional_text, string_of, text_before,
};

verus! {

/// A range of moments, both ends included; an absent end leaves that side open.
#[derive(Debug, Clone)]
pub struct DateRange {
    pub from: Option<String>,
    pub to: Option<String>,
}

/// The texts of a `DateRange`.
pub struct DateRangeText {
    pub from: Option<Seq<char>>,
    pub to: Option<Seq<char>>,
}

impl View for DateRange {
    type V = DateRangeText;

    open spec fn view(&self) -> DateRangeText {
        DateRangeText { from: optional_text(self.from), to: optional_text(self.to) }
    }
}

/// The range that is open on both sides.
pub open spec fn open_range() -> DateRangeText {
    DateRangeText { from: None, to: None }
}

impl Default for DateRange {
    fn default() -> (range: Self)
        ensures
            range@ == open_range(),
    {
        DateRange { from: None, to: None }
    }
}

/// A date and a time of day.
#[derive(Debug, Clone, Copy)]
pub struct CivilTime {
    pub year: i32,
    pub month: u8,
    pub day: u8,
    pub hour: u8,
    pub minute: u8,
    pub second: u8,
}

/// A year with a 29th of February.
pub open spec fn leap_year(year: int) -> bool {
    year % 4 == 0 && (year % 100 != 0 || year % 400 == 0)
}

/// How many days a month has; a month that is none of the shorter ones has 31.
pub open spec fn month_length(year: int, month: int) -> int {
    if month == 2 {
        if leap_year(year) {
            29
        } else {
            28
        }
    } else if month == 4 || month == 6 || month == 9 || month == 11 {
        30
    } else {
        31
    }
}

/// How many days of a year lie before a month.
pub open spec fn days_before_month(year: int, month: int) -> int
    decreases month,
{
    if month <= 1 {
        0
    } else {
        days_before_month(year, month - 1) + month_length(year, month - 1)
    }
}

/// How many days lie between the first day of the year 0 and that of `year`.
pub open spec fn days_before_year(year: int) -> int {
    365 * year + (year + 3) / 4 - (year + 99) / 100 + (year + 399) / 400
}

/// How many days lie between the first day of 1970 and a date.
pub open spec fn unix_day(year: int, month: int, day: int) -> int {
    days_before_year(year) + days_before_month(year, month) + day - 1 - 719528
}

impl CivilTime {
    /// The date exists and the time of day is one of a day of 24 hours.
    pub open spec fn valid(self) -> bool {
        &&& 1 <= self.month <= 12
        &&& 1 <= self.day <= month_length(self.year as int, self.month as int)
        &&& self.hour < 24
        &&& self.minute < 60
        &&& self.second < 60
    }

    /// The seconds from the start of 1970 to this moment.
    pub open spec fn unix_seconds(self) -> int {
        unix_day(self.year as int, self.month as int, self.day as int) * 86400 + self.hour * 3600
            + self.minute * 60 + self.second
    }

    /// The text form of this moment.
    pub open spec fn text(self) -> Seq<char> {
        moment_text(
            self.year as int,
            self.month as int,
            self.day as int,
            self.hour as int,
            self.minute as int,
            self.second as int,
        )
    }

    /// This moment is earlier than another, field by field.
    pub open spec fn earlier(self, other: CivilTime) -> bool {
        ||| self.year < other.year
        ||| self.year == other.year && self.month < other.month
        ||| self.year == other.year && self.month == other.month && self.day < other.day
        ||| self.year == other.year && self.month == other.month && self.day == other.day
            && self.hour * 3600 + self.minute * 60 + self.second < other.hour * 3600 + other.minute
            * 60 + other.second
    }
}

/// The text form of a moment.
pub open spec fn moment_text(
    year: int,
    month: int,
    day: int,
    hour: int,
    minute: int,
    second: int,
) -> Seq<char> {
    padded(year, 4) + seq!['-'] + padded(month, 2) + seq!['-'] + padded(day, 2) + seq![' ']
        + padded(hour, 2) + seq![':'] + padded(minute, 2) + seq![':'] + padded(second, 2)
}

/// The range from the start of one day to the end of another.
pub open spec fn day_range(year: int, month: int, first: int, last_month: int, last: int) -> DateRangeText {
    DateRangeText {
        from: Some(moment_text(year, month, first, 0, 0, 0)),
        to: Some(moment_text(year, last_month, last, 23, 59, 59)),
    }
}

/// The range that a year with an optional month and day names: the day if one is
/// given, else the whole month; the month is January if none is given. There is no
/// range outside the years 1900 to 2200 and for dates that do not exist.
pub open spec fn named_range(year: int, month: Option<int>, day: Option<int>) -> Option<DateRangeText> {
    let month = match month {
        Some(month) => month,
        None => 1,
    };
    let length = month_length(year, month);
    let first = match day {
        Some(day) => day,
        None => 1,
    };
    let last = match day {
        Some(day) => day,
        None => length,
    };
    if 1900 <= year <= 2200 && 1 <= month <= 12 && 1 <= first <= length {
        Some(day_range(year, month, first, month, last))
    } else {
        None
    }
}

/// A number and its magnitude have the same divisors.
proof fn lemma_divisible_by(number: int, magnitude: int)
    requires
        magnitude == number || magnitude == -number,
    ensures
        (magnitude % 4 == 0) == (number % 4 == 0),
        (magnitude % 100 == 0) == (number % 100 == 0),
        (magnitude % 400 == 0) == (number % 400 == 0),
{
}

/// How many days a month has.
pub fn days_in_month(year: i32, month: u32) -> (days: u32)
    ensures
        days == month_length(year as int, month as int),
{
    let magnitude: i64 = if year < 0 { -(year as i64) } else { year as i64 };
    proof {
        lemma_divisible_by(year as int, magnitude as int);
    }
    let leap: bool = magnitude % 4 == 0 && (magnitude % 100 != 0 || magnitude % 400 == 0);
    match month {
        2 if leap => 29,
        2 => 28,
        4 | 6 | 9 | 11 => 30,
        _ => 31,
    }
}

/// Writes a moment as text.
pub fn moment_string(year: i64, month: i64, day: i64, hour: i64, minute: i64, second: i64) -> (text: String)
    ensures
        text@ == moment_text(
            year as int,
            month as int,
            day as int,
            hour as int,
            minute as int,
            second as int,
        ),
{
    let mut out: Vec<char> = Vec::new();
    push_padded(&mut out, year, 4);
    out.push('-');
    push_padded(&mut out, month, 2);
    out.push('-');
    push_padded(&mut out, day, 2);
    out.push(' ');
    push_padded(&mut out, hour, 2);
    out.push(':');
    push_padded(&mut out, minute, 2);
    out.push(':');
    push_padded(&mut out, second, 2);
    assert(out@ =~= moment_text(
        year as int,
        month as int,
        day as int,
        hour as int,
        minute as int,
        second as int,
    ));
    string_of(&out)
}

/// The range that a year with an optional month and day names.
pub fn date_bounds(year: i32, month: Option<u32>, day: Option<u32>) -> (range: Option<DateRange>)
    ensures
        match range {
            Some(range) => named_range(year as int, optional_int(month), optional_int(day)) == Some(range@),
            None => named_range(year as int, optional_int(month), optional_int(day)) is None,
        },
{
    if !(1900 <= year && year <= 2200) {
        return None;
    }
    let month: u32 = match month {
        Some(month) => month,
        None => 1,
    };
    if !(1 <= month && month <= 12) {
        return None;
    }
    let max_day: u32 = days_in_month(year, month);
    let first_day: u32 = match day {
        Some(day) => day,
        None => 1,
    };
    if first_day == 0 || first_day > max_day {
        return None;
    }
    let last_day: u32 = match day {
        Some(day) => day,
        None => max_day,
    };
    Some(DateRange {
        from: Some(moment_string(year as i64, month as i64, first_day as i64, 0, 0, 0)),
        to: Some(moment_string(year as i64, month as i64, last_day as i64, 23, 59, 59)),
    })
}

/// An optional number as an integer.
pub open spec fn optional_int(number: Option<u32>) -> Option<int> {
    match number {
        Some(number) => Some(number as int),
        None => None,
    }
}

// ---------------------------------------------------------------------------
// Order of moments
// ---------------------------------------------------------------------------

/// Two texts that go on with the same separator and a number each are ordered by what
/// stands before it, then by the number.
pub proof fn lemma_order_goes_on(a: Seq<char>, b: Seq<char>, separator: char, left: int, right: int)
    requires
        a.len() == b.len(),
        0 <= left < 100,
        0 <= right < 100,
    ensures
        (a + seq![separator] + padded(left, 2)).len() == (b + seq![separator] + padded(right, 2)).len(),
        text_before(a + seq![separator] + padded(left, 2), b + seq![separator] + padded(right, 2)) == (
        text_before(a, b) || a == b && left < right),
        (a + seq![separator] + padded(left, 2) == b + seq![separator] + padded(right, 2)) == (a == b
            && left == right),
{
    let mark = seq![separator];
    lemma_text_order_total(mark, mark);
    lemma_padded_order(left, right, 2);
    lemma_order_by_parts(a, b, mark, mark);
    lemma_order_by_parts(a + mark, b + mark, padded(left, 2), padded(right, 2));
}

/// For the years 0 to 9999 the texts of moments are ordered as the moments are.
pub proof fn law_moments_are_ordered_as_texts(left: CivilTime, right: CivilTime)
    requires
        left.valid(),
        right.valid(),
        0 <= left.year <= 9999,
        0 <= right.year <= 9999,
    ensures
        text_before(left.text(), right.text()) == left.earlier(right),
        (left.text() == right.text()) == (left == right),
{
    lemma_padded_order(left.year as int, right.year as int, 4);
    let a = padded(left.year as int, 4);
    let b = padded(right.year as int, 4);
    lemma_order_goes_on(a, b, '-', left.month as int, right.month as int);
    let a = a + seq!['-'] + padded(left.month as int, 2);
    let b = b + seq!['-'] + padded(right.month as int, 2);
    lemma_order_goes_on(a, b, '-', left.day as int, right.day as int);
    let a = a + seq!['-'] + padded(left.day as int, 2);
    let b = b + seq!['-'] + padded(right.day as int, 2);
    lemma_order_goes_on(a, b, ' ', left.hour as int, right.hour as int);
    let a = a + seq![' '] + padded(left.hour as int, 2);
    let b = b + seq![' '] + padded(right.hour as int, 2);
    lemma_order_goes_on(a, b, ':', left.minute as int, right.minute as int);
    let a = a + seq![':'] + padded(left.minute as int, 2);
    let b = b + seq![':'] + padded(right.minute as int, 2);
    lemma_order_goes_on(a, b, ':', left.second as int, right.second as int);
}

/// How many multiples of a number lie below `year` grows by one after a multiple.
proof fn lemma_multiples_below(year: int)
    ensures
        (year + 4) / 4 - (year + 3) / 4 == if year % 4 == 0 { 1int } else { 0int },
        (year + 100) / 100 - (year + 99) / 100 == if year % 100 == 0 { 1int } else { 0int },
        (year + 400) / 400 - (year + 399) / 400 == if year % 400 == 0 { 1int } else { 0int },
{
}

/// The months of a year have 365 days, or 366 in a leap year.
proof fn lemma_month_lengths(year: int)
    ensures
        days_before_month(year, 13) == if leap_year(year) { 366int } else { 365int },
{
    reveal_with_fuel(days_before_month, 13);
    let february = month_length(year, 2);
    assert(days_before_month(year, 13) == 337 + february);
}

/// A year has as many days as its months have.
proof fn lemma_year_length(year: int)
    ensures
        days_before_year(year + 1) - days_before_year(year) == days_before_month(year, 13),
{
    lemma_multiples_below(year);
    lemma_month_lengths(year);
    assert(year % 400 == 0 ==> year % 100 == 0);
    assert(year % 100 == 0 ==> year % 4 == 0);
}

/// Later years start later.
proof fn lemma_years_advance(left: int, right: int)
    requires
        left <= right,
    ensures
        days_before_year(left) + (right - left) * 365 <= days_before_year(right),
    decreases right - left,
{
    if left < right {
        lemma_years_advance(left, right - 1);
        lemma_year_length(right - 1);
        lemma_month_lengths(right - 1);
    }
}

/// Later months of a year start later.
proof fn lemma_months_advance(year: int, left: int, right: int)
    requires
        1 <= left <= right,
    ensures
        days_before_month(year, left) <= days_before_month(year, right),
        left < right ==> days_before_month(year, left) + month_length(year, left) <= days_before_month(
            year,
            right,
        ),
    decreases right - left,
{
    if left < right {
        lemma_months_advance(year, left, right - 1);
    }
}

/// A later moment has more seconds behind it, and each moment its own number of them.
pub proof fn law_later_moments_have_more_seconds(left: CivilTime, right: CivilTime)
    requires
        left.valid(),
        right.valid(),
    ensures
        left.earlier(right) == (left.unix_seconds() < right.unix_seconds()),
        (left == right) == (left.unix_seconds() == right.unix_seconds()),
{
    lemma_moments_advance(left, right);
    lemma_moments_advance(right, left);
}

proof fn lemma_moments_advance(left: CivilTime, right: CivilTime)
    requires
        left.valid(),
        right.valid(),
    ensures
        left.earlier(right) ==> left.unix_seconds() < right.unix_seconds(),
        left.earlier(right) || right.earlier(left) || left == right,
{
    if left.year < right.year {
        lemma_years_advance(left.year + 1, right.year as int);
        lemma_year_length(left.year as int);
        lemma_months_advance(left.year as int, left.month as int, 13);
        lemma_months_advance(right.year as int, 1, right.month as int);
    } else if left.year == right.year && left.month < right.month {
        lemma_months_advance(left.year as int, left.month as int, right.month as int);
    }
}

/// The text of a moment has its year, its month, its day, its hour, its minute and its second at
/// fixed places, each written out with leading zeros.
pub proof fn law_moments_are_written_in_parts(
    year: i64,
    month: i64,
    day: i64,
    hour: i64,
    minute: i64,
    second: i64,
    text: String,
)
    requires
        call_ensures(moment_string, (year, month, day, hour, minute, second), text),
        0 <= year <= 9999,
        0 <= month <= 99,
        0 <= day <= 99,
        0 <= hour <= 99,
        0 <= minute <= 99,
        0 <= second <= 99,
    ensures
        text@.len() == 19,
        unsigned_value(text@.subrange(0, 4), 9999) == Some(year as nat),
        text@[4] == '-',
        unsigned_value(text@.subrange(5, 7), 99) == Some(month as nat),
        text@[7] == '-',
        unsigned_value(text@.subrange(8, 10), 99) == Some(day as nat),
        text@[10] == ' ',
        unsigned_value(text@.subrange(11, 13), 99) == Some(hour as nat),
        text@[13] == ':',
        unsigned_value(text@.subrange(14, 16), 99) == Some(minute as nat),
        text@[16] == ':',
        unsigned_value(text@.subrange(17, 19), 99) == Some(second as nat),
{
    lemma_padded_is_read_back(year as int, 4, 9999);
    lemma_padded_is_read_back(month as int, 2, 99);
    lemma_padded_is_read_back(day as int, 2, 99);
    lemma_padded_is_read_back(hour as int, 2, 99);
    lemma_padded_is_read_back(minute as int, 2, 99);
    lemma_padded_is_read_back(second as int, 2, 99);
    assert(text@.subrange(0, 4) =~= padded(year as int, 4));
    assert(text@.subrange(5, 7) =~= padded(month as int, 2));
    assert(text@.subrange(8, 10) =~= padded(day as int, 2));
    assert(text@.subrange(11, 13) =~= padded(hour as int, 2));
    assert(text@.subrange(14, 16) =~= padded(minute as int, 2));
    assert(text@.subrange(17, 19) =~= padded(second as int, 2));
}

/// Months have 31 days, but for April, June, September and November with 30 and February with 28,
/// or with 29 in every fourth year, unless it is a hundredth and no four hundredth one.
pub proof fn law_months_have_their_days(year: i32, month: u32, days: u32)
    requires
        call_ensures(days_in_month, (year, month), days),
    ensures
        month == 1 || month == 3 || month == 5 || month == 7 || month == 8 || month == 10 || month == 12 ==> days == 31,
        month == 4 || month == 6 || month == 9 || month == 11 ==> days == 30,
        month == 2 && year % 400 == 0 ==> days == 29,
        month == 2 && year % 400 != 0 && year % 100 == 0 ==> days == 28,
        month == 2 && year % 100 != 0 && year % 4 == 0 ==> days == 29,
        month == 2 && year % 4 != 0 ==> days == 28,
{
}

/// The range of a date has its first and its last second as its ends: from the first day to the last
/// one of the month, or of the one day that is named. January stands in for a month that is not
/// named. There is none for a date that the years 1900 to 2200 do not have.
pub proof fn law_dates_have_their_bounds(
    year: i32,
    month: Option<u32>,
    day: Option<u32>,
    range: Option<DateRange>,
    from: String,
    to: String,
)
    requires
        call_ensures(date_bounds, (year, month, day), range),
        ({
            let month = if month is Some { month->0 as i64 } else { 1i64 };
            let first = if day is Some { day->0 as i64 } else { 1i64 };
            let last = if day is Some { day->0 as i64 } else { month_length(year as int, month as int) as i64 };
            &&& call_ensures(moment_string, (year as i64, month, first, 0i64, 0i64, 0i64), from)
            &&& call_ensures(moment_string, (year as i64, month, last, 23i64, 59i64, 59i64), to)
        }),
    ensures
        range is Some ==> range->0.from is Some && range->0.from->0@ == from@ && range->0.to is Some && range->0.to->0@
            == to@,
        !(1900 <= year <= 2200) ==> range is None,
        month is Some && !(1 <= month->0 <= 12) ==> range is None,
        1900 <= year <= 2200 && (month is None || 1 <= month->0 <= 12) && day is None ==> range is Some,
        1900 <= year <= 2200 && month is Some && 1 <= month->0 <= 12 && day is Some ==> (range is Some <==> 1 <= day->0
            <= month_length(year as int, month->0 as int)),
        1900 <= year <= 2200 && month is None && day is Some ==> (range is Some <==> 1 <= day->0 <= 31),
{
    if range is Some {
        assert(range->0@.from == optional_text(range->0.from));
        assert(range->0@.to == optional_text(range->0.to));
    }
}

} // verus!
