//! Calendar dates of the proleptic Gregorian calendar, years 0 to 9999, and
//! their `YYYY-MM-DD` text.

use crate::decimal::{
    all_digits, digits_value, is_digit, lemma_padded_digits, padded_digits, pow10,
    push_padded_digits,
};
use crate::text::{lemma_decode_unique, text_of_bytes};
use chrono::Datelike;
use vstd::prelude::*;
use vstd::utf8::*;

verus! {

/// True for the years that have a 29th of February.
pub open spec fn is_leap_year(year: int) -> bool {
    year % 4 == 0 && (year % 100 != 0 || year % 400 == 0)
}

/// The number of days of a month; zero for a month that does not exist.
pub open spec fn days_in_month(year: int, month: int) -> int {
    if month == 2 {
        if is_leap_year(year) {
            29
        } else {
            28
        }
    } else if month == 4 || month == 6 || month == 9 || month == 11 {
        30
    } else if 1 <= month <= 12 {
        31
    } else {
        0
    }
}

/// A calendar date as three numbers.
pub struct Day {
    pub year: int,
    pub month: int,
    pub day: int,
}

impl Day {
    /// True for the days of the calendar in the years 0 to 9999.
    pub open spec fn valid(self) -> bool {
        0 <= self.year <= 9999 && 1 <= self.month <= 12 && 1 <= self.day <= days_in_month(
            self.year,
            self.month,
        )
    }

    /// The place of a day in time: earlier days have smaller ranks.
    pub open spec fn rank(self) -> int {
        (self.year * 16 + self.month) * 32 + self.day
    }
}

/// The text of a day: four digits of the year, two of the month and two of
/// the day, with a hyphen between them.
pub open spec fn date_text(day: Day) -> Seq<u8> {
    padded_digits(day.year as nat, 4) + seq![45u8] + padded_digits(day.month as nat, 2)
        + seq![45u8] + padded_digits(day.day as nat, 2)
}

/// True for a text of ten bytes whose fields are digits, with hyphens between
/// them, and that names a day of the calendar.
pub open spec fn is_plain_date(s: Seq<u8>) -> bool {
    s.len() == 10 && s[4] == 45 && s[7] == 45 && all_digits(s.subrange(0, 4)) && all_digits(
        s.subrange(5, 7),
    ) && all_digits(s.subrange(8, 10)) && plain_date(s).valid()
}

/// The day that a text in the form of `is_plain_date` names.
pub open spec fn plain_date(s: Seq<u8>) -> Day {
    Day {
        year: digits_value(s.subrange(0, 4)) as int,
        month: digits_value(s.subrange(5, 7)) as int,
        day: digits_value(s.subrange(8, 10)) as int,
    }
}

/// What `chrono::NaiveDate::parse_from_str` with the format `%Y-%m-%d` makes
/// of a text: the year, month and day, or nothing where it rejects the text.
pub uninterp spec fn chrono_date(text: Seq<char>) -> Option<(int, int, int)>;

/// The year, month and day that a text is read as. A text in the plain form
/// names its day; on any other text the reading is that of `chrono_date`.
pub open spec fn date_reading(text: Seq<char>) -> Option<(int, int, int)> {
    if is_plain_date(encode_utf8(text)) {
        let day = plain_date(encode_utf8(text));
        Some((day.year, day.month, day.day))
    } else {
        chrono_date(text)
    }
}

/// The day that the bytes of a date token stand for: the reading of their
/// text, where they are text and it is a day of the years 0 to 9999.
pub open spec fn date_of_bytes(s: Seq<u8>) -> Option<Day> {
    if !valid_utf8(s) {
        None
    } else {
        match date_reading(decode_utf8(s)) {
            Some((year, month, day)) => {
                let found = Day { year, month, day };
                if found.valid() {
                    Some(found)
                } else {
                    None
                }
            },
            None => None,
        }
    }
}

/// The text of a valid day is in the plain form and names that day.
pub proof fn lemma_date_text(day: Day)
    requires
        day.valid(),
    ensures
        date_text(day).len() == 10,
        is_plain_date(date_text(day)),
        plain_date(date_text(day)) == day,
        forall|i: int|
            0 <= i < 10 ==> (is_digit(#[trigger] date_text(day)[i]) || date_text(day)[i] == 45),
{
    let s = date_text(day);
    let y = padded_digits(day.year as nat, 4);
    let m = padded_digits(day.month as nat, 2);
    let d = padded_digits(day.day as nat, 2);
    lemma_padded_digits(day.year as nat, 4);
    lemma_padded_digits(day.month as nat, 2);
    lemma_padded_digits(day.day as nat, 2);
    reveal_with_fuel(pow10, 5);
    assert(pow10(4) == 10000);
    assert(pow10(2) == 100);
    assert(s.subrange(0, 4) =~= y);
    assert(s.subrange(5, 7) =~= m);
    assert(s.subrange(8, 10) =~= d);
    assert forall|i: int| 0 <= i < 10 implies (is_digit(#[trigger] s[i]) || s[i] == 45) by {
        if i < 4 {
            assert(s[i] == y[i]);
        } else if 5 <= i < 7 {
            assert(s[i] == m[i - 5]);
        } else if 8 <= i {
            assert(s[i] == d[i - 8]);
        }
    }
}

/// The error of `chrono` for a text that is no date.
#[verifier::external_type_specification]
#[verifier::external_body]
pub struct ExParseError(chrono::ParseError);

/// Reads a text as a date. Wraps `chrono::NaiveDate::parse_from_str` with the
/// format `%Y-%m-%d`: a text in the plain ten-byte form that names a day of
/// the calendar is read as that day, and the reading of any other text is a
/// function of the text alone.
#[verifier::external_body]
pub(crate) fn read_date(text: &str) -> (r: Result<(i32, u32, u32), chrono::ParseError>)
    ensures
        match r {
            Ok((year, month, day)) => chrono_date(text@) == Some(
                (year as int, month as int, day as int),
            ),
            Err(_) => chrono_date(text@) is None,
        },
        is_plain_date(encode_utf8(text@)) ==> r is Ok && (Day {
            year: r.unwrap().0 as int,
            month: r.unwrap().1 as int,
            day: r.unwrap().2 as int,
        }) == plain_date(encode_utf8(text@)),
{
    match chrono::NaiveDate::parse_from_str(text, "%Y-%m-%d") {
        Ok(date) => Ok((date.year(), date.month(), date.day())),
        Err(error) => Err(error),
    }
}

/// A day of the calendar, in the years 0 to 9999.
#[derive(Clone, Copy, Debug, PartialEq, Eq, Hash)]
pub struct Date {
    year: u16,
    month: u8,
    day: u8,
}

impl View for Date {
    type V = Day;

    closed spec fn view(&self) -> Day {
        Day { year: self.year as int, month: self.month as int, day: self.day as int }
    }
}

/// Tells whether a year has a 29th of February.
pub fn leap_year(year: u16) -> (r: bool)
    ensures
        r == is_leap_year(year as int),
{
    year % 4 == 0 && (year % 100 != 0 || year % 400 == 0)
}

/// The number of days of a month; zero for a month that does not exist.
pub fn month_length(year: u16, month: u8) -> (r: u8)
    ensures
        r == days_in_month(year as int, month as int),
{
    if month == 2 {
        if leap_year(year) {
            29
        } else {
            28
        }
    } else if month == 4 || month == 6 || month == 9 || month == 11 {
        30
    } else if 1 <= month && month <= 12 {
        31
    } else {
        0
    }
}

impl Date {
    /// The date of a year, month and day; `None` unless they name a day of
    /// the calendar in the years 0 to 9999.
    pub fn new(year: i32, month: u32, day: u32) -> (r: Option<Date>)
        ensures
            match r {
                Some(date) => date@ == (Day {
                    year: year as int,
                    month: month as int,
                    day: day as int,
                }) && date@.valid(),
                None => !(Day { year: year as int, month: month as int, day: day as int }).valid(),
            },
    {
        if year < 0 || year > 9999 || month < 1 || month > 12 || day < 1 || day > 31 {
            return None;
        }
        let y: u16 = year as u16;
        let m: u8 = month as u8;
        let d: u8 = day as u8;
        if d > month_length(y, m) {
            return None;
        }
        Some(Date { year: y, month: m, day: d })
    }

    pub fn year(&self) -> (r: u16)
        ensures
            r == self@.year,
    {
        self.year
    }

    pub fn month(&self) -> (r: u8)
        ensures
            r == self@.month,
    {
        self.month
    }

    pub fn day(&self) -> (r: u8)
        ensures
            r == self@.day,
    {
        self.day
    }

    /// Tells whether this date is not later than `other`.
    pub fn not_after(&self, other: &Date) -> (r: bool)
        ensures
            r == (self@.rank() <= other@.rank()),
    {
        let a: u32 = (self.year as u32 * 16 + self.month as u32) * 32 + self.day as u32;
        let b: u32 = (other.year as u32 * 16 + other.month as u32) * 32 + other.day as u32;
        a <= b
    }

    /// Appends the text of this date to `out`.
    pub fn write_to(&self, out: &mut Vec<u8>)
        ensures
            final(out)@ == old(out)@ + date_text(self@),
    {
        push_padded_digits(out, self.year as u32, 4);
        out.push(45);
        push_padded_digits(out, self.month as u32, 2);
        out.push(45);
        push_padded_digits(out, self.day as u32, 2);
        proof {
            assert(final(out)@ =~= old(out)@ + date_text(self@));
        }
    }

    /// Reads the bytes of a date token. `None` where the bytes are no text, the
    /// text is no date, or the date lies outside the years 0 to 9999.
    pub fn parse(token: &[u8]) -> (r: Option<Date>)
        ensures
            match r {
                Some(date) => date_of_bytes(token@) == Some(date@),
                None => date_of_bytes(token@) is None,
            },
    {
        match text_of_bytes(token) {
            None => None,
            Some(text) => {
                proof {
                    lemma_decode_unique(text@, token@);
                }
                match read_date(text) {
                    Ok((year, month, day)) => Date::new(year, month, day),
                    Err(_) => None,
                }
            },
        }
    }
}

} // verus!
