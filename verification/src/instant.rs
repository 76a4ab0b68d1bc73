//! A SAML `dateTime`, read as a point in time.

use crate::error::AuthenticateError;
use crate::reader::{digit_value, lemma_number_prefix, number};
use crate::text::to_chars;
use vstd::prelude::*;

verus! {

pub const NOT_A_DATETIME: &'static str = "' is not a UTC SAML dateTime";

/// Whether a year of the Gregorian calendar is a leap year.
pub open spec fn is_leap(year: int) -> bool {
    year % 4 == 0 && (year % 100 != 0 || year % 400 == 0)
}

/// How many days a month of this year has.
pub open spec fn days_in_month(year: int, month: int) -> int {
    if month == 2 {
        if is_leap(year) {
            29
        } else {
            28
        }
    } else if month == 4 || month == 6 || month == 9 || month == 11 {
        30
    } else {
        31
    }
}

/// How many days of this year come before the month.
pub open spec fn days_before_month(year: int, month: int) -> int
    decreases month,
{
    if month <= 1 {
        0
    } else {
        days_before_month(year, month - 1) + days_in_month(year, month - 1)
    }
}

/// How many days this year has.
pub open spec fn days_in_year(year: int) -> int {
    if is_leap(year) {
        366
    } else {
        365
    }
}

/// How many days lie between the first day of the year zero and that of this
/// year.
pub open spec fn days_before_year(year: int) -> int
    decreases year,
{
    if year <= 0 {
        0
    } else {
        days_before_year(year - 1) + days_in_year(year - 1)
    }
}

/// How many days the date lies after the first of January 1970.
pub open spec fn days_since_epoch(year: int, month: int, day: int) -> int {
    days_before_year(year) + days_before_month(year, month) + day - 1 - days_before_year(1970)
}

/// Whether the text is of the shape `YYYY-MM-DDThh:mm:ss`, followed by `Z` or by
/// a fraction and `Z`.
pub open spec fn has_shape(s: Seq<char>) -> bool {
    &&& s.len() >= 20
    &&& number(s.subrange(0, 4), 10) is Some
    &&& s[4] == '-'
    &&& number(s.subrange(5, 7), 10) is Some
    &&& s[7] == '-'
    &&& number(s.subrange(8, 10), 10) is Some
    &&& s[10] == 'T'
    &&& number(s.subrange(11, 13), 10) is Some
    &&& s[13] == ':'
    &&& number(s.subrange(14, 16), 10) is Some
    &&& s[16] == ':'
    &&& number(s.subrange(17, 19), 10) is Some
    &&& s.last() == 'Z'
    &&& s.len() > 20 ==> s[19] == '.' && number(s.subrange(20, s.len() - 1), 10) is Some
}

/// The number written between two places of the text.
pub open spec fn field(s: Seq<char>, from: int, to: int) -> int {
    match number(s.subrange(from, to), 10) {
        Some(value) => value as int,
        None => 0,
    }
}

/// The point in time a SAML `dateTime` names, in seconds since the Unix epoch.
pub open spec fn instant_of(s: Seq<char>) -> Result<int, Seq<char>> {
    let (year, month, day) = (field(s, 0, 4), field(s, 5, 7), field(s, 8, 10));
    let (hour, minute, second) = (field(s, 11, 13), field(s, 14, 16), field(s, 17, 19));
    if has_shape(s) && 1 <= month <= 12 && 1 <= day <= 31 && hour <= 23 && minute <= 59 {
        Ok(days_since_epoch(year, month, day) * 86_400 + hour * 3_600 + minute * 60 + second)
    } else {
        Err("'"@ + s + NOT_A_DATETIME@)
    }
}

/// Years counted in closed form: a leap year every four, but for the centuries,
/// but for every fourth of those.
proof fn lemma_days_before_year(year: int)
    requires
        year >= 1,
    ensures
        days_before_year(year) == 365 * year + (year - 1) / 4 - (year - 1) / 100 + (year - 1) / 400
            + 1,
    decreases year,
{
    if year > 1 {
        lemma_days_before_year(year - 1);
    } else {
        reveal_with_fuel(days_before_year, 2);
    }
}

/// The day of the era of four hundred years, counted from the first of March, is
/// the calendar's own count of days.
proof fn lemma_days(year: int, month: int, day: int)
    requires
        0 <= year <= 9999,
        1 <= month <= 12,
    ensures
        ({
            let shifted_year = if month <= 2 { year - 1 } else { year };
            let era = shifted_year / 400;
            let year_of_era = shifted_year % 400;
            let shifted = (month + 9) % 12;
            let day_of_year = (153 * shifted + 2) / 5 + day - 1;
            let day_of_era = year_of_era * 365 + year_of_era / 4 - year_of_era / 100 + day_of_year;
            era * 146_097 + day_of_era - 719_468 == days_since_epoch(year, month, day)
        }),
{
    lemma_days_before_year(1970);
    if year >= 1 {
        lemma_days_before_year(year);
    }
    reveal_with_fuel(days_before_month, 13);
    let shifted_year = if month <= 2 {
        year - 1
    } else {
        year
    };
    let era = shifted_year / 400;
    let year_of_era = shifted_year % 400;
    assert(shifted_year == 400 * era + year_of_era);
    assert(era * 146_097 + year_of_era * 365 + year_of_era / 4 - year_of_era / 100 == 365
        * shifted_year + shifted_year / 4 - shifted_year / 100 + shifted_year / 400);
}

/// The number written from `from` up to `to`, at most four digits.
fn read_field(chars: &Vec<char>, from: usize, to: usize) -> (r: Option<i64>)
    requires
        from < to <= chars.len(),
        to - from <= 4,
    ensures
        match r {
            Some(value) => 0 <= value <= 9999 && number(
                chars@.subrange(from as int, to as int),
                10,
            ) == Some(value as nat),
            None => number(chars@.subrange(from as int, to as int), 10) is None,
        },
{
    let ghost all = chars@.subrange(from as int, to as int);
    let mut value: i64 = 0;
    let mut limit: i64 = 1;
    let mut i: usize = from;
    while i < to
        invariant
            from <= i <= to <= chars.len(),
            to - from <= 4,
            all == chars@.subrange(from as int, to as int),
            0 <= value < limit,
            i == from ==> limit == 1,
            i == from + 1 ==> limit == 10,
            i == from + 2 ==> limit == 100,
            i == from + 3 ==> limit == 1000,
            i == from + 4 ==> limit == 10_000,
            i == from ==> value == 0,
            i > from ==> number(all.take(i - from), 10) == Some(value as nat),
        decreases to - i,
    {
        let ghost read = all.take(i + 1 - from);
        proof {
            assert(read.drop_last() =~= all.take(i - from));
            assert(read.last() == chars@[i as int]);
            lemma_number_prefix(all, i + 1 - from, 10);
        }
        match digit_value(chars[i], 10) {
            None => {
                return None;
            },
            Some(low) => {
                value = value * 10 + low as i64;
                limit = limit * 10;
                assert(number(read, 10) == Some(value as nat));
            },
        }
        i += 1;
    }
    assert(all.take(to - from) =~= all);
    Some(value)
}

/// Whether everything from `from` up to `to` is a digit.
fn all_digits(chars: &Vec<char>, from: usize, to: usize) -> (r: bool)
    requires
        from < to <= chars.len(),
    ensures
        r == (number(chars@.subrange(from as int, to as int), 10) is Some),
{
    let ghost all = chars@.subrange(from as int, to as int);
    let mut i: usize = from;
    while i < to
        invariant
            from <= i <= to <= chars.len(),
            all == chars@.subrange(from as int, to as int),
            i > from ==> number(all.take(i - from), 10) is Some,
        decreases to - i,
    {
        proof {
            let read = all.take(i + 1 - from);
            assert(read.drop_last() =~= all.take(i - from));
            assert(read.last() == chars@[i as int]);
            lemma_number_prefix(all, i + 1 - from, 10);
        }
        if digit_value(chars[i], 10).is_none() {
            return false;
        }
        i += 1;
    }
    assert(all.take(to - from) =~= all);
    true
}

/// A SAML `dateTime` — `YYYY-MM-DDThh:mm:ss[.fff]Z` — in seconds since the
/// Unix epoch. A trailing `Z` is required; a fractional second is dropped.
///
/// # Errors
///
/// Where the text is not that shape.
pub fn instant(text: &str) -> (r: Result<i64, AuthenticateError>)
    ensures
        match r {
            Ok(at) => instant_of(text@) == Ok::<int, Seq<char>>(at as int),
            Err(refusal) => instant_of(text@) == Err::<int, Seq<char>>(refusal.message@),
        },
{
    let chars = to_chars(text);
    let length = chars.len();
    if length < 20 || chars[4] != '-' || chars[7] != '-' || chars[10] != 'T' || chars[13] != ':'
        || chars[16] != ':' || chars[length - 1] != 'Z' {
        return Err(AuthenticateError::naming("'", text, NOT_A_DATETIME));
    }
    if length > 20 && (chars[19] != '.' || length == 21 || !all_digits(&chars, 20, length - 1)) {
        assert(length == 21 ==> chars@.subrange(20, length - 1).len() == 0);
        return Err(AuthenticateError::naming("'", text, NOT_A_DATETIME));
    }
    match (
        read_field(&chars, 0, 4),
        read_field(&chars, 5, 7),
        read_field(&chars, 8, 10),
        read_field(&chars, 11, 13),
        read_field(&chars, 14, 16),
        read_field(&chars, 17, 19),
    ) {
        (Some(year), Some(month), Some(day), Some(hour), Some(minute), Some(second)) => {
            if month < 1 || month > 12 || day < 1 || day > 31 || hour > 23 || minute > 59 {
                return Err(AuthenticateError::naming("'", text, NOT_A_DATETIME));
            }
            proof {
                lemma_days(year as int, month as int, day as int);
            }
            let shifted_year: i64 = if month <= 2 {
                year - 1
            } else {
                year
            };
            let (era, year_of_era): (i64, i64) = if shifted_year < 0 {
                (-1, 399)
            } else {
                (shifted_year / 400, shifted_year % 400)
            };
            let shifted: i64 = (month + 9) % 12;
            let day_of_year: i64 = (153 * shifted + 2) / 5 + day - 1;
            let day_of_era: i64 = year_of_era * 365 + year_of_era / 4 - year_of_era / 100
                + day_of_year;
            let days: i64 = era * 146_097 + day_of_era - 719_468;
            Ok(days * 86_400 + hour * 3_600 + minute * 60 + second)
        },
        _ => Err(AuthenticateError::naming("'", text, NOT_A_DATETIME)),
    }
}

} // verus!
