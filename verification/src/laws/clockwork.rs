//! Laws of a `dateTime`: which texts are one, and how far apart two are.

use crate::clock::{epoch_seconds, seconds_of};
use crate::error::AuthenticateError;
use crate::instant::{
    days_before_month, days_before_year, days_in_month, days_in_year, days_since_epoch, instant,
    instant_of, is_leap,
};
use crate::reader::{digit, number};
use vstd::prelude::*;

verus! {

/// Whether a character is a decimal digit.
pub open spec fn decimal_digit(c: char) -> bool {
    48 <= c as int <= 57
}

/// The number that the digits from one place up to another write.
pub open spec fn written(s: Seq<char>, from: int, to: int) -> int
    decreases to - from,
{
    if to <= from {
        0
    } else {
        written(s, from, to - 1) * 10 + (s[to - 1] as int - 48)
    }
}

/// Whether all from one place up to another are digits.
pub open spec fn digits_between(s: Seq<char>, from: int, to: int) -> bool {
    forall|i: int| from <= i < to ==> decimal_digit(#[trigger] s[i])
}

/// Whether a text is a `dateTime`: `YYYY-MM-DDThh:mm:ss`, digits for the letters,
/// a month from 1 to 12, a day from 1 to 31, an hour up to 23 and a minute up to
/// 59, then `Z`, or a point, one digit or more, and `Z`.
pub open spec fn is_datetime(s: Seq<char>) -> bool {
    &&& s.len() >= 20
    &&& digits_between(s, 0, 4) && s[4] == '-'
    &&& digits_between(s, 5, 7) && s[7] == '-' && 1 <= written(s, 5, 7) <= 12
    &&& digits_between(s, 8, 10) && s[10] == 'T' && 1 <= written(s, 8, 10) <= 31
    &&& digits_between(s, 11, 13) && s[13] == ':' && written(s, 11, 13) <= 23
    &&& digits_between(s, 14, 16) && s[16] == ':' && written(s, 14, 16) <= 59
    &&& digits_between(s, 17, 19) && s[s.len() - 1] == 'Z'
    &&& s.len() > 20 ==> s.len() > 21 && s[19] == '.' && digits_between(s, 20, s.len() - 1)
}

/// A run of characters writes a number exactly where all are digits.
proof fn lemma_number(s: Seq<char>, from: int, to: int)
    requires
        0 <= from < to <= s.len(),
    ensures
        number(s.subrange(from, to), 10) is Some <==> digits_between(s, from, to),
        number(s.subrange(from, to), 10) matches Some(value) ==> value as int == written(
            s,
            from,
            to,
        ),
    decreases to - from,
{
    let all = s.subrange(from, to);
    assert(all.last() == s[to - 1]);
    assert(digit(s[to - 1], 10) is Some <==> decimal_digit(s[to - 1]));
    if to - from > 1 {
        lemma_number(s, from, to - 1);
        assert(all.drop_last() =~= s.subrange(from, to - 1));
        if digits_between(s, from, to - 1) && decimal_digit(s[to - 1]) {
            assert(digits_between(s, from, to));
        }
    } else {
        assert(written(s, from, to - 1) == 0);
        if decimal_digit(s[to - 1]) {
            assert(digits_between(s, from, to));
        }
    }
    if digits_between(s, from, to) {
        assert(digits_between(s, from, to - 1));
        assert(decimal_digit(s[to - 1]));
    }
}

/// The numbers in a `dateTime` are those written there.
proof fn lemma_fields(s: Seq<char>)
    requires
        s.len() >= 20,
    ensures
        instant_of(s) is Ok <==> is_datetime(s),
        instant_of(s) matches Ok(at) ==> at == days_since_epoch(
            written(s, 0, 4),
            written(s, 5, 7),
            written(s, 8, 10),
        ) * 86_400 + written(s, 11, 13) * 3_600 + written(s, 14, 16) * 60 + written(s, 17, 19),
{
    lemma_number(s, 0, 4);
    lemma_number(s, 5, 7);
    lemma_number(s, 8, 10);
    lemma_number(s, 11, 13);
    lemma_number(s, 14, 16);
    lemma_number(s, 17, 19);
    if s.len() > 21 {
        lemma_number(s, 20, s.len() - 1);
    } else if s.len() == 21 {
        assert(s.subrange(20, 20).len() == 0);
    }
    assert(s.last() == s[s.len() - 1]);
}

/// A `dateTime` is read exactly where the text is one; any other is refused in
/// words that name it.
pub proof fn a_datetime_is_read_where_it_is_one(text: &str, r: Result<i64, AuthenticateError>)
    requires
        call_ensures(instant, (text,), r),
    ensures
        r is Ok <==> is_datetime(text@),
        r matches Err(refusal) ==> refusal.message@ == "'"@ + text@
            + "' is not a UTC SAML dateTime"@,
{
    if text@.len() >= 20 {
        lemma_fields(text@);
    }
}

/// Whether two texts differ between these places alone.
pub open spec fn differ_between(a: Seq<char>, b: Seq<char>, from: int, to: int) -> bool {
    a.len() == b.len() && forall|i: int|
        0 <= i < a.len() && !(from <= i < to) ==> #[trigger] a[i] == b[i]
}

/// Where two texts do not differ, they write the same number.
proof fn lemma_same_written(a: Seq<char>, b: Seq<char>, from: int, to: int)
    requires
        0 <= from <= to <= a.len(),
        a.len() == b.len(),
        forall|i: int| from <= i < to ==> #[trigger] a[i] == b[i],
    ensures
        written(a, from, to) == written(b, from, to),
    decreases to - from,
{
    if from < to {
        lemma_same_written(a, b, from, to - 1);
    }
}

/// Times of one day are as far apart as a clock says: of two that differ in their
/// seconds alone, as many seconds as those differ by; in their minutes alone,
/// sixty for each; in their hours alone, three thousand six hundred for each.
pub proof fn times_are_as_far_apart_as_a_clock_says(a: &str, b: &str, r: i64, s: i64)
    requires
        call_ensures(instant, (a,), Ok::<i64, AuthenticateError>(r)),
        call_ensures(instant, (b,), Ok::<i64, AuthenticateError>(s)),
    ensures
        differ_between(a@, b@, 17, 19) ==> s - r == written(b@, 17, 19) - written(a@, 17, 19),
        differ_between(a@, b@, 14, 16) ==> s - r == 60 * (written(b@, 14, 16) - written(
            a@,
            14,
            16,
        )),
        differ_between(a@, b@, 11, 13) ==> s - r == 3600 * (written(b@, 11, 13) - written(
            a@,
            11,
            13,
        )),
{
    lemma_times(a@, b@);
}

/// So it is with the points in time.
proof fn lemma_times(a: Seq<char>, b: Seq<char>)
    requires
        instant_of(a) is Ok,
        instant_of(b) is Ok,
    ensures
        ({
            let r = instant_of(a)->Ok_0;
            let s = instant_of(b)->Ok_0;
            &&& differ_between(a, b, 17, 19) ==> s - r == written(b, 17, 19) - written(a, 17, 19)
            &&& differ_between(a, b, 14, 16) ==> s - r == 60 * (written(b, 14, 16) - written(
                a,
                14,
                16,
            ))
            &&& differ_between(a, b, 11, 13) ==> s - r == 3600 * (written(b, 11, 13) - written(
                a,
                11,
                13,
            ))
        }),
{
    lemma_fields(a);
    lemma_fields(b);
    if differ_between(a, b, 17, 19) || differ_between(a, b, 14, 16) || differ_between(a, b, 11, 13) {
        lemma_same_written(a, b, 0, 4);
        lemma_same_written(a, b, 5, 7);
        lemma_same_written(a, b, 8, 10);
    }
    if differ_between(a, b, 17, 19) || differ_between(a, b, 14, 16) {
        lemma_same_written(a, b, 11, 13);
    }
    if differ_between(a, b, 17, 19) || differ_between(a, b, 11, 13) {
        lemma_same_written(a, b, 14, 16);
    }
    if differ_between(a, b, 14, 16) || differ_between(a, b, 11, 13) {
        lemma_same_written(a, b, 17, 19);
    }
}

/// Whether the year has a twenty-ninth of February.
pub open spec fn has_leap_day(year: int) -> bool {
    (year % 4 == 0 && year % 100 != 0) || year % 400 == 0
}

/// Dates are as far apart as the calendar says. Of two that differ in their days
/// alone, a day for each. Of two that differ in their months alone, by one, as
/// many days as the first of the months has: thirty in April, June, September
/// and November, twenty-eight in February, or twenty-nine in a leap year, and
/// otherwise thirty-one. Of two that differ in their years alone, by one, three
/// hundred and sixty-five days, and one more where a leap day lies between them.
pub proof fn dates_are_as_far_apart_as_the_calendar_says(a: &str, b: &str, r: i64, s: i64)
    requires
        call_ensures(instant, (a,), Ok::<i64, AuthenticateError>(r)),
        call_ensures(instant, (b,), Ok::<i64, AuthenticateError>(s)),
    ensures
        differ_between(a@, b@, 8, 10) ==> s - r == 86_400 * (written(b@, 8, 10) - written(
            a@,
            8,
            10,
        )),
        differ_between(a@, b@, 5, 7) && written(b@, 5, 7) == written(a@, 5, 7) + 1 ==> ({
            let year = written(a@, 0, 4);
            let month = written(a@, 5, 7);
            s - r == 86_400 * if month == 4 || month == 6 || month == 9 || month == 11 {
                30
            } else if month != 2 {
                31
            } else if has_leap_day(year) {
                29
            } else {
                28int
            }
        }),
        differ_between(a@, b@, 0, 4) && written(b@, 0, 4) == written(a@, 0, 4) + 1 ==> ({
            let year = written(a@, 0, 4);
            s - r == 86_400 * if has_leap_day(
                if written(a@, 5, 7) <= 2 {
                    year
                } else {
                    year + 1
                },
            ) {
                366
            } else {
                365int
            }
        }),
{
    lemma_dates(a@, b@);
}

/// So it is with the points in time.
proof fn lemma_dates(a: Seq<char>, b: Seq<char>)
    requires
        instant_of(a) is Ok,
        instant_of(b) is Ok,
    ensures
        ({
            let r = instant_of(a)->Ok_0;
            let s = instant_of(b)->Ok_0;
            let year = written(a, 0, 4);
            let month = written(a, 5, 7);
            &&& differ_between(a, b, 8, 10) ==> s - r == 86_400 * (written(b, 8, 10) - written(
                a,
                8,
                10,
            ))
            &&& differ_between(a, b, 5, 7) && written(b, 5, 7) == month + 1 ==> s - r == 86_400
                * if month == 4 || month == 6 || month == 9 || month == 11 {
                30
            } else if month != 2 {
                31
            } else if has_leap_day(year) {
                29
            } else {
                28int
            }
            &&& differ_between(a, b, 0, 4) && written(b, 0, 4) == year + 1 ==> s - r == 86_400
                * if has_leap_day(
                if month <= 2 {
                    year
                } else {
                    year + 1
                },
            ) {
                366
            } else {
                365int
            }
        }),
{
    lemma_fields(a);
    lemma_fields(b);
    if differ_between(a, b, 8, 10) || differ_between(a, b, 5, 7) || differ_between(a, b, 0, 4) {
        lemma_same_written(a, b, 11, 13);
        lemma_same_written(a, b, 14, 16);
        lemma_same_written(a, b, 17, 19);
    }
    if differ_between(a, b, 8, 10) || differ_between(a, b, 5, 7) {
        lemma_same_written(a, b, 0, 4);
    }
    if differ_between(a, b, 8, 10) || differ_between(a, b, 0, 4) {
        lemma_same_written(a, b, 5, 7);
    }
    if differ_between(a, b, 5, 7) || differ_between(a, b, 0, 4) {
        lemma_same_written(a, b, 8, 10);
    }
    let year = written(a, 0, 4);
    let month = written(a, 5, 7);
    lemma_written_bound(a, 0, 4);
    assert(days_before_month(year, month + 1) == days_before_month(year, month) + days_in_month(
        year,
        month,
    ));
    assert(days_before_year(year + 1) == days_before_year(year) + days_in_year(year));
    lemma_months_of_two_years(year, month);
}

/// Digits write no negative number.
proof fn lemma_written_bound(s: Seq<char>, from: int, to: int)
    requires
        0 <= from <= to <= s.len(),
        digits_between(s, from, to),
    ensures
        written(s, from, to) >= 0,
    decreases to - from,
{
    if from < to {
        lemma_written_bound(s, from, to - 1);
        assert(decimal_digit(s[to - 1]));
    }
}

/// From one year to the next, the days before a month differ by the leap day.
proof fn lemma_months_of_two_years(year: int, month: int)
    requires
        1 <= month <= 12,
    ensures
        days_before_month(year + 1, month) - days_before_month(year, month) == if month <= 2 {
            0int
        } else {
            (if is_leap(year + 1) {
                1int
            } else {
                0int
            }) - (if is_leap(year) {
                1int
            } else {
                0int
            })
        },
{
    reveal_with_fuel(days_before_month, 13);
}

/// Times are counted from the beginning of the year 1970: of a time in its first
/// month, its days before it, its hours, its minutes and its seconds.
pub proof fn times_are_counted_from_1970(text: &str, at: i64)
    requires
        call_ensures(instant, (text,), Ok::<i64, AuthenticateError>(at)),
        written(text@, 0, 4) == 1970,
        written(text@, 5, 7) == 1,
    ensures
        at == (written(text@, 8, 10) - 1) * 86_400 + written(text@, 11, 13) * 3600 + written(
            text@,
            14,
            16,
        ) * 60 + written(text@, 17, 19),
{
    lemma_fields(text@);
}

/// A point in time lies well within the numbers that count seconds.
pub proof fn lemma_instant_bound(s: Seq<char>)
    ensures
        instant_of(s) matches Ok(at) ==> -100_000_000_000 < at < 400_000_000_000,
{
    if instant_of(s) is Ok {
        lemma_fields(s);
        let year = written(s, 0, 4);
        let month = written(s, 5, 7);
        lemma_four(s, 0);
        lemma_two(s, 17);
        lemma_two(s, 11);
        lemma_two(s, 14);
        lemma_years_bound(year);
        lemma_years_bound(1970);
        reveal_with_fuel(days_before_month, 13);
        assert(0 <= days_before_month(year, month) <= 366);
    }
}

/// Two digits write less than a hundred.
proof fn lemma_two(s: Seq<char>, from: int)
    requires
        0 <= from,
        from + 2 <= s.len(),
        digits_between(s, from, from + 2),
    ensures
        0 <= written(s, from, from + 2) < 100,
{
    reveal_with_fuel(written, 4);
    assert(decimal_digit(s[from]));
    assert(decimal_digit(s[from + 1]));
}

/// Four digits write less than ten thousand.
proof fn lemma_four(s: Seq<char>, from: int)
    requires
        0 <= from,
        from + 4 <= s.len(),
        digits_between(s, from, from + 4),
    ensures
        0 <= written(s, from, from + 4) < 10_000,
{
    reveal_with_fuel(written, 6);
    assert(decimal_digit(s[from]));
    assert(decimal_digit(s[from + 1]));
    assert(decimal_digit(s[from + 2]));
    assert(decimal_digit(s[from + 3]));
}

/// Years have no more than 366 days.
proof fn lemma_years_bound(year: int)
    requires
        0 <= year,
    ensures
        0 <= days_before_year(year) <= 366 * year,
    decreases year,
{
    if year > 0 {
        lemma_years_bound(year - 1);
    }
}

/// Seconds since the epoch are as many as there are, where they fit, and the most
/// that fit where they do not; before the epoch none are counted.
pub proof fn seconds_are_counted_as_they_are(since: Option<u64>, r: i64)
    requires
        call_ensures(epoch_seconds, (since,), r),
    ensures
        since matches Some(seconds) && seconds <= 0x7fff_ffff_ffff_ffff ==> r == since->Some_0,
        since matches Some(seconds) && seconds > 0x7fff_ffff_ffff_ffff ==> r
            == 0x7fff_ffff_ffff_ffff,
        since is None ==> r == 0,
        r == seconds_of(since),
{
}

} // verus!
