//! Laws of times: of the calendar, of a `dateTime`, and of the seconds a refusal
//! names.

use crate::instant::{
    days_before_month, days_before_year, days_in_month, days_in_year, days_since_epoch, has_shape,
    instant_of,
};
use crate::reader::{digit, number};
use crate::text::{decimal, digits};
use vstd::prelude::*;

verus! {

/// The calendar has no gap: a day is counted one more than the day before it, in
/// a month, at the end of a month, and at the end of a year.
pub proof fn the_calendar_has_no_gap(year: int, month: int, day: int)
    requires
        year >= 0,
        1 <= month <= 12,
    ensures
        days_since_epoch(year, month, day + 1) == days_since_epoch(year, month, day) + 1,
        month < 12 ==> days_since_epoch(year, month + 1, 1) == days_since_epoch(
            year,
            month,
            days_in_month(year, month),
        ) + 1,
        month == 12 ==> days_since_epoch(year + 1, 1, 1) == days_since_epoch(
            year,
            month,
            days_in_month(year, month),
        ) + 1,
{
    reveal_with_fuel(days_before_month, 13);
    assert(days_before_year(year + 1) == days_before_year(year) + days_in_year(year));
}

/// A `dateTime` ends in `Z`, and a fraction of a second makes no difference to
/// it.
pub proof fn a_fraction_is_dropped(text: Seq<char>)
    requires
        instant_of(text) is Ok,
    ensures
        text.last() == 'Z',
        instant_of(text.take(19).push('Z')) == instant_of(text),
{
    let whole = text.take(19).push('Z');
    assert(whole.subrange(0, 4) =~= text.subrange(0, 4));
    assert(whole.subrange(5, 7) =~= text.subrange(5, 7));
    assert(whole.subrange(8, 10) =~= text.subrange(8, 10));
    assert(whole.subrange(11, 13) =~= text.subrange(11, 13));
    assert(whole.subrange(14, 16) =~= text.subrange(14, 16));
    assert(whole.subrange(17, 19) =~= text.subrange(17, 19));
    assert(has_shape(whole));
}

/// The digits of a number read as that number.
pub proof fn digits_read_back(value: nat)
    ensures
        number(digits(value), 10) == Some(value),
    decreases value,
{
    let low = ('0' as int + value % 10) as char;
    assert(digit(low, 10) == Some((value % 10) as nat));
    if value < 10 {
        assert(seq![low].last() == low);
    } else {
        digits_read_back(value / 10);
        let high = digits(value / 10);
        assert(high.push(low).drop_last() =~= high);
        assert(high.len() > 0);
    }
}

/// Two numbers are never written alike.
pub proof fn decimals_differ(a: int, b: int)
    requires
        decimal(a) == decimal(b),
    ensures
        a == b,
{
    reveal_strlit("-");
    lemma_first_digit((if a < 0 { -a } else { a }) as nat);
    lemma_first_digit((if b < 0 { -b } else { b }) as nat);
    digits_read_back((if a < 0 { -a } else { a }) as nat);
    digits_read_back((if b < 0 { -b } else { b }) as nat);
    if a < 0 {
        assert(decimal(a)[0] == '-');
        assert(decimal(a).skip(1) =~= digits((-a) as nat));
    }
    if b < 0 {
        assert(decimal(b)[0] == '-');
        assert(decimal(b).skip(1) =~= digits((-b) as nat));
    }
}

/// Digits are not nothing, and do not begin with a minus sign.
proof fn lemma_first_digit(value: nat)
    ensures
        digits(value).len() > 0,
        digits(value)[0] != '-',
    decreases value,
{
    if value >= 10 {
        lemma_first_digit(value / 10);
    }
}

} // verus!
