//! Laws of text: what is trimmed, packed, lowered, found and written.

use crate::text::{
    contains, decimal, digits, is_white_space, lemma_position_of, lowercase, lowered, occurs,
    packed, position, position_of, split_str, starts_with, to_decimal, trim, trim_end, trim_start,
    trimmed, white_space, without_white_space,
};
use vstd::prelude::*;

verus! {

/// Whether every character is white space.
pub open spec fn blank(s: Seq<char>) -> bool {
    forall|i: int| 0 <= i < s.len() ==> is_white_space(#[trigger] s[i])
}

/// Whether a text is another with white space put around it: what is within
/// neither begins nor ends with any.
pub open spec fn stripped(s: Seq<char>, within: Seq<char>) -> bool {
    &&& exists|before: Seq<char>, behind: Seq<char>|
        blank(before) && blank(behind) && s == #[trigger] (before + within + behind)
    &&& within.len() > 0 ==> !is_white_space(within[0]) && !is_white_space(within.last())
}

/// Leading white space is taken off.
pub proof fn lemma_trim_start(s: Seq<char>) -> (before: Seq<char>)
    ensures
        blank(before),
        s == before + trim_start(s),
        trim_start(s).len() > 0 ==> !is_white_space(trim_start(s)[0]),
    decreases s.len(),
{
    if s.len() > 0 && is_white_space(s[0]) {
        let rest = lemma_trim_start(s.drop_first());
        let before = seq![s[0]] + rest;
        assert(s =~= seq![s[0]] + s.drop_first());
        assert(s =~= before + trim_start(s.drop_first()));
        assert forall|i: int| 0 <= i < before.len() implies is_white_space(#[trigger] before[i]) by {
            if i > 0 {
                assert(before[i] == rest[i - 1]);
            }
        }
        before
    } else {
        assert(s =~= Seq::<char>::empty() + s);
        Seq::empty()
    }
}

/// Trailing white space is taken off.
proof fn lemma_trim_end(s: Seq<char>) -> (behind: Seq<char>)
    ensures
        blank(behind),
        s == trim_end(s) + behind,
        trim_end(s).len() > 0 ==> !is_white_space(trim_end(s).last()),
    decreases s.len(),
{
    if s.len() > 0 && is_white_space(s.last()) {
        let rest = lemma_trim_end(s.drop_last());
        let behind = rest.push(s.last());
        assert(s =~= s.drop_last().push(s.last()));
        assert(s =~= trim_end(s.drop_last()) + behind);
        behind
    } else {
        assert(s =~= s + Seq::<char>::empty());
        Seq::empty()
    }
}

/// Trimming takes the white space off both ends, and nothing else.
pub proof fn trimming_takes_off_white_space(s: Seq<char>)
    ensures
        stripped(s, trim(s)),
{
    let before = lemma_trim_start(s);
    let middle = trim_start(s);
    let behind = lemma_trim_end(middle);
    assert(s =~= before + trim(s) + behind);
    if trim(s).len() > 0 {
        assert(trim(s)[0] == middle[0]);
    }
}

/// So it is with what `trimmed` gives.
pub proof fn trimmed_is_without_white_space_around(text: &str, r: String)
    requires
        call_ensures(trimmed, (text,), r),
    ensures
        stripped(text@, r@),
{
    trimming_takes_off_white_space(text@);
}

/// White space is taken out wherever it stands, and every other character kept
/// in its place.
pub proof fn packing_takes_out_white_space(a: Seq<char>, c: char, b: Seq<char>)
    ensures
        without_white_space(a + seq![c] + b) == without_white_space(a) + (if is_white_space(c) {
            Seq::empty()
        } else {
            seq![c]
        }) + without_white_space(b),
        without_white_space(Seq::empty()).len() == 0,
    decreases b.len(),
{
    reveal(Seq::filter);
    let kept = |c: char| !is_white_space(c);
    if b.len() == 0 {
        assert(a + seq![c] + b =~= a.push(c));
        assert(a.push(c).drop_last() =~= a);
        assert(a.push(c).last() == c);
        assert(without_white_space(a + seq![c] + b) =~= without_white_space(a) + (
        if is_white_space(c) {
            Seq::empty()
        } else {
            seq![c]
        }) + without_white_space(b));
    } else {
        packing_takes_out_white_space(a, c, b.drop_last());
        let all = a + seq![c] + b;
        assert(all.drop_last() =~= a + seq![c] + b.drop_last());
        assert(all.last() == b.last());
        assert(without_white_space(all) =~= without_white_space(a) + (if is_white_space(c) {
            Seq::empty()
        } else {
            seq![c]
        }) + without_white_space(b));
    }
}

/// So it is with what `packed` gives.
pub proof fn packed_is_without_white_space(
    text: &Vec<char>,
    from: usize,
    to: usize,
    r: String,
    at: int,
)
    requires
        call_ensures(packed, (text, from, to), r),
        from <= at < to <= text@.len(),
    ensures
        r@ == without_white_space(text@.subrange(from as int, at)) + (if is_white_space(text@[at]) {
            Seq::empty()
        } else {
            seq![text@[at]]
        }) + without_white_space(text@.subrange(at + 1, to as int)),
{
    let before = text@.subrange(from as int, at);
    let behind = text@.subrange(at + 1, to as int);
    assert(text@.subrange(from as int, to as int) =~= before + seq![text@[at]] + behind);
    packing_takes_out_white_space(before, text@[at], behind);
}

/// In lower case a capital letter of ASCII is the small one, thirty-two codes on,
/// and every other character is as it was.
pub proof fn lowering_changes_capitals_alone(s: Seq<char>)
    ensures
        lowercase(s).len() == s.len(),
        forall|i: int|
            0 <= i < s.len() ==> (#[trigger] lowercase(s)[i]) as int == if 65 <= s[i] as int <= 90 {
                s[i] as int + 32
            } else {
                s[i] as int
            },
{
}

/// So it is with what `lowered` gives.
pub proof fn lowered_changes_capitals_alone(text: &str, r: String, i: int)
    requires
        call_ensures(lowered, (text,), r),
        0 <= i < text@.len(),
    ensures
        r@.len() == text@.len(),
        r@[i] as int == if 65 <= text@[i] as int <= 90 {
            text@[i] as int + 32
        } else {
            text@[i] as int
        },
{
    lowering_changes_capitals_alone(text@);
}

/// A pattern is found where it first stands: the text is what comes before, the
/// pattern and what comes after, and it stands nowhere before.
pub proof fn a_pattern_is_found_where_it_first_stands(s: Seq<char>, pattern: Seq<char>)
    ensures
        match position(s, pattern) {
            Some(at) => at + pattern.len() <= s.len() && s.subrange(
                at as int,
                (at + pattern.len()) as int,
            ) == pattern && forall|i: int|
                0 <= i < at && i + pattern.len() <= s.len() ==> #[trigger] s.subrange(
                    i,
                    i + pattern.len(),
                ) != pattern,
            None => forall|i: int|
                0 <= i && i + pattern.len() <= s.len() ==> #[trigger] s.subrange(
                    i,
                    i + pattern.len(),
                ) != pattern,
        },
    decreases s.len(),
{
    let length = pattern.len() as int;
    assert(s.len() >= length ==> s.subrange(0, length) =~= s.take(length));
    if s.len() > 0 {
        let rest = s.drop_first();
        a_pattern_is_found_where_it_first_stands(rest, pattern);
        assert forall|i: int| 0 <= i && i + length <= rest.len() implies rest.subrange(
            i,
            i + length,
        ) == #[trigger] s.subrange(i + 1, i + 1 + length) by {
            assert(rest.subrange(i, i + length) =~= s.subrange(i + 1, i + 1 + length));
        }
        if !starts_with(s, pattern) {
            match position(rest, pattern) {
                Some(at) => {
                    assert(rest.subrange(at as int, at + length) =~= s.subrange(
                        at as int + 1,
                        at as int + 1 + length,
                    ));
                    assert forall|i: int|
                        0 <= i < at + 1 && i + length <= s.len() implies #[trigger] s.subrange(
                        i,
                        i + length,
                    ) != pattern by {
                        if i > 0 {
                            assert(rest.subrange(i - 1, i - 1 + length) == s.subrange(
                                i - 1 + 1,
                                i - 1 + 1 + length,
                            ));
                        }
                    }
                },
                None => {
                    assert forall|i: int| 0 <= i && i + length <= s.len() implies #[trigger] s.subrange(
                        i,
                        i + length,
                    ) != pattern by {
                        if i > 0 {
                            assert(rest.subrange(i - 1, i - 1 + length) == s.subrange(
                                i - 1 + 1,
                                i - 1 + 1 + length,
                            ));
                        }
                    }
                },
            }
        }
    }
}

/// A pattern occurs in a text exactly where the text is something, the pattern
/// and something.
pub proof fn a_pattern_occurs_where_it_stands(text: &str, pattern: &str, r: bool)
    requires
        call_ensures(occurs, (text, pattern), r),
    ensures
        r <==> exists|before: Seq<char>, behind: Seq<char>|
            text@ == #[trigger] (before + pattern@ + behind),
{
    lemma_occurs(text@, pattern@);
}

/// So it is with a text that holds a pattern.
pub proof fn lemma_occurs(s: Seq<char>, pattern: Seq<char>)
    ensures
        contains(s, pattern) <==> exists|before: Seq<char>, behind: Seq<char>|
            s == #[trigger] (before + pattern + behind),
{
    if contains(s, pattern) {
        let i = choose|i: int| 0 <= i <= s.len() && #[trigger] starts_with(s.skip(i), pattern);
        let before = s.take(i);
        let behind = s.skip(i + pattern.len());
        assert(s.skip(i).take(pattern.len() as int) == pattern);
        assert(s =~= before + pattern + behind) by {
            assert forall|k: int| 0 <= k < s.len() implies #[trigger] s[k] == (before + pattern
                + behind)[k] by {
                if i <= k < i + pattern.len() {
                    assert(s.skip(i).take(pattern.len() as int)[k - i] == s[k]);
                }
            }
        }
    }
    if exists|before: Seq<char>, behind: Seq<char>| s == #[trigger] (before + pattern + behind) {
        let (before, behind) = choose|before: Seq<char>, behind: Seq<char>|
            s == #[trigger] (before + pattern + behind);
        let i = before.len() as int;
        assert(s.skip(i).take(pattern.len() as int) =~= pattern);
        assert(starts_with(s.skip(i), pattern));
    }
}

/// A text is split at the first of a character: what comes before holds none of
/// it, and what comes before, it and what comes after are the text.
pub proof fn a_text_is_split_at_the_first<'a>(
    text: &'a str,
    c: char,
    r: Option<(&'a str, &'a str)>,
)
    requires
        call_ensures(split_str, (text, c), r),
    ensures
        match r {
            Some((before, behind)) => !before@.contains(c) && text@ == before@.push(c) + behind@,
            None => !text@.contains(c),
        },
{
    lemma_position_of(text@, c);
    if let Some(at) = position_of(text@, c) {
        assert(text@ =~= text@.take(at as int).push(c) + text@.skip(at as int + 1));
    }
}

/// The digits of a number do not begin with a nought, unless they are one.
proof fn lemma_no_leading_nought(value: nat)
    ensures
        digits(value).len() > 0,
        value > 0 ==> digits(value)[0] != '0',
        forall|i: int| 0 <= i < digits(value).len() ==> '0' <= #[trigger] digits(value)[i] <= '9',
    decreases value,
{
    if value >= 10 {
        lemma_no_leading_nought(value / 10);
    }
}

/// A number is written in digits, the last of them its remainder by ten and those
/// before it what is left; with a minus sign before them where it is negative.
pub proof fn a_number_is_written_in_digits(value: i64, r: String)
    requires
        call_ensures(to_decimal, (value,), r),
    ensures
        0 <= value < 10 ==> r@ == seq![(48 + value) as char],
        value >= 10 ==> r@ == decimal(value as int / 10).push((48 + value as int % 10) as char),
        value < 0 ==> r@ == seq!['-'] + decimal(-(value as int)),
        value > 0 ==> r@[0] != '0',
{
    lemma_no_leading_nought((if value < 0 { -(value as int) } else { value as int }) as nat);
    reveal_strlit("-");
    assert("-"@ =~= seq!['-']);
}

/// The characters that are white space, by their codes: tab to carriage return, the
/// space, the next line, the spaces of other scripts and widths, and the line and
/// paragraph separators.
pub proof fn characters_are_white_space_by_their_codes(c: char, r: bool)
    requires
        call_ensures(white_space, (c,), r),
    ensures
        r <==> {
            let code = c as int;
            9 <= code <= 13 || code == 32 || code == 0x85 || code == 0xa0 || code == 0x1680
                || 0x2000 <= code <= 0x200a || code == 0x2028 || code == 0x2029 || code == 0x202f
                || code == 0x205f || code == 0x3000
        },
        r == is_white_space(c),
{
}

} // verus!
