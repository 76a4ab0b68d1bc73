//! Character sequences: the searching, trimming and splitting the reader and
//! the checks are stated in.

use vstd::prelude::*;

verus! {

/// The Unicode `White_Space` property.
pub open spec fn is_white_space(c: char) -> bool {
    ||| '\u{9}' <= c <= '\u{d}'
    ||| c == ' '
    ||| c == '\u{85}'
    ||| c == '\u{a0}'
    ||| c == '\u{1680}'
    ||| '\u{2000}' <= c <= '\u{200a}'
    ||| c == '\u{2028}'
    ||| c == '\u{2029}'
    ||| c == '\u{202f}'
    ||| c == '\u{205f}'
    ||| c == '\u{3000}'
}

/// Whether a character is white space.
pub fn white_space(c: char) -> (r: bool)
    ensures
        r == is_white_space(c),
{
    ('\u{9}' <= c && c <= '\u{d}') || c == ' ' || c == '\u{85}' || c == '\u{a0}' || c == '\u{1680}'
        || ('\u{2000}' <= c && c <= '\u{200a}') || c == '\u{2028}' || c == '\u{2029}'
        || c == '\u{202f}' || c == '\u{205f}' || c == '\u{3000}'
}

/// The text without its leading white space.
pub open spec fn trim_start(s: Seq<char>) -> Seq<char>
    decreases s.len(),
{
    if s.len() > 0 && is_white_space(s[0]) {
        trim_start(s.drop_first())
    } else {
        s
    }
}

/// The text without its trailing white space.
pub open spec fn trim_end(s: Seq<char>) -> Seq<char>
    decreases s.len(),
{
    if s.len() > 0 && is_white_space(s.last()) {
        trim_end(s.drop_last())
    } else {
        s
    }
}

/// The text with its white space taken off both ends.
pub open spec fn trim(s: Seq<char>) -> Seq<char> {
    trim_end(trim_start(s))
}

/// Whether the text begins with the pattern.
pub open spec fn starts_with(s: Seq<char>, pattern: Seq<char>) -> bool {
    pattern.len() <= s.len() && s.take(pattern.len() as int) == pattern
}

/// Where the pattern first occurs in the text.
pub open spec fn position(s: Seq<char>, pattern: Seq<char>) -> Option<nat>
    decreases s.len(),
{
    if starts_with(s, pattern) {
        Some(0)
    } else if s.len() == 0 {
        None
    } else {
        match position(s.drop_first(), pattern) {
            Some(at) => Some(at + 1),
            None => None,
        }
    }
}

/// Where the character first occurs in the text.
pub open spec fn position_of(s: Seq<char>, c: char) -> Option<nat>
    decreases s.len(),
{
    if s.len() == 0 {
        None
    } else if s[0] == c {
        Some(0)
    } else {
        match position_of(s.drop_first(), c) {
            Some(at) => Some(at + 1),
            None => None,
        }
    }
}

/// What stands before and after the first occurrence of the character.
pub open spec fn split_once(s: Seq<char>, c: char) -> Option<(Seq<char>, Seq<char>)> {
    match position_of(s, c) {
        Some(at) => Some((s.take(at as int), s.skip(at as int + 1))),
        None => None,
    }
}

/// Whether the pattern occurs in the text.
pub open spec fn contains(s: Seq<char>, pattern: Seq<char>) -> bool {
    exists|i: int| 0 <= i <= s.len() && #[trigger] starts_with(s.skip(i), pattern)
}

/// A character is found at its first occurrence, and not found only where there
/// is none.
pub proof fn lemma_position_of(s: Seq<char>, c: char)
    ensures
        match position_of(s, c) {
            Some(at) => at < s.len() && s[at as int] == c && !s.take(at as int).contains(c),
            None => !s.contains(c),
        },
    decreases s.len(),
{
    if s.len() > 0 && s[0] != c {
        let rest = s.drop_first();
        lemma_position_of(rest, c);
        match position_of(rest, c) {
            Some(at) => {
                let before = s.take(at as int + 1);
                let shorter = rest.take(at as int);
                assert forall|k: int| 0 <= k < before.len() implies #[trigger] before[k] != c by {
                    if k > 0 && before[k] == c {
                        assert(shorter[k - 1] == c);
                    }
                }
            },
            None => {
                assert forall|k: int| 0 <= k < s.len() implies #[trigger] s[k] != c by {
                    if k > 0 && s[k] == c {
                        assert(rest[k - 1] == c);
                    }
                }
            },
        }
    }
}

/// The character sequences of a list of strings.
pub open spec fn strings_view(strings: Seq<String>) -> Seq<Seq<char>> {
    Seq::new(strings.len(), |i: int| strings[i]@)
}

/// The characters of a string.
pub fn to_chars(s: &str) -> (r: Vec<char>)
    ensures
        r@ == s@,
{
    let mut out: Vec<char> = Vec::new();
    for c in it: s.chars()
        invariant
            it.seq() == s@,
            out@ == s@.take(it.index() as int),
    {
        out.push(c);
    }
    out
}

/// The characters from `from` up to `to`, as a string.
pub fn slice(text: &Vec<char>, from: usize, to: usize) -> (r: String)
    requires
        from <= to <= text.len(),
    ensures
        r@ == text@.subrange(from as int, to as int),
{
    let mut out = String::new();
    let mut i: usize = from;
    while i < to
        invariant
            from <= i <= to <= text.len(),
            out@ == text@.subrange(from as int, i as int),
        decreases to - i,
    {
        out.push(text[i]);
        i += 1;
    }
    out
}

/// Whether two strings hold the same characters.
pub fn same(a: &str, b: &str) -> (r: bool)
    ensures
        r == (a@ == b@),
{
    let left = to_chars(a);
    let right = to_chars(b);
    if left.len() != right.len() {
        return false;
    }
    let mut i: usize = 0;
    while i < left.len()
        invariant
            left@ == a@,
            right@ == b@,
            i <= left.len(),
            left.len() == right.len(),
            forall|j: int| 0 <= j < i ==> left@[j] == right@[j],
        decreases left.len() - i,
    {
        if left[i] != right[i] {
            return false;
        }
        i += 1;
    }
    assert(left@ =~= right@);
    true
}

/// Whether the text, read from `at`, begins with the pattern.
pub fn starts_at(text: &Vec<char>, at: usize, pattern: &str) -> (r: bool)
    requires
        at <= text.len(),
    ensures
        r == starts_with(text@.skip(at as int), pattern@),
{
    let wanted = to_chars(pattern);
    if wanted.len() > text.len() - at {
        return false;
    }
    let ghost head = text@.skip(at as int).take(wanted.len() as int);
    let mut i: usize = 0;
    while i < wanted.len()
        invariant
            wanted@ == pattern@,
            i <= wanted.len() <= text.len() - at,
            head == text@.skip(at as int).take(wanted.len() as int),
            forall|j: int| 0 <= j < i ==> head[j] == wanted@[j],
        decreases wanted.len() - i,
    {
        if text[at + i] != wanted[i] {
            assert(head[i as int] != pattern@[i as int]);
            return false;
        }
        i += 1;
    }
    assert(head =~= pattern@);
    true
}

/// The index at which the pattern first occurs, reading from `at`.
pub fn find_from(text: &Vec<char>, at: usize, pattern: &str) -> (r: Option<usize>)
    requires
        at <= text.len(),
    ensures
        match r {
            Some(found) => at <= found && found + pattern@.len() <= text.len() && position(
                text@.skip(at as int),
                pattern@,
            ) == Some((found - at) as nat),
            None => position(text@.skip(at as int), pattern@) is None,
        },
{
    let mut i: usize = at;
    loop
        invariant
            at <= i <= text.len(),
            match position(text@.skip(i as int), pattern@) {
                Some(k) => position(text@.skip(at as int), pattern@) == Some((k + i - at) as nat),
                None => position(text@.skip(at as int), pattern@) is None,
            },
        decreases text.len() - i,
    {
        if starts_at(text, i, pattern) {
            return Some(i);
        }
        if i == text.len() {
            return None;
        }
        assert(text@.skip(i as int).drop_first() =~= text@.skip(i + 1));
        i += 1;
    }
}

/// The index at which the character first occurs, reading from `at`.
pub fn find_char(text: &Vec<char>, at: usize, c: char) -> (r: Option<usize>)
    requires
        at <= text.len(),
    ensures
        match r {
            Some(found) => at <= found < text.len() && position_of(text@.skip(at as int), c)
                == Some((found - at) as nat),
            None => position_of(text@.skip(at as int), c) is None,
        },
{
    let mut i: usize = at;
    while i < text.len()
        invariant
            at <= i <= text.len(),
            match position_of(text@.skip(i as int), c) {
                Some(k) => position_of(text@.skip(at as int), c) == Some((k + i - at) as nat),
                None => position_of(text@.skip(at as int), c) is None,
            },
        decreases text.len() - i,
    {
        if text[i] == c {
            return Some(i);
        }
        assert(text@.skip(i as int).drop_first() =~= text@.skip(i + 1));
        i += 1;
    }
    None
}

/// Whether the character occurs in the text.
pub fn holds_char(text: &str, c: char) -> (r: bool)
    ensures
        r == text@.contains(c),
{
    let chars = to_chars(text);
    assert(chars@.skip(0) =~= text@);
    proof {
        lemma_position_of(text@, c);
    }
    match find_char(&chars, 0, c) {
        Some(at) => {
            assert(text@[at as int] == c);
            true
        },
        None => false,
    }
}

/// What stands before and after the first occurrence of the character.
pub fn split_str<'a>(text: &'a str, c: char) -> (r: Option<(&'a str, &'a str)>)
    ensures
        match r {
            Some((before, after)) => split_once(text@, c) == Some((before@, after@)),
            None => split_once(text@, c) is None,
        },
{
    let chars = to_chars(text);
    assert(chars@.skip(0) =~= text@);
    match find_char(&chars, 0, c) {
        Some(at) => {
            assert(text@.subrange(0, at as int) =~= text@.take(at as int));
            assert(text@.subrange(at + 1, text@.len() as int) =~= text@.skip(at + 1));
            Some((text.substring_char(0, at), text.substring_char(at + 1, chars.len())))
        },
        None => None,
    }
}

/// The index at which the white space beginning at `at` ends.
pub fn skip_white_space(text: &Vec<char>, at: usize) -> (r: usize)
    requires
        at <= text.len(),
    ensures
        at <= r <= text.len(),
        text@.skip(r as int) == trim_start(text@.skip(at as int)),
{
    let mut i: usize = at;
    while i < text.len() && white_space(text[i])
        invariant
            at <= i <= text.len(),
            trim_start(text@.skip(i as int)) == trim_start(text@.skip(at as int)),
        decreases text.len() - i,
    {
        assert(text@.skip(i as int).drop_first() =~= text@.skip(i + 1));
        i += 1;
    }
    i
}

/// The index at which the white space ending before `end` begins, down to `from`.
fn drop_white_space(text: &Vec<char>, from: usize) -> (r: usize)
    requires
        from <= text.len(),
    ensures
        from <= r <= text.len(),
        text@.subrange(from as int, r as int) == trim_end(text@.skip(from as int)),
{
    let mut end: usize = text.len();
    assert(text@.subrange(from as int, end as int) =~= text@.skip(from as int));
    while end > from && white_space(text[end - 1])
        invariant
            from <= end <= text.len(),
            trim_end(text@.subrange(from as int, end as int)) == trim_end(text@.skip(from as int)),
        decreases end,
    {
        assert(text@.subrange(from as int, end as int).drop_last() =~= text@.subrange(
            from as int,
            end - 1,
        ));
        end -= 1;
    }
    end
}

/// The text with its white space taken off both ends.
pub fn trimmed(text: &str) -> (r: String)
    ensures
        r@ == trim(text@),
{
    let chars = to_chars(text);
    assert(chars@.skip(0) =~= text@);
    let from = skip_white_space(&chars, 0);
    let to = drop_white_space(&chars, from);
    slice(&chars, from, to)
}

/// The text with all of its white space taken out.
pub open spec fn without_white_space(s: Seq<char>) -> Seq<char> {
    s.filter(|c: char| !is_white_space(c))
}

/// The characters from `from` up to `to`, without white space.
pub fn packed(text: &Vec<char>, from: usize, to: usize) -> (r: String)
    requires
        from <= to <= text.len(),
    ensures
        r@ == without_white_space(text@.subrange(from as int, to as int)),
{
    let ghost kept = |c: char| !is_white_space(c);
    let ghost all = text@.subrange(from as int, to as int);
    let mut out = String::new();
    let mut i: usize = from;
    assert(out@ =~= all.take(0).filter(kept)) by {
        reveal(Seq::filter);
    }
    while i < to
        invariant
            from <= i <= to <= text.len(),
            kept == (|c: char| !is_white_space(c)),
            all == text@.subrange(from as int, to as int),
            out@ == all.take(i - from).filter(kept),
        decreases to - i,
    {
        proof {
            reveal(Seq::filter);
            assert(all.take(i + 1 - from).drop_last() =~= all.take(i - from));
        }
        if !white_space(text[i]) {
            out.push(text[i]);
        }
        i += 1;
    }
    assert(all.take(i - from) =~= all);
    out
}

/// A character in ASCII lower case.
pub open spec fn lower(c: char) -> char {
    if 'A' <= c <= 'Z' {
        (c as int + 32) as char
    } else {
        c
    }
}

/// The text in ASCII lower case.
pub open spec fn lowercase(s: Seq<char>) -> Seq<char> {
    s.map_values(|c: char| lower(c))
}

/// A character in ASCII lower case.
fn lower_char(c: char) -> (r: char)
    ensures
        r == lower(c),
{
    if 'A' <= c && c <= 'Z' {
        (c as u8 + 32) as char
    } else {
        c
    }
}

/// The text in ASCII lower case.
pub fn lowered(text: &str) -> (r: String)
    ensures
        r@ == lowercase(text@),
{
    let chars = to_chars(text);
    let mut out = String::new();
    let mut i: usize = 0;
    while i < chars.len()
        invariant
            i <= chars.len(),
            chars@ == text@,
            out@ == lowercase(text@.take(i as int)),
        decreases chars.len() - i,
    {
        out.push(lower_char(chars[i]));
        assert(out@ =~= lowercase(text@.take(i + 1)));
        i += 1;
    }
    assert(text@.take(i as int) =~= text@);
    out
}

/// A pattern is found exactly where it occurs.
pub proof fn lemma_position_contains(s: Seq<char>, pattern: Seq<char>)
    ensures
        position(s, pattern) is Some <==> contains(s, pattern),
    decreases s.len(),
{
    assert(s.skip(0) =~= s);
    if !starts_with(s, pattern) && s.len() > 0 {
        let rest = s.drop_first();
        lemma_position_contains(rest, pattern);
        if contains(rest, pattern) {
            let i = choose|i: int| 0 <= i <= rest.len() && #[trigger] starts_with(rest.skip(i), pattern);
            assert(rest.skip(i) =~= s.skip(i + 1));
            assert(starts_with(s.skip(i + 1), pattern));
        }
        if contains(s, pattern) {
            let i = choose|i: int| 0 <= i <= s.len() && #[trigger] starts_with(s.skip(i), pattern);
            assert(i > 0);
            assert(rest.skip(i - 1) =~= s.skip(i));
            assert(starts_with(rest.skip(i - 1), pattern));
        }
    }
}

/// Whether the pattern occurs in the text.
pub fn occurs(text: &str, pattern: &str) -> (r: bool)
    ensures
        r == contains(text@, pattern@),
{
    let chars = to_chars(text);
    assert(chars@.skip(0) =~= text@);
    proof {
        lemma_position_contains(text@, pattern@);
    }
    find_from(&chars, 0, pattern).is_some()
}

/// The decimal digits of a number.
pub open spec fn digits(value: nat) -> Seq<char>
    decreases value,
{
    let low = ('0' as int + value % 10) as char;
    if value < 10 {
        seq![low]
    } else {
        digits(value / 10).push(low)
    }
}

/// A number in decimal, with a minus sign where it is negative.
pub open spec fn decimal(value: int) -> Seq<char> {
    if value < 0 {
        "-"@ + digits((-value) as nat)
    } else {
        digits(value as nat)
    }
}

/// The decimal digits of a number.
fn write_digits(value: u64) -> (r: String)
    ensures
        r@ == digits(value as nat),
    decreases value,
{
    let low = ('0' as u8 + (value % 10) as u8) as char;
    let mut out = if value < 10 {
        String::new()
    } else {
        write_digits(value / 10)
    };
    out.push(low);
    assert(value < 10 ==> out@ =~= seq![low]);
    out
}

/// A number in decimal, with a minus sign where it is negative.
pub fn to_decimal(value: i64) -> (r: String)
    ensures
        r@ == decimal(value as int),
{
    if value >= 0 {
        return write_digits(value as u64);
    }
    let magnitude: u64 = (-(value as i128)) as u64;
    let mut out = "-".to_owned();
    out.append(write_digits(magnitude).as_str());
    out
}

} // verus!
