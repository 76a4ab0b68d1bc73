//! Laws of escaping: what is escaped reads back as it was, and holds no markup.

use crate::c14n::{attribute_escape, escaped_attribute, escaped_text, text_escape};
use crate::reader::{entity, number, unescaped};
use crate::text::{lemma_position_of, position_of};
use vstd::prelude::*;

verus! {

/// A character stands where a text without it ends.
pub proof fn lemma_position_after(before: Seq<char>, c: char, rest: Seq<char>)
    requires
        !before.contains(c),
    ensures
        position_of(before.push(c) + rest, c) == Some(before.len()),
    decreases before.len(),
{
    let whole = before.push(c) + rest;
    if before.len() == 0 {
        assert(whole[0] == c);
    } else {
        let shorter = before.drop_first();
        assert(before.contains(before[0]));
        assert(whole[0] == before[0]);
        assert forall|i: int| 0 <= i < shorter.len() implies shorter[i] != c by {
            assert(before.contains(before[i + 1]));
        }
        lemma_position_after(shorter, c, rest);
        assert(whole.drop_first() =~= shorter.push(c) + rest);
    }
}

/// A character that opens no entity is read as it is.
proof fn lemma_plain(c: char, rest: Seq<char>)
    requires
        c != '&',
        unescaped(rest) is Ok,
    ensures
        unescaped(seq![c] + rest) == Ok::<Seq<char>, Seq<char>>(seq![c] + unescaped(rest)->Ok_0),
{
    let whole = seq![c] + rest;
    assert(whole.drop_first() =~= rest);
    assert(whole[0] == c);
    if let Some(at) = position_of(rest, '&') {
        assert(position_of(whole, '&') == Some(at + 1));
        lemma_position_of(rest, '&');
        let after = rest.skip(at as int + 1);
        assert(whole.skip(at as int + 2) =~= after);
        if let Some(end) = position_of(after, ';') {
            if let Ok(e) = entity(after.take(end as int)) {
                if let Ok(left) = unescaped(after.skip(end as int + 1)) {
                    assert(whole.take(at as int + 1).push(e) + left =~= seq![c] + (rest.take(
                        at as int,
                    ).push(e) + left));
                }
            }
        }
    }
}

/// An entity is read as the character it stands for.
proof fn lemma_entity(name: Seq<char>, c: char, rest: Seq<char>)
    requires
        !name.contains(';'),
        entity(name) == Ok::<char, Seq<char>>(c),
        unescaped(rest) is Ok,
    ensures
        unescaped(seq!['&'] + name + seq![';'] + rest) == Ok::<Seq<char>, Seq<char>>(
            seq![c] + unescaped(rest)->Ok_0,
        ),
{
    let whole = seq!['&'] + name + seq![';'] + rest;
    assert(whole[0] == '&');
    assert(position_of(whole, '&') == Some(0nat));
    let after = whole.skip(1);
    assert(after =~= name.push(';') + rest);
    lemma_position_after(name, ';', rest);
    assert(after.take(name.len() as int) =~= name);
    assert(after.skip(name.len() as int + 1) =~= rest);
    let left = unescaped(rest)->Ok_0;
    assert(whole.take(0).push(c) + left =~= seq![c] + left);
}

/// Whether this is how a reference is written to the entity of this name, which
/// stands for the character.
spec fn reference(written: Seq<char>, name: Seq<char>, c: char) -> bool {
    written == seq!['&'] + name + seq![';'] && !name.contains(';') && entity(name) == Ok::<
        char,
        Seq<char>,
    >(c)
}

/// A reference, then other text, reads as the character, then the other text.
proof fn lemma_reference(written: Seq<char>, name: Seq<char>, c: char, rest: Seq<char>)
    requires
        reference(written, name, c),
        unescaped(rest) is Ok,
    ensures
        unescaped(written + rest) == Ok::<Seq<char>, Seq<char>>(seq![c] + unescaped(rest)->Ok_0),
{
    lemma_entity(name, c, rest);
}

/// The entities that are predefined stand for their characters.
proof fn lemma_predefined()
    ensures
        reference("&amp;"@, "amp"@, '&'),
        reference("&lt;"@, "lt"@, '<'),
        reference("&gt;"@, "gt"@, '>'),
        reference("&quot;"@, "quot"@, '"'),
{
    reveal_strlit("amp");
    reveal_strlit("&amp;");
    reveal_strlit("lt");
    reveal_strlit("&lt;");
    reveal_strlit("gt");
    reveal_strlit("&gt;");
    reveal_strlit("quot");
    reveal_strlit("&quot;");
    assert("amp"@.len() == 3 && "lt"@.len() == 2 && "gt"@.len() == 2 && "quot"@.len() == 4);
    assert("gt"@[0] != "lt"@[0]);
    assert("&amp;"@ =~= seq!['&'] + "amp"@ + seq![';']);
    assert("&lt;"@ =~= seq!['&'] + "lt"@ + seq![';']);
    assert("&gt;"@ =~= seq!['&'] + "gt"@ + seq![';']);
    assert("&quot;"@ =~= seq!['&'] + "quot"@ + seq![';']);
}

/// A hexadecimal reference stands for the character of that code.
proof fn lemma_hexadecimal(name: Seq<char>, low: char)
    requires
        name == seq!['#', 'x', low],
        low == 'D' || low == 'A' || low == '9',
    ensures
        entity(name) == Ok::<char, Seq<char>>(
            if low == 'D' {
                '\r'
            } else if low == 'A' {
                '\n'
            } else {
                '\t'
            },
        ),
{
    reveal_strlit("lt");
    reveal_strlit("gt");
    reveal_strlit("amp");
    reveal_strlit("quot");
    reveal_strlit("apos");
    reveal_strlit("#x");
    assert("amp"@[0] == 'a');
    assert("lt"@.len() == 2 && "gt"@.len() == 2 && "quot"@.len() == 4 && "apos"@.len() == 4);
    assert(name[0] == '#');
    assert(name.take(2) =~= "#x"@);
    assert(name.skip(2) =~= seq![low]);
    assert(seq![low].last() == low);
    assert(number(seq![low], 16) is Some);
}

/// The control characters that are escaped are written as references to them.
proof fn lemma_controls()
    ensures
        reference("&#x9;"@, "#x9"@, '\t'),
        reference("&#xA;"@, "#xA"@, '\n'),
        reference("&#xD;"@, "#xD"@, '\r'),
{
    reveal_strlit("#x9");
    reveal_strlit("&#x9;");
    reveal_strlit("#xA");
    reveal_strlit("&#xA;");
    reveal_strlit("#xD");
    reveal_strlit("&#xD;");
    assert("#x9"@ =~= seq!['#', 'x', '9']);
    assert("#xA"@ =~= seq!['#', 'x', 'A']);
    assert("#xD"@ =~= seq!['#', 'x', 'D']);
    lemma_hexadecimal("#x9"@, '9');
    lemma_hexadecimal("#xA"@, 'A');
    lemma_hexadecimal("#xD"@, 'D');
    assert("&#x9;"@ =~= seq!['&'] + "#x9"@ + seq![';']);
    assert("&#xA;"@ =~= seq!['&'] + "#xA"@ + seq![';']);
    assert("&#xD;"@ =~= seq!['&'] + "#xD"@ + seq![';']);
}

/// The escape of a character of text, then other text, reads as the character,
/// then the other text.
proof fn lemma_text_escape(c: char, rest: Seq<char>)
    requires
        unescaped(rest) is Ok,
    ensures
        unescaped(text_escape(c) + rest) == Ok::<Seq<char>, Seq<char>>(
            seq![c] + unescaped(rest)->Ok_0,
        ),
{
    lemma_predefined();
    lemma_controls();
    if c == '&' {
        lemma_reference("&amp;"@, "amp"@, c, rest);
    } else if c == '<' {
        lemma_reference("&lt;"@, "lt"@, c, rest);
    } else if c == '>' {
        lemma_reference("&gt;"@, "gt"@, c, rest);
    } else if c == '\r' {
        lemma_reference("&#xD;"@, "#xD"@, c, rest);
    } else {
        lemma_plain(c, rest);
    }
}

/// The escape of a character of an attribute value, then more of it, reads as
/// the character, then the rest.
proof fn lemma_attribute_escape(c: char, rest: Seq<char>)
    requires
        unescaped(rest) is Ok,
    ensures
        unescaped(attribute_escape(c) + rest) == Ok::<Seq<char>, Seq<char>>(
            seq![c] + unescaped(rest)->Ok_0,
        ),
{
    lemma_predefined();
    lemma_controls();
    if c == '&' {
        lemma_reference("&amp;"@, "amp"@, c, rest);
    } else if c == '<' {
        lemma_reference("&lt;"@, "lt"@, c, rest);
    } else if c == '"' {
        lemma_reference("&quot;"@, "quot"@, c, rest);
    } else if c == '\t' {
        lemma_reference("&#x9;"@, "#x9"@, c, rest);
    } else if c == '\n' {
        lemma_reference("&#xA;"@, "#xA"@, c, rest);
    } else if c == '\r' {
        lemma_reference("&#xD;"@, "#xD"@, c, rest);
    } else {
        lemma_plain(c, rest);
    }
}

/// Text escaped, then other escaped text, reads as the one, then the other.
pub proof fn lemma_text_before(text: Seq<char>, rest: Seq<char>)
    requires
        unescaped(rest) is Ok,
    ensures
        unescaped(escaped_text(text) + rest) == Ok::<Seq<char>, Seq<char>>(
            text + unescaped(rest)->Ok_0,
        ),
    decreases text.len(),
{
    if text.len() == 0 {
        assert(escaped_text(text) + rest =~= rest);
        assert(text + unescaped(rest)->Ok_0 =~= unescaped(rest)->Ok_0);
    } else {
        let last = text_escape(text.last());
        lemma_text_escape(text.last(), rest);
        lemma_text_before(text.drop_last(), last + rest);
        assert(escaped_text(text) + rest =~= escaped_text(text.drop_last()) + (last + rest));
        assert(text.drop_last() + (seq![text.last()] + unescaped(rest)->Ok_0) =~= text + unescaped(
            rest,
        )->Ok_0);
    }
}

/// An attribute value escaped, then other escaped text, reads as the one, then
/// the other.
proof fn lemma_attribute_before(value: Seq<char>, rest: Seq<char>)
    requires
        unescaped(rest) is Ok,
    ensures
        unescaped(escaped_attribute(value) + rest) == Ok::<Seq<char>, Seq<char>>(
            value + unescaped(rest)->Ok_0,
        ),
    decreases value.len(),
{
    if value.len() == 0 {
        assert(escaped_attribute(value) + rest =~= rest);
        assert(value + unescaped(rest)->Ok_0 =~= unescaped(rest)->Ok_0);
    } else {
        let last = attribute_escape(value.last());
        lemma_attribute_escape(value.last(), rest);
        lemma_attribute_before(value.drop_last(), last + rest);
        assert(escaped_attribute(value) + rest =~= escaped_attribute(value.drop_last()) + (last
            + rest));
        assert(value.drop_last() + (seq![value.last()] + unescaped(rest)->Ok_0) =~= value
            + unescaped(rest)->Ok_0);
    }
}

/// Text is escaped character by character: two parts as the one, then the other;
/// an ampersand, the two brackets and a carriage return each as its reference,
/// and any other character as it is.
pub proof fn text_is_escaped_character_by_character(a: Seq<char>, c: char, b: Seq<char>)
    ensures
        escaped_text(a + seq![c] + b) == escaped_text(a) + escaped_text(seq![c]) + escaped_text(b),
        c == '&' ==> escaped_text(seq![c]) == "&amp;"@,
        c == '<' ==> escaped_text(seq![c]) == "&lt;"@,
        c == '>' ==> escaped_text(seq![c]) == "&gt;"@,
        c == '\r' ==> escaped_text(seq![c]) == "&#xD;"@,
        c != '&' && c != '<' && c != '>' && c != '\r' ==> escaped_text(seq![c]) == seq![c],
        escaped_text(Seq::empty()).len() == 0,
    decreases b.len(),
{
    let one = seq![c];
    assert(one.drop_last() =~= Seq::empty());
    assert(escaped_text(Seq::empty()) =~= Seq::empty());
    assert(escaped_text(one) =~= text_escape(c));
    if b.len() == 0 {
        assert(a + one + b =~= a.push(c));
        assert(a.push(c).drop_last() =~= a);
        assert(escaped_text(a) + escaped_text(one) + escaped_text(b) =~= escaped_text(a)
            + escaped_text(one));
    } else {
        text_is_escaped_character_by_character(a, c, b.drop_last());
        assert((a + one + b).drop_last() =~= a + one + b.drop_last());
        assert((a + one + b).last() == b.last());
        assert(escaped_text(a + one + b) =~= escaped_text(a) + escaped_text(one) + escaped_text(b));
    }
}

/// An attribute value is escaped character by character: an ampersand, an opening
/// bracket, a quotation mark, a tab, a line feed and a carriage return each as its
/// reference, and any other character as it is.
pub proof fn a_value_is_escaped_character_by_character(a: Seq<char>, c: char, b: Seq<char>)
    ensures
        escaped_attribute(a + seq![c] + b) == escaped_attribute(a) + escaped_attribute(seq![c])
            + escaped_attribute(b),
        c == '&' ==> escaped_attribute(seq![c]) == "&amp;"@,
        c == '<' ==> escaped_attribute(seq![c]) == "&lt;"@,
        c == '"' ==> escaped_attribute(seq![c]) == "&quot;"@,
        c == '\t' ==> escaped_attribute(seq![c]) == "&#x9;"@,
        c == '\n' ==> escaped_attribute(seq![c]) == "&#xA;"@,
        c == '\r' ==> escaped_attribute(seq![c]) == "&#xD;"@,
        c != '&' && c != '<' && c != '"' && c != '\t' && c != '\n' && c != '\r'
            ==> escaped_attribute(seq![c]) == seq![c],
        escaped_attribute(Seq::empty()).len() == 0,
    decreases b.len(),
{
    let one = seq![c];
    assert(one.drop_last() =~= Seq::empty());
    assert(escaped_attribute(Seq::empty()) =~= Seq::empty());
    assert(escaped_attribute(one) =~= attribute_escape(c));
    if b.len() == 0 {
        assert(a + one + b =~= a.push(c));
        assert(a.push(c).drop_last() =~= a);
        assert(escaped_attribute(a) + escaped_attribute(one) + escaped_attribute(b)
            =~= escaped_attribute(a) + escaped_attribute(one));
    } else {
        a_value_is_escaped_character_by_character(a, c, b.drop_last());
        assert((a + one + b).drop_last() =~= a + one + b.drop_last());
        assert((a + one + b).last() == b.last());
        assert(escaped_attribute(a + one + b) =~= escaped_attribute(a) + escaped_attribute(one)
            + escaped_attribute(b));
    }
}

/// Text that is escaped and then unescaped is as it was.
pub proof fn escaped_text_reads_back(text: Seq<char>)
    ensures
        unescaped(escaped_text(text)) == Ok::<Seq<char>, Seq<char>>(text),
{
    let none = Seq::<char>::empty();
    lemma_text_before(text, none);
    assert(escaped_text(text) + none =~= escaped_text(text));
    assert(text + none =~= text);
}

/// An attribute value that is escaped and then unescaped is as it was.
pub proof fn escaped_attribute_reads_back(value: Seq<char>)
    ensures
        unescaped(escaped_attribute(value)) == Ok::<Seq<char>, Seq<char>>(value),
{
    let none = Seq::<char>::empty();
    lemma_attribute_before(value, none);
    assert(escaped_attribute(value) + none =~= escaped_attribute(value));
    assert(value + none =~= value);
}

/// Escaped text holds no angle bracket and no carriage return.
pub proof fn escaped_text_holds_no_markup(text: Seq<char>)
    ensures
        !escaped_text(text).contains('<'),
        !escaped_text(text).contains('>'),
        !escaped_text(text).contains('\r'),
    decreases text.len(),
{
    reveal_strlit("&amp;");
    reveal_strlit("&lt;");
    reveal_strlit("&gt;");
    reveal_strlit("&#xD;");
    if text.len() > 0 {
        escaped_text_holds_no_markup(text.drop_last());
        let before = escaped_text(text.drop_last());
        let last = text_escape(text.last());
        assert forall|i: int| 0 <= i < escaped_text(text).len() implies (#[trigger] escaped_text(
            text,
        )[i]) != '<' && escaped_text(text)[i] != '>' && escaped_text(text)[i] != '\r' by {
            if i < before.len() {
                assert(before.contains(before[i]));
            } else {
                assert(escaped_text(text)[i] == last[i - before.len()]);
            }
        }
    }
}

/// An escaped attribute value holds no opening bracket, no quotation mark, and
/// no tab, line feed or carriage return.
pub proof fn escaped_attribute_holds_no_markup(value: Seq<char>)
    ensures
        !escaped_attribute(value).contains('<'),
        !escaped_attribute(value).contains('"'),
        !escaped_attribute(value).contains('\t'),
        !escaped_attribute(value).contains('\n'),
        !escaped_attribute(value).contains('\r'),
    decreases value.len(),
{
    reveal_strlit("&amp;");
    reveal_strlit("&lt;");
    reveal_strlit("&quot;");
    reveal_strlit("&#x9;");
    reveal_strlit("&#xA;");
    reveal_strlit("&#xD;");
    if value.len() > 0 {
        escaped_attribute_holds_no_markup(value.drop_last());
        let whole = escaped_attribute(value);
        let before = escaped_attribute(value.drop_last());
        let last = attribute_escape(value.last());
        assert forall|i: int| 0 <= i < whole.len() implies (#[trigger] whole[i]) != '<' && whole[i]
            != '"' && whole[i] != '\t' && whole[i] != '\n' && whole[i] != '\r' by {
            if i < before.len() {
                assert(before.contains(before[i]));
            } else {
                assert(whole[i] == last[i - before.len()]);
            }
        }
    }
}

} // verus!
