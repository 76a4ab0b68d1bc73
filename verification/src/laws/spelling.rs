//! Laws of spelling: how what is written in a document is read, in every way in
//! which it may be written.

use crate::error::AuthenticateError;
use crate::laws::clockwork::{decimal_digit, written};
use crate::laws::consuming::what_follows_an_element_is_left;
use crate::laws::escaping::lemma_position_after;
use crate::laws::reading::{lemma_name_read, valid_name};
use crate::laws::round_trip::{
    lemma_differs, lemma_name_back, lemma_name_length_back, lemma_plain_start,
};
use crate::laws::wording::{a_pattern_is_found_where_it_first_stands, blank, lemma_trim_start};
use crate::reader::{
    after_comment, after_marks, after_prolog, after_trivia, all_allowed, begins_name,
    continues_name, declares_xml, digit, ends_name, entity, is_allowed, is_name,
    lemma_name_length_bound, lemma_position_bound, lemma_read_attributes_bound, name_length, number,
    read_attribute, read_attributes, read_child, read_children, read_document, read_element,
    read_name, read_tag, read_text, read_value, unescape, unescaped,
};
use crate::text::{
    is_white_space, lemma_position_of, position, position_of, starts_with, trim_start,
};
use crate::xml::{Element, ElementModel, NodeModel, Pair};
use vstd::prelude::*;

verus! {

/// White space at the beginning is trimmed, whatever it is.
pub proof fn lemma_blank_trimmed(before: Seq<char>, s: Seq<char>)
    requires
        blank(before),
    ensures
        trim_start(before + s) == trim_start(s),
        s.len() > 0 && !is_white_space(s[0]) ==> trim_start(s) == s,
    decreases before.len(),
{
    if before.len() == 0 {
        assert(before + s =~= s);
    } else {
        let rest = before.drop_first();
        assert((before + s)[0] == before[0]);
        assert((before + s).drop_first() =~= rest + s);
        assert forall|i: int| 0 <= i < rest.len() implies is_white_space(#[trigger] rest[i]) by {
            assert(rest[i] == before[i + 1]);
        }
        lemma_blank_trimmed(rest, s);
    }
}

/// Text without an ampersand is read as it is.
proof fn lemma_plain_text(s: Seq<char>)
    requires
        !s.contains('&'),
    ensures
        unescaped(s) == Ok::<Seq<char>, Seq<char>>(s),
{
    lemma_position_of(s, '&');
}

/// An entity is read in its place: what comes before it as it is, it as the
/// character it stands for, and what comes after it in the same way. One that is
/// not terminated is refused.
pub proof fn an_entity_is_read_in_its_place(
    before: Seq<char>,
    name: Seq<char>,
    behind: Seq<char>,
)
    requires
        !before.contains('&'),
        !name.contains(';'),
    ensures
        unescaped(before) == Ok::<Seq<char>, Seq<char>>(before),
        unescaped(before + seq!['&'] + name) == Err::<Seq<char>, Seq<char>>(
            "an XML entity is not terminated"@,
        ),
        unescaped(before + seq!['&'] + name + seq![';'] + behind) == match entity(name) {
            Err(fault) => Err::<Seq<char>, Seq<char>>(fault),
            Ok(c) => match unescaped(behind) {
                Err(fault) => Err::<Seq<char>, Seq<char>>(fault),
                Ok(rest) => Ok::<Seq<char>, Seq<char>>(before + seq![c] + rest),
            },
        },
{
    lemma_plain_text(before);
    let open = before + seq!['&'] + name;
    lemma_position_after(before, '&', name);
    assert(open =~= before.push('&') + name);
    assert(open.skip(before.len() as int + 1) =~= name);
    lemma_position_of(name, ';');
    let whole = before + seq!['&'] + name + seq![';'] + behind;
    let after = name.push(';') + behind;
    lemma_position_after(before, '&', after);
    assert(whole =~= before.push('&') + after);
    assert(whole.skip(before.len() as int + 1) =~= after);
    lemma_position_after(name, ';', behind);
    assert(after.take(name.len() as int) =~= name);
    assert(after.skip(name.len() as int + 1) =~= behind);
    assert(whole.take(before.len() as int) =~= before);
    if let Ok(c) = entity(name) {
        if let Ok(rest) = unescaped(behind) {
            assert(before.push(c) + rest =~= before + seq![c] + rest);
        }
    }
}

/// The value of a hexadecimal digit; sixteen for what is none.
pub open spec fn hex_value(c: char) -> int {
    let code = c as int;
    if 48 <= code <= 57 {
        code - 48
    } else if 97 <= code <= 102 {
        code - 87
    } else if 65 <= code <= 70 {
        code - 55
    } else {
        16
    }
}

/// The number that hexadecimal digits write.
pub open spec fn hex_written(s: Seq<char>) -> int
    decreases s.len(),
{
    if s.len() == 0 {
        0
    } else {
        hex_written(s.drop_last()) * 16 + hex_value(s.last())
    }
}

/// A run of hexadecimal digits writes its number.
proof fn lemma_hex(s: Seq<char>)
    requires
        s.len() > 0,
    ensures
        number(s, 16) is Some <==> forall|i: int|
            0 <= i < s.len() ==> hex_value(#[trigger] s[i]) < 16,
        number(s, 16) matches Some(value) ==> value as int == hex_written(s),
    decreases s.len(),
{
    let before = s.drop_last();
    assert(digit(s.last(), 16) is Some <==> hex_value(s.last()) < 16);
    if s.len() > 1 {
        lemma_hex(before);
    } else {
        assert(hex_written(before) == 0);
    }
    if forall|i: int| 0 <= i < s.len() ==> hex_value(#[trigger] s[i]) < 16 {
        assert(hex_value(s[s.len() - 1]) < 16);
        assert forall|i: int| 0 <= i < before.len() implies hex_value(#[trigger] before[i]) < 16 by {
            assert(before[i] == s[i]);
        }
    } else {
        let i = choose|i: int| 0 <= i < s.len() && !(hex_value(#[trigger] s[i]) < 16);
        if i < before.len() {
            assert(before[i] == s[i]);
        }
    }
    if before.len() > 0 && number(before, 16) is Some && digit(s.last(), 16) is Some {
        assert forall|i: int| 0 <= i < s.len() implies hex_value(#[trigger] s[i]) < 16 by {
            if i < before.len() {
                assert(before[i] == s[i]);
            }
        }
    }
}

/// A run of decimal digits writes its number.
proof fn lemma_decimal(s: Seq<char>)
    requires
        s.len() > 0,
    ensures
        number(s, 10) is Some <==> forall|i: int|
            0 <= i < s.len() ==> decimal_digit(#[trigger] s[i]),
        number(s, 10) matches Some(value) ==> value as int == written(s, 0, s.len() as int),
    decreases s.len(),
{
    let before = s.drop_last();
    assert(digit(s.last(), 10) is Some <==> decimal_digit(s.last()));
    lemma_written_before(s, s.len() - 1);
    if s.len() > 1 {
        lemma_decimal(before);
    } else {
        assert(written(s, 0, 0) == 0);
    }
    if forall|i: int| 0 <= i < s.len() ==> decimal_digit(#[trigger] s[i]) {
        assert(decimal_digit(s[s.len() - 1]));
        assert forall|i: int| 0 <= i < before.len() implies decimal_digit(#[trigger] before[i]) by {
            assert(before[i] == s[i]);
        }
    } else {
        let i = choose|i: int| 0 <= i < s.len() && !decimal_digit(#[trigger] s[i]);
        if i < before.len() {
            assert(before[i] == s[i]);
        }
    }
    if before.len() > 0 && number(before, 10) is Some && digit(s.last(), 10) is Some {
        assert forall|i: int| 0 <= i < s.len() implies decimal_digit(#[trigger] s[i]) by {
            if i < before.len() {
                assert(before[i] == s[i]);
            }
        }
    }
}

/// What is written before a place does not depend on what is behind it.
proof fn lemma_written_before(s: Seq<char>, to: int)
    requires
        0 <= to < s.len(),
    ensures
        written(s, 0, to) == written(s.drop_last(), 0, to),
    decreases to,
{
    if to > 0 {
        lemma_written_before(s, to - 1);
    }
}

/// Whether there is a character of this code.
pub open spec fn has_character(code: int) -> bool {
    0 <= code <= 0xd7ff || 0xe000 <= code <= 0x10ffff
}

/// The five predefined entities stand for their characters.
pub proof fn five_entities_are_predefined()
    ensures
        entity("lt"@) == Ok::<char, Seq<char>>('<'),
        entity("gt"@) == Ok::<char, Seq<char>>('>'),
        entity("amp"@) == Ok::<char, Seq<char>>('&'),
        entity("quot"@) == Ok::<char, Seq<char>>('"'),
        entity("apos"@) == Ok::<char, Seq<char>>('\''),
{
    reveal_strlit("lt");
    reveal_strlit("gt");
    reveal_strlit("amp");
    reveal_strlit("quot");
    reveal_strlit("apos");
    assert("lt"@[0] == 'l' && "gt"@[0] == 'g');
    assert("amp"@.len() == 3 && "quot"@.len() == 4 && "apos"@.len() == 4);
    assert("quot"@[0] == 'q' && "apos"@[0] == 'a');
    assert("lt"@.len() == 2 && "gt"@.len() == 2);
}

/// A name that begins with a number sign is none of the five.
proof fn lemma_numeric(name: Seq<char>)
    requires
        name.len() > 0,
        name[0] == '#',
    ensures
        name != "lt"@,
        name != "gt"@,
        name != "amp"@,
        name != "quot"@,
        name != "apos"@,
{
    reveal_strlit("lt");
    reveal_strlit("gt");
    reveal_strlit("amp");
    reveal_strlit("quot");
    reveal_strlit("apos");
    assert("lt"@[0] == 'l' && "gt"@[0] == 'g' && "amp"@[0] == 'a' && "quot"@[0] == 'q'
        && "apos"@[0] == 'a');
}

/// A decimal reference stands for the character of that code, if its digits are
/// digits and there is such a character, and is refused otherwise.
pub proof fn a_decimal_reference_is_its_character(digits: Seq<char>)
    requires
        digits.len() == 0 || (digits[0] != 'x' && digits[0] != 'X'),
    ensures
        ({
            let code = written(digits, 0, digits.len() as int);
            let numeral = digits.len() > 0 && forall|i: int|
                0 <= i < digits.len() ==> decimal_digit(#[trigger] digits[i]);
            &&& numeral && has_character(code) ==> (entity(seq!['#'] + digits) matches Ok(c) && c as int
                == code)
            &&& !(numeral && has_character(code)) ==> entity(seq!['#'] + digits) == Err::<
                char,
                Seq<char>,
            >("an XML character reference is not a character"@)
        }),
{
    let name = seq!['#'] + digits;
    lemma_numeric(name);
    reveal_strlit("#x");
    reveal_strlit("#X");
    if digits.len() > 0 {
        assert(name[1] == digits[0]);
        lemma_decimal(digits);
    }
    lemma_differs(name, "#x"@, 1);
    lemma_differs(name, "#X"@, 1);
    assert(name.skip(1) =~= digits);
}

/// A hexadecimal reference stands for the character of that code, in digits of
/// either case and after a small or a capital `x`, and is refused where its digits
/// are none or there is no such character.
pub proof fn a_hexadecimal_reference_is_its_character(x: char, digits: Seq<char>)
    requires
        x == 'x' || x == 'X',
    ensures
        ({
            let code = hex_written(digits);
            let numeral = digits.len() > 0 && forall|i: int|
                0 <= i < digits.len() ==> hex_value(#[trigger] digits[i]) < 16;
            &&& numeral && has_character(code) ==> (entity(seq!['#', x] + digits) matches Ok(c)
                && c as int == code)
            &&& !(numeral && has_character(code)) ==> entity(seq!['#', x] + digits) == Err::<
                char,
                Seq<char>,
            >("an XML character reference is not a character"@)
        }),
{
    let name = seq!['#', x] + digits;
    lemma_numeric(name);
    reveal_strlit("#x");
    reveal_strlit("#X");
    if x == 'x' {
        assert(name.take(2) =~= "#x"@);
    } else {
        assert(name.take(2) =~= "#X"@);
    }
    assert(name.skip(2) =~= digits);
    if digits.len() > 0 {
        lemma_hex(digits);
    }
}

/// Any other entity is refused by name.
pub proof fn another_entity_is_refused(name: Seq<char>)
    requires
        name != "lt"@,
        name != "gt"@,
        name != "amp"@,
        name != "quot"@,
        name != "apos"@,
        name.len() == 0 || name[0] != '#',
    ensures
        entity(name) == Err::<char, Seq<char>>(
            "the XML holds the entity '&"@ + name + ";', which this reader does not define"@,
        ),
{
    reveal_strlit("#x");
    reveal_strlit("#X");
    lemma_differs(name, "#x"@, 0);
    lemma_differs(name, "#X"@, 0);
}

/// What `unescape` gives is the text with its first entity read in its place.
pub proof fn unescaping_reads_entities(
    text: &str,
    r: Result<String, AuthenticateError>,
    before: Seq<char>,
    name: Seq<char>,
    behind: Seq<char>,
)
    requires
        call_ensures(unescape, (text,), r),
        !before.contains('&'),
        !name.contains(';'),
    ensures
        text@ == before ==> (r matches Ok(read) && read@ == before),
        text@ == before + seq!['&'] + name + seq![';'] + behind ==> match (
            entity(name),
            unescaped(behind),
        ) {
            (Ok(c), Ok(rest)) => r matches Ok(read) && read@ == before + seq![c] + rest,
            _ => r is Err,
        },
{
    an_entity_is_read_in_its_place(before, name, behind);
}

/// An attribute as it may be written: a name, an equals sign with white space on
/// either side of it, and a value in quotes of either kind.
pub open spec fn spelled(
    name: Seq<char>,
    before: Seq<char>,
    behind: Seq<char>,
    quote: char,
    raw: Seq<char>,
) -> Seq<char> {
    name + before + seq!['='] + behind + seq![quote] + raw + seq![quote]
}

/// Whether these are the parts of an attribute: a name, white space, either quote,
/// and a value that holds neither that quote nor an opening bracket.
pub open spec fn parts_of_attribute(
    name: Seq<char>,
    before: Seq<char>,
    behind: Seq<char>,
    quote: char,
    raw: Seq<char>,
) -> bool {
    valid_name(name) && blank(before) && blank(behind) && (quote == '"' || quote == '\'')
        && !raw.contains(quote) && !raw.contains('<')
}

/// An attribute is read however it is written: with any white space around the
/// equals sign and in either kind of quotes, its value is what stands between
/// them.
pub proof fn an_attribute_is_read_however_it_is_written(
    name: Seq<char>,
    before: Seq<char>,
    behind: Seq<char>,
    quote: char,
    raw: Seq<char>,
    rest: Seq<char>,
)
    requires
        parts_of_attribute(name, before, behind, quote, raw),
        rest.len() == 0 || ends_name(rest[0]),
    ensures
        read_attribute(spelled(name, before, behind, quote, raw) + rest) == match read_value(raw) {
            Ok(value) => Ok::<(Pair, Seq<char>), Seq<char>>(((name, value), rest)),
            Err(fault) => Err::<(Pair, Seq<char>), Seq<char>>(fault),
        },
{
    let body = raw.push(quote) + rest;
    let quoted = seq![quote] + body;
    let equals = seq!['='] + (behind + quoted);
    let after_name = before + equals;
    let whole = spelled(name, before, behind, quote, raw) + rest;
    assert(whole =~= name + after_name);
    assert(ends_name(after_name[0])) by {
        if before.len() > 0 {
            assert(is_white_space(before[0]));
            assert(after_name[0] == before[0]);
        } else {
            assert(after_name[0] == '=');
        }
    }
    lemma_name_back(name, after_name);
    assert(equals[0] == '=');
    lemma_blank_trimmed(before, equals);
    assert(equals.skip(1) =~= behind + quoted);
    assert(quoted[0] == quote);
    lemma_blank_trimmed(behind, quoted);
    assert(quoted.skip(1) =~= body);
    lemma_position_after(raw, quote, rest);
    assert(body.take(raw.len() as int) =~= raw);
    assert(body.skip(raw.len() as int + 1) =~= rest);
}

/// Attributes are read one after another, the declarations apart from the others,
/// with any white space before each and before the end of the tag.
pub proof fn attributes_are_read_one_after_another(
    blanks: Seq<char>,
    name: Seq<char>,
    before: Seq<char>,
    behind: Seq<char>,
    quote: char,
    raw: Seq<char>,
    rest: Seq<char>,
)
    requires
        blank(blanks),
        parts_of_attribute(name, before, behind, quote, raw),
        rest.len() == 0 || ends_name(rest[0]),
    ensures
        read_attributes(blanks + (spelled(name, before, behind, quote, raw) + rest)) == match (
            read_value(raw),
            read_attributes(rest),
        ) {
            (Err(fault), _) => Err::<((Seq<Pair>, Seq<Pair>), Seq<char>), Seq<char>>(fault),
            (Ok(_), Err(fault)) => Err::<((Seq<Pair>, Seq<Pair>), Seq<char>), Seq<char>>(fault),
            (Ok(value), Ok(((declared, others), after))) => if name == "xmlns"@ {
                Ok::<((Seq<Pair>, Seq<Pair>), Seq<char>), Seq<char>>(
                    ((seq![(Seq::empty(), value)] + declared, others), after),
                )
            } else if name.len() >= 6 && name.take(6) == "xmlns:"@ {
                Ok::<((Seq<Pair>, Seq<Pair>), Seq<char>), Seq<char>>(
                    ((seq![(name.skip(6), value)] + declared, others), after),
                )
            } else {
                Ok::<((Seq<Pair>, Seq<Pair>), Seq<char>), Seq<char>>(
                    ((declared, seq![(name, value)] + others), after),
                )
            },
        },
        starts_with(rest, ">"@) || starts_with(rest, "/>"@) ==> read_attributes(blanks + rest)
            == Ok::<((Seq<Pair>, Seq<Pair>), Seq<char>), Seq<char>>(
            ((Seq::empty(), Seq::empty()), rest),
        ),
{
    reveal_strlit("xmlns:");
    reveal_strlit(">");
    reveal_strlit("/>");
    let start = spelled(name, before, behind, quote, raw) + rest;
    assert(start[0] == name[0]);
    assert(!ends_name(name[0]));
    lemma_blank_trimmed(blanks, start);
    lemma_differs(start, ">"@, 0);
    lemma_differs(start, "/>"@, 0);
    an_attribute_is_read_however_it_is_written(name, before, behind, quote, raw, rest);
    if starts_with(rest, ">"@) || starts_with(rest, "/>"@) {
        assert(rest[0] == '>' || rest[0] == '/') by {
            if starts_with(rest, ">"@) {
                assert(rest.take(1)[0] == '>');
            } else {
                assert(rest.take(2)[0] == '/');
            }
        }
        lemma_blank_trimmed(blanks, rest);
    }
}

/// An element is its name, its tag and what is in it: where the tag ends at once,
/// nothing is in it; otherwise its children are, up to its end tag.
pub proof fn an_element_is_its_tag_and_what_is_in_it(
    name: Seq<char>,
    tag: Seq<char>,
    declared: Seq<Pair>,
    attributes: Seq<Pair>,
    rest: Seq<char>,
)
    requires
        valid_name(name),
        tag.len() > 0,
        ends_name(tag[0]),
    ensures
        read_tag(tag) == Ok::<((Seq<Pair>, Seq<Pair>), Seq<char>), Seq<char>>(
            ((declared, attributes), seq!['/', '>'] + rest),
        ) ==> read_element(seq!['<'] + name + tag) == Ok::<(ElementModel, Seq<char>), Seq<char>>(
            (
                ElementModel {
                    name,
                    namespaces: declared,
                    attributes,
                    children: Seq::empty(),
                },
                rest,
            ),
        ),
        read_tag(tag) == Ok::<((Seq<Pair>, Seq<Pair>), Seq<char>), Seq<char>>(
            ((declared, attributes), seq!['>'] + rest),
        ) ==> read_element(seq!['<'] + name + tag) == match read_children(rest, name) {
            Err(fault) => Err::<(ElementModel, Seq<char>), Seq<char>>(fault),
            Ok((children, after)) => Ok::<(ElementModel, Seq<char>), Seq<char>>(
                (ElementModel { name, namespaces: declared, attributes, children }, after),
            ),
        },
{
    reveal_strlit("/>");
    let whole = seq!['<'] + name + tag;
    assert(whole.skip(1) =~= name + tag);
    assert(whole[0] == '<');
    lemma_name_back(name, tag);
    let closed = seq!['/', '>'] + rest;
    assert(closed.take(2) =~= "/>"@);
    assert(closed.skip(2) =~= rest);
    let open = seq!['>'] + rest;
    lemma_differs(open, "/>"@, 0);
    assert(open.skip(1) =~= rest);
}

/// The end tag ends the children, with any white space in it after the name.
pub proof fn an_end_tag_ends_the_children(name: Seq<char>, blanks: Seq<char>, rest: Seq<char>)
    requires
        valid_name(name),
        blank(blanks),
    ensures
        read_children(seq!['<', '/'] + name + blanks + seq!['>'] + rest, name) == Ok::<
            (Seq<NodeModel>, Seq<char>),
            Seq<char>,
        >((Seq::empty(), rest)),
{
    reveal_strlit("</");
    reveal_strlit("<!--");
    let whole = seq!['<', '/'] + name + blanks + seq!['>'] + rest;
    lemma_differs(whole, "<!--"@, 1);
    assert(whole.take(2 + name.len() as int) =~= "</"@ + name);
    let end = seq!['>'] + rest;
    assert(whole.skip(2 + name.len() as int) =~= blanks + end);
    assert(end[0] == '>');
    lemma_blank_trimmed(blanks, end);
    assert(end.skip(1) =~= rest);
}

/// A comment among children is passed over: what follows it is read as if it were
/// not there.
pub proof fn a_comment_among_children_is_passed_over(
    comment: Seq<char>,
    rest: Seq<char>,
    name: Seq<char>,
)
    requires
        position(comment + "-->"@ + rest, "-->"@) == Some(comment.len()),
        position(comment + "-->"@ + rest, "--"@) == Some(comment.len()),
    ensures
        read_children("<!--"@ + (comment + "-->"@ + rest), name) == read_children(rest, name),
{
    lemma_comment(comment, rest);
    let whole = "<!--"@ + (comment + "-->"@ + rest);
    reveal_strlit("<!--");
    assert(whole.take(4) =~= "<!--"@);
}

/// After a comment stands what follows it.
proof fn lemma_comment(comment: Seq<char>, rest: Seq<char>)
    requires
        position(comment + "-->"@ + rest, "-->"@) == Some(comment.len()),
        position(comment + "-->"@ + rest, "--"@) == Some(comment.len()),
    ensures
        after_comment("<!--"@ + (comment + "-->"@ + rest)) == Ok::<Seq<char>, Seq<char>>(rest),
        starts_with("<!--"@ + (comment + "-->"@ + rest), "<!--"@),
{
    reveal_strlit("<!--");
    reveal_strlit("-->");
    let body = comment + "-->"@ + rest;
    let whole = "<!--"@ + body;
    assert(whole.skip(4) =~= body);
    assert(body.skip(comment.len() as int + 3) =~= rest);
    assert(whole.take(4) =~= "<!--"@);
}

/// Text up to the next bracket is one child: itself, with its entities read.
pub proof fn text_up_to_a_bracket_is_one_child(
    raw: Seq<char>,
    rest: Seq<char>,
    name: Seq<char>,
)
    requires
        raw.len() > 0,
        !raw.contains('<'),
        rest.len() > 0,
        rest[0] == '<',
    ensures
        read_children(raw + rest, name) == match read_text(raw) {
            Err(fault) => Err::<(Seq<NodeModel>, Seq<char>), Seq<char>>(fault),
            Ok(text) => match read_children(rest, name) {
                Err(fault) => Err::<(Seq<NodeModel>, Seq<char>), Seq<char>>(fault),
                Ok((children, after)) => Ok::<(Seq<NodeModel>, Seq<char>), Seq<char>>(
                    (seq![NodeModel::Text(text)] + children, after),
                ),
            },
        },
{
    let whole = raw + rest;
    assert(raw.contains(raw[0]));
    assert(whole[0] == raw[0]);
    lemma_plain_start(whole, name);
    lemma_position_after(raw, '<', rest.drop_first());
    assert(whole =~= raw.push('<') + rest.drop_first());
    assert(whole.take(raw.len() as int) =~= raw);
    assert(whole.skip(raw.len() as int) =~= rest);
    assert(rest.len() < whole.len());
    assert(read_child(whole) == match read_text(raw) {
        Err(fault) => Err::<(NodeModel, Seq<char>), Seq<char>>(fault),
        Ok(text) => Ok::<(NodeModel, Seq<char>), Seq<char>>((NodeModel::Text(text), rest)),
    });
}

/// An element among children is one child, and what follows it are the others.
pub proof fn an_element_among_children_is_one_child(
    written_element: Seq<char>,
    element: ElementModel,
    rest: Seq<char>,
    name: Seq<char>,
)
    requires
        read_element(written_element) == Ok::<(ElementModel, Seq<char>), Seq<char>>(
            (element, Seq::empty()),
        ),
    ensures
        read_children(written_element + rest, name) == match read_children(rest, name) {
            Err(fault) => Err::<(Seq<NodeModel>, Seq<char>), Seq<char>>(fault),
            Ok((children, after)) => Ok::<(Seq<NodeModel>, Seq<char>), Seq<char>>(
                (seq![NodeModel::Element(element)] + children, after),
            ),
        },
{
    let whole = written_element + rest;
    what_follows_an_element_is_left(written_element, element, rest);
    lemma_element_begins(written_element);
    assert(whole[0] == '<' && whole[1] == written_element[1]);
    reveal_strlit("<!--");
    reveal_strlit("</");
    reveal_strlit("<![CDATA[");
    reveal_strlit("<!");
    reveal_strlit("<?");
    lemma_differs(whole, "<!--"@, 1);
    lemma_differs(whole, "</"@ + name, 1);
    lemma_differs(whole, "<![CDATA["@, 1);
    lemma_differs(whole, "<!"@, 1);
    lemma_differs(whole, "<?"@, 1);
    assert(rest.len() < whole.len());
    assert(read_child(whole) == Ok::<(NodeModel, Seq<char>), Seq<char>>(
        (NodeModel::Element(element), rest),
    ));
}

/// An element begins with a bracket and a name.
proof fn lemma_element_begins(s: Seq<char>)
    requires
        read_element(s) is Ok,
    ensures
        s.len() > 1,
        s[0] == '<',
        s[1] != '!' && s[1] != '?' && s[1] != '/',
{
    let own = s.skip(1);
    let (name, _) = read_name(own)->Ok_0;
    let length = name_length(own)->Some_0;
    lemma_name_length_bound(own);
    assert(name == own.take(length as int));
    assert(name[0] == own[0]);
    assert(begins_name(s[1]));
}

/// Among children, a CDATA section, any other declaration and any instruction are
/// refused by name.
pub proof fn what_is_not_read_is_refused_among_children(s: Seq<char>, name: Seq<char>)
    requires
        valid_name(name),
    ensures
        starts_with(s, "<![CDATA["@) ==> read_children(s, name) == Err::<
            (Seq<NodeModel>, Seq<char>),
            Seq<char>,
        >("the XML holds a CDATA section, which this reader refuses"@),
        starts_with(s, "<!"@) && !starts_with(s, "<![CDATA["@) && !starts_with(s, "<!--"@)
            ==> read_children(s, name) == Err::<(Seq<NodeModel>, Seq<char>), Seq<char>>(
            "the XML holds a DTD or processing instruction, which this reader refuses"@,
        ),
        starts_with(s, "<?"@) ==> read_children(s, name) == Err::<
            (Seq<NodeModel>, Seq<char>),
            Seq<char>,
        >("the XML holds a DTD or processing instruction, which this reader refuses"@),
        !s.contains('<') ==> read_children(s, name) == Err::<
            (Seq<NodeModel>, Seq<char>),
            Seq<char>,
        >("an XML element is not closed"@),
{
    reveal_strlit("<![CDATA[");
    reveal_strlit("<!");
    reveal_strlit("<?");
    reveal_strlit("<!--");
    reveal_strlit("</");
    if starts_with(s, "<![CDATA["@) {
        assert(s.take(9)[1] == '!');
        assert(s.take(9)[2] == '[');
        lemma_differs(s, "<!--"@, 2);
        lemma_differs(s, "</"@ + name, 1);
        assert(read_child(s) is Err);
    } else if starts_with(s, "<!"@) {
        assert(s.take(2)[1] == '!');
        lemma_differs(s, "</"@ + name, 1);
        assert(read_child(s) is Err);
    } else if starts_with(s, "<?"@) {
        assert(s.take(2)[1] == '?');
        lemma_differs(s, "<!--"@, 1);
        lemma_differs(s, "</"@ + name, 1);
        lemma_differs(s, "<![CDATA["@, 1);
        assert(read_child(s) is Err);
    }
    if !s.contains('<') {
        lemma_position_of(s, '<');
        if s.len() > 0 {
            assert(s.contains(s[0]));
            lemma_plain_start(s, name);
        } else {
            lemma_differs(s, "<!--"@, 0);
            lemma_differs(s, "</"@ + name, 0);
            lemma_differs(s, "<![CDATA["@, 0);
            lemma_differs(s, "<!"@, 0);
            lemma_differs(s, "<?"@, 0);
        }
        assert(read_child(s) is Err);
    }
}

/// White space and comments before what is read make no difference.
pub proof fn trivia_makes_no_difference(before: Seq<char>, comment: Seq<char>, rest: Seq<char>)
    requires
        blank(before),
    ensures
        after_trivia(before + rest) == after_trivia(rest),
        position(comment + "-->"@ + rest, "-->"@) == Some(comment.len()) && position(
            comment + "-->"@ + rest,
            "--"@,
        ) == Some(comment.len()) ==> after_trivia("<!--"@ + (comment + "-->"@ + rest))
            == after_trivia(rest),
{
    lemma_blank_trimmed(before, rest);
    if position(comment + "-->"@ + rest, "-->"@) == Some(comment.len()) && position(
        comment + "-->"@ + rest,
        "--"@,
    ) == Some(comment.len()) {
        lemma_comment(comment, rest);
        let whole = "<!--"@ + (comment + "-->"@ + rest);
        reveal_strlit("<!--");
        assert(whole[0] == '<');
        assert(trim_start(whole) == whole);
        reveal_strlit("-->");
    }
}

/// A document is its root element, with nothing but trivia around it: byte order
/// marks, white space, an XML declaration and comments before it, and white space
/// and comments after it, make no difference; anything else after it is refused.
pub proof fn a_document_is_its_root_element(
    before: Seq<char>,
    declaration: Seq<char>,
    root: Seq<char>,
    element: ElementModel,
    behind: Seq<char>,
)
    requires
        read_element(root) == Ok::<(ElementModel, Seq<char>), Seq<char>>((element, Seq::empty())),
        all_allowed(before + root + behind),
        all_allowed(declaration),
        after_trivia(before + root + behind) == Ok::<Seq<char>, Seq<char>>(root + behind),
        before.len() > 0 ==> before[0] != '\u{feff}',
        !declares_xml(trim_start(before + root + behind)),
        position(declaration + "?>"@ + (before + root + behind), "?>"@) == Some(declaration.len()),
    ensures
        after_trivia(behind) == Ok::<Seq<char>, Seq<char>>(Seq::empty()) ==> read_document(
            before + root + behind,
        ) == Ok::<ElementModel, Seq<char>>(element),
        after_trivia(behind) matches Ok(left) && left.len() > 0 ==> read_document(
            before + root + behind,
        ) == Err::<ElementModel, Seq<char>>("the XML has content after its root element"@),
        read_document(seq!['\u{feff}'] + (before + root + behind)) == read_document(
            before + root + behind,
        ),
        declares_xml(declaration + "?>"@) && declaration.len() > 0 ==> read_document(
            declaration + "?>"@ + (before + root + behind),
        ) == read_document(before + root + behind),
{
    let text = before + root + behind;
    lemma_element_begins(root);
    what_follows_an_element_is_left(root, element, behind);
    assert(text[0] != '\u{feff}') by {
        if before.len() > 0 {
            assert(text[0] == before[0]);
        } else {
            assert(text[0] == root[0]);
        }
    }
    assert(after_marks(text) == text);
    lemma_trivia_trimmed(text);
    assert(after_prolog(text) == Ok::<Seq<char>, Seq<char>>(root + behind));
    if let Ok(left) = after_trivia(behind) {
        if left.len() == 0 {
            assert(left =~= Seq::empty());
        }
    }
    let marked = seq!['\u{feff}'] + text;
    assert(marked.drop_first() =~= text);
    assert(marked[0] == '\u{feff}');
    assert(all_allowed(marked)) by {
        assert forall|i: int| 0 <= i < marked.len() implies is_allowed(
            #[trigger] marked[i],
        ) by {
            if i > 0 {
                assert(marked[i] == text[i - 1]);
            }
        }
    }
    if declares_xml(declaration + "?>"@) && declaration.len() > 0 {
        reveal_strlit("?>");
        reveal_strlit("<?xml");
        let whole = declaration + "?>"@ + text;
        let opening = declaration + "?>"@;
        assert(opening.take(5)[0] == '<');
        assert(opening.take(5) == "<?xml"@);
        assert(opening.len() >= 5);
        assert(whole[0] == '<');
        assert(trim_start(whole) == whole);
        assert(after_marks(whole) == whole);
        assert(whole.take(5) =~= opening.take(5));
        assert(declaration.len() >= 3);
        assert(whole.len() > 5);
        lemma_declared(declaration, text);
        assert(declares_xml(whole));
        assert(whole.skip(declaration.len() as int + 2) =~= text);
        assert(all_allowed(whole));
    }
}

/// What is written of a declaration is a declaration with more after it.
proof fn lemma_declared(declaration: Seq<char>, text: Seq<char>)
    requires
        declares_xml(declaration + "?>"@),
        text.len() > 0,
        position(declaration + "?>"@ + text, "?>"@) == Some(declaration.len()),
    ensures
        declares_xml(declaration + "?>"@ + text),
{
    reveal_strlit("?>");
    reveal_strlit("<?xml");
    let opening = declaration + "?>"@;
    let whole = opening + text;
    assert(whole.take(5) =~= opening.take(5));
    assert(opening.take(5) == "<?xml"@);
    if opening.len() == 5 {
        assert(opening[3] == '?');
        assert(opening.take(5)[3] == 'm');
    } else {
        assert(whole[5] == opening[5]);
    }
}

/// After trivia is the same after trimming.
proof fn lemma_trivia_trimmed(s: Seq<char>)
    ensures
        after_trivia(trim_start(s)) == after_trivia(s),
    decreases s.len(),
{
    lemma_trimmed_twice(s);
}

/// Trimming twice is trimming once.
proof fn lemma_trimmed_twice(s: Seq<char>)
    ensures
        trim_start(trim_start(s)) == trim_start(s),
    decreases s.len(),
{
    if s.len() > 0 && is_white_space(s[0]) {
        lemma_trimmed_twice(s.drop_first());
    }
}

/// What `parse` reads is the document.
pub proof fn parsing_reads_the_root(
    xml: &str,
    r: Result<Element, AuthenticateError>,
    root: Seq<char>,
    element: ElementModel,
    behind: Seq<char>,
)
    requires
        call_ensures(Element::parse, (xml,), r),
        xml@ == root + behind,
        all_allowed(xml@),
        read_element(root) == Ok::<(ElementModel, Seq<char>), Seq<char>>((element, Seq::empty())),
        after_trivia(behind) is Ok,
    ensures
        after_trivia(behind)->Ok_0.len() == 0 ==> (r matches Ok(read) && read@ == element),
        after_trivia(behind)->Ok_0.len() > 0 ==> r is Err,
{
    let text = root + behind;
    lemma_element_begins(root);
    what_follows_an_element_is_left(root, element, behind);
    assert(text[0] == '<' && text[1] == root[1]);
    assert(after_marks(text) == text);
    assert(trim_start(text) == text);
    reveal_strlit("<?xml");
    reveal_strlit("<!--");
    reveal_strlit("<!");
    reveal_strlit("<?");
    lemma_differs(text, "<?xml"@, 1);
    lemma_differs(text, "<!--"@, 1);
    lemma_differs(text, "<!"@, 1);
    lemma_differs(text, "<?"@, 1);
    assert(after_trivia(text) == Ok::<Seq<char>, Seq<char>>(text));
}

/// Whatever is read as an attribute was written as one: as a name, an equals sign
/// with white space about it, and a value in quotes without an opening bracket,
/// set apart from what follows.
pub proof fn what_is_read_as_an_attribute_was_written_as_one(
    s: Seq<char>,
    name: Seq<char>,
    value: Seq<char>,
    rest: Seq<char>,
)
    requires
        read_attribute(s) == Ok::<(Pair, Seq<char>), Seq<char>>(((name, value), rest)),
    ensures
        exists|before: Seq<char>, behind: Seq<char>, quote: char, raw: Seq<char>| #[trigger]
            parts_of_attribute(name, before, behind, quote, raw) && s == spelled(
                name,
                before,
                behind,
                quote,
                raw,
            ) + rest && read_value(raw) == Ok::<Seq<char>, Seq<char>>(value),
        rest.len() == 0 || ends_name(rest[0]),
{
    lemma_name_read(s);
    let (_, after_name) = read_name(s)->Ok_0;
    let length = name_length(s)->Some_0;
    lemma_name_length_bound(s);
    assert(s =~= name + after_name);
    let before = lemma_trim_start(after_name);
    let equals = trim_start(after_name);
    let behind = lemma_trim_start(equals.skip(1));
    let quoted = trim_start(equals.skip(1));
    let quote = quoted[0];
    let body = quoted.skip(1);
    lemma_position_of(body, quote);
    let end = position_of(body, quote)->Some_0 as int;
    let raw = body.take(end);
    assert(body =~= raw + seq![quote] + rest);
    assert(quoted =~= seq![quote] + body);
    assert(equals =~= seq!['='] + equals.skip(1));
    assert(s =~= spelled(name, before, behind, quote, raw) + rest);
    assert(parts_of_attribute(name, before, behind, quote, raw));
}

/// Whether an element was written with this tag after its name: the tag gives its
/// declarations and attributes, and ends at once, or its children follow.
pub open spec fn tagged(
    s: Seq<char>,
    tag: Seq<char>,
    element: ElementModel,
    rest: Seq<char>,
) -> bool {
    &&& s == seq!['<'] + element.name + tag
    &&& read_tag(tag) matches Ok((pairs, left))
    &&& pairs == (element.namespaces, element.attributes)
    &&& (left == seq!['/', '>'] + rest && element.children.len() == 0) || (left.len() > 0
        && left[0] == '>' && read_children(left.skip(1), element.name) == Ok::<
        (Seq<NodeModel>, Seq<char>),
        Seq<char>,
    >((element.children, rest)))
}

/// Whatever is read as an element was written as one: as a bracket, a name by the
/// grammar, a tag and, unless that ends at once, children.
pub proof fn what_is_read_as_an_element_was_written_as_one(
    s: Seq<char>,
    element: ElementModel,
    rest: Seq<char>,
)
    requires
        read_element(s) == Ok::<(ElementModel, Seq<char>), Seq<char>>((element, rest)),
    ensures
        valid_name(element.name),
        exists|tag: Seq<char>| #[trigger] tagged(s, tag, element, rest),
{
    let own = s.skip(1);
    lemma_name_read(own);
    let (name, tag) = read_name(own)->Ok_0;
    lemma_name_length_bound(own);
    assert(own =~= name + tag);
    assert(s =~= seq!['<'] + name + tag);
    let (_, left) = read_tag(tag)->Ok_0;
    lemma_read_attributes_bound(tag);
    reveal_strlit("/>");
    reveal_strlit(">");
    if starts_with(left, "/>"@) {
        assert(left.take(2) == "/>"@);
        assert(left =~= seq!['/', '>'] + left.skip(2)) by {
            assert(left[0] == left.take(2)[0]);
            assert(left[1] == left.take(2)[1]);
        }
    } else {
        assert(left.take(1)[0] == '>');
    }
    assert(tagged(s, tag, element, rest));
}

/// Whether children were written as a comment, then as what is read.
pub open spec fn led_by_comment(
    s: Seq<char>,
    name: Seq<char>,
    children: Seq<NodeModel>,
    after: Seq<char>,
) -> bool {
    exists|comment: Seq<char>, rest: Seq<char>|
        s == "<!--"@ + #[trigger] (comment + "-->"@ + rest) && position(
            comment + "-->"@ + rest,
            "--"@,
        ) == Some(comment.len()) && read_children(rest, name) == Ok::<
            (Seq<NodeModel>, Seq<char>),
            Seq<char>,
        >((children, after))
}

/// Whether children were written as text up to a bracket, then as the others.
pub open spec fn led_by_text(
    s: Seq<char>,
    name: Seq<char>,
    children: Seq<NodeModel>,
    after: Seq<char>,
) -> bool {
    exists|raw: Seq<char>, rest: Seq<char>|
        s == #[trigger] (raw + rest) && raw.len() > 0 && !raw.contains('<') && rest.len() > 0
            && rest[0] == '<' && children.len() > 0 && children[0] is Text && read_text(raw)
            == Ok::<Seq<char>, Seq<char>>(children[0]->Text_0) && read_children(rest, name)
            == Ok::<(Seq<NodeModel>, Seq<char>), Seq<char>>((children.drop_first(), after))
}

/// Whether children were written as the end tag, and are none.
pub open spec fn ended(
    s: Seq<char>,
    name: Seq<char>,
    children: Seq<NodeModel>,
    after: Seq<char>,
) -> bool {
    children.len() == 0 && exists|blanks: Seq<char>|
        #[trigger] blank(blanks) && s == seq!['<', '/'] + name + blanks + seq!['>'] + after
}

/// Whether children were written as an element, then as the others.
pub open spec fn led_by_element(
    s: Seq<char>,
    name: Seq<char>,
    children: Seq<NodeModel>,
    after: Seq<char>,
) -> bool {
    children.len() > 0 && children[0] is Element && exists|rest: Seq<char>| #[trigger]
        read_children(rest, name) == Ok::<(Seq<NodeModel>, Seq<char>), Seq<char>>(
            (children.drop_first(), after),
        ) && read_element(s) == Ok::<(ElementModel, Seq<char>), Seq<char>>(
            (children[0]->Element_0, rest),
        )
}

/// Whatever is read as children was written as children: as a comment, as text, as
/// an element, and then as the others; or as the end tag.
pub proof fn what_is_read_as_children_was_written_as_children(
    s: Seq<char>,
    name: Seq<char>,
    children: Seq<NodeModel>,
    after: Seq<char>,
)
    requires
        read_children(s, name) == Ok::<(Seq<NodeModel>, Seq<char>), Seq<char>>((children, after)),
    ensures
        led_by_comment(s, name, children, after) || ended(s, name, children, after) || led_by_text(
            s,
            name,
            children,
            after,
        ) || led_by_element(s, name, children, after),
{
    reveal_strlit("<!--");
    reveal_strlit("-->");
    reveal_strlit("</");
    if starts_with(s, "<!--"@) {
        let body = s.skip(4);
        lemma_position_bound(body, "-->"@);
        a_pattern_is_found_where_it_first_stands(body, "-->"@);
        let end = position(body, "-->"@)->Some_0 as int;
        let comment = body.take(end);
        let rest = body.skip(end + 3);
        assert(body =~= comment + "-->"@ + rest) by {
            assert(body.subrange(end, end + 3) == "-->"@);
            assert forall|i: int| 0 <= i < body.len() implies #[trigger] body[i] == (comment
                + "-->"@ + rest)[i] by {
                if end <= i < end + 3 {
                    assert(body.subrange(end, end + 3)[i - end] == body[i]);
                }
            }
        }
        assert(s.take(4) == "<!--"@);
        assert(s =~= "<!--"@ + (comment + "-->"@ + rest)) by {
            assert forall|i: int| 0 <= i < s.len() implies #[trigger] s[i] == ("<!--"@ + (comment
                + "-->"@ + rest))[i] by {
                if i < 4 {
                    assert(s.take(4)[i] == s[i]);
                } else {
                    assert(body[i - 4] == s[i]);
                }
            }
        }
        assert(led_by_comment(s, name, children, after));
    } else if starts_with(s, "</"@ + name) {
        let mark = "</"@ + name;
        let length = 2 + name.len() as int;
        let left = s.skip(length);
        let blanks = lemma_trim_start(left);
        let end = trim_start(left);
        assert(s.take(length) == mark);
        assert(end =~= seq!['>'] + after);
        assert(s =~= mark + left) by {
            assert forall|i: int| 0 <= i < s.len() implies #[trigger] s[i] == (mark + left)[i] by {
                if i < length {
                    assert(s.take(length)[i] == s[i]);
                }
            }
        }
        assert("</"@ =~= seq!['<', '/']);
        assert(s =~= seq!['<', '/'] + name + blanks + seq!['>'] + after);
    } else {
        let (child, rest) = read_child(s)->Ok_0;
        let (others, _) = read_children(rest, name)->Ok_0;
        assert(children == seq![child] + others);
        assert(children.drop_first() =~= others);
        assert(children[0] == child);
        if s.len() > 0 && s[0] == '<' {
            assert(read_element(s) == Ok::<(ElementModel, Seq<char>), Seq<char>>(
                (children[0]->Element_0, rest),
            ));
            assert(read_children(rest, name) == Ok::<(Seq<NodeModel>, Seq<char>), Seq<char>>(
                (children.drop_first(), after),
            ));
        } else {
            lemma_position_of(s, '<');
            let at = position_of(s, '<')->Some_0 as int;
            let raw = s.take(at);
            assert(s =~= raw + rest);
            assert(led_by_text(s, name, children, after));
        }
    }
}

/// Text is read where it holds no `]]>` and XML allows every character of what it
/// stands for; a value is read where the latter holds.
pub proof fn text_and_values_are_read_where_xml_allows_them(raw: Seq<char>)
    ensures
        read_value(raw) is Ok <==> (unescaped(raw) matches Ok(value) && all_allowed(value)),
        read_value(raw) matches Ok(value) ==> unescaped(raw) == Ok::<Seq<char>, Seq<char>>(value),
        unescaped(raw) matches Ok(value) ==> (!all_allowed(value) ==> read_value(raw) == Err::<
            Seq<char>,
            Seq<char>,
        >("the XML holds a character that XML does not allow"@)),
        position(raw, "]]>"@) is None ==> read_text(raw) == read_value(raw),
        position(raw, "]]>"@) is Some ==> read_text(raw) == Err::<Seq<char>, Seq<char>>(
            "the XML holds ']]>' in its text"@,
        ),
{
}

/// Whether a character of this code may stand in a document.
pub open spec fn code_allowed(code: int) -> bool {
    code == 9 || code == 10 || code == 13 || (32 <= code && code != 0xfffe && code != 0xffff)
}

/// XML allows a character by its code: a tab, a line feed, a carriage return, and
/// those from the blank on but for the two last codes of the first plane.
pub proof fn characters_are_allowed_by_their_codes(c: char)
    ensures
        is_allowed(c) <==> code_allowed(c as int),
{
}

/// XML allows a text where it allows every character of it.
pub proof fn a_text_is_allowed_where_its_characters_are(s: Seq<char>)
    ensures
        all_allowed(s) <==> forall|i: int|
            0 <= i < s.len() ==> code_allowed((#[trigger] s[i]) as int),
{
    assert forall|i: int| 0 <= i < s.len() implies (is_allowed(#[trigger] s[i]) <==> code_allowed(
        s[i] as int,
    )) by {
        characters_are_allowed_by_their_codes(s[i]);
    }
}

/// A tag is read where its attributes are and no two of them, and no two of its
/// declarations, have the same name.
pub proof fn a_tag_gives_nothing_twice(
    tag: Seq<char>,
    declared: Seq<Pair>,
    attributes: Seq<Pair>,
    rest: Seq<char>,
)
    requires
        read_attributes(tag) == Ok::<((Seq<Pair>, Seq<Pair>), Seq<char>), Seq<char>>(
            ((declared, attributes), rest),
        ),
    ensures
        ({
            let twice = (exists|i: int, j: int|
                0 <= i < j < declared.len() && (#[trigger] declared[i]).0 == (
                #[trigger] declared[j]).0) || (exists|i: int, j: int|
                0 <= i < j < attributes.len() && (#[trigger] attributes[i]).0 == (
                #[trigger] attributes[j]).0);
            &&& !twice ==> read_tag(tag) == read_attributes(tag)
            &&& twice ==> read_tag(tag) == Err::<((Seq<Pair>, Seq<Pair>), Seq<char>), Seq<char>>(
                "an XML element has an attribute or a declaration twice"@,
            )
        }),
{
}

/// A character ends a name where it is white space, a closing bracket, a slash or
/// an equals sign.
pub proof fn these_characters_end_a_name(c: char)
    ensures
        ends_name(c) <==> is_white_space(c) || c == '>' || c == '/' || c == '=',
{
}

/// A name is what the grammar of XML says: of its characters, the first may be a
/// letter, an underscore, a colon or one of some ranges of codes, and the others
/// also a digit, a hyphen, a point, or one of some more.
pub proof fn a_name_is_by_the_grammar(name: Seq<char>)
    ensures
        is_name(name) <==> name.len() > 0 && starts_a_name(name[0] as int) && forall|i: int|
            0 <= i < name.len() ==> (starts_a_name((#[trigger] name[i]) as int) || follows_in_a_name(
                name[i] as int,
            )),
{
    assert forall|i: int| 0 <= i < name.len() implies (continues_name(#[trigger] name[i])
        <==> starts_a_name(name[i] as int) || follows_in_a_name(name[i] as int)) by {
    }
}

/// Whether a name can begin with the character of this code.
pub open spec fn starts_a_name(code: int) -> bool {
    code == 58 || code == 95 || 65 <= code <= 90 || 97 <= code <= 122 || (0xc0 <= code <= 0x2ff
        && code != 0xd7 && code != 0xf7) || (0x370 <= code <= 0x1fff && code != 0x37e) || 0x200c
        <= code <= 0x200d || 0x2070 <= code <= 0x218f || 0x2c00 <= code <= 0x2fef || 0x3001 <= code
        <= 0xd7ff || 0xf900 <= code <= 0xfdcf || 0xfdf0 <= code <= 0xfffd || 0x10000 <= code
        <= 0xeffff
}

/// Whether a name can hold the character of this code, though not begin with it.
pub open spec fn follows_in_a_name(code: int) -> bool {
    code == 45 || code == 46 || 48 <= code <= 57 || code == 0xb7 || 0x300 <= code <= 0x36f
        || 0x203f <= code <= 0x2040
}

/// Before the root, what begins like a declaration or an instruction and is no
/// comment is refused; and so is a comment that is not closed or holds dashes.
pub proof fn what_is_not_read_is_refused_before_the_root(s: Seq<char>)
    requires
        s.len() > 1,
        s[0] == '<',
    ensures
        s[1] == '?' || (s[1] == '!' && !starts_with(s, "<!--"@)) ==> after_trivia(s) == Err::<
            Seq<char>,
            Seq<char>,
        >("the XML holds a DTD or processing instruction, which this reader refuses"@),
        s[1] != '?' && s[1] != '!' ==> after_trivia(s) == Ok::<Seq<char>, Seq<char>>(s),
        starts_with(s, "<!--"@) && position(s.skip(4), "-->"@) is None ==> after_trivia(s)
            == Err::<Seq<char>, Seq<char>>("an XML comment is not closed"@),
        starts_with(s, "<!--"@) && position(s.skip(4), "-->"@) is Some && position(
            s.skip(4),
            "--"@,
        ) != position(s.skip(4), "-->"@) ==> after_trivia(s) == Err::<Seq<char>, Seq<char>>(
            "an XML comment holds '--'"@,
        ),
{
    reveal_strlit("<!--");
    reveal_strlit("<!");
    reveal_strlit("<?");
    assert(trim_start(s) == s);
    if s[1] == '!' {
        assert(s.take(2) =~= "<!"@);
    } else {
        lemma_differs(s, "<!"@, 1);
        lemma_differs(s, "<!--"@, 1);
    }
    if s[1] == '?' {
        assert(s.take(2) =~= "<?"@);
    } else {
        lemma_differs(s, "<?"@, 1);
    }
}

/// An XML declaration is skipped up to its end, and refused where it has none; it
/// begins with `<?xml` and then ends, or has white space or a question mark.
pub proof fn a_declaration_is_skipped(s: Seq<char>)
    requires
        s.len() > 0,
        s[0] == '<',
    ensures
        ({
            let declared = starts_with(s, "<?xml"@) && (s.len() == 5 || is_white_space(s[5])
                || s[5] == '?');
            &&& declared && position(s, "?>"@) is None ==> after_prolog(s) == Err::<
                Seq<char>,
                Seq<char>,
            >("the XML declaration is not closed"@)
            &&& declared ==> (position(s, "?>"@) matches Some(end) ==> after_prolog(s)
                == after_trivia(s.skip(end as int + 2)))
            &&& !declared ==> after_prolog(s) == after_trivia(s)
        }),
{
    assert(trim_start(s) == s);
}

/// A document that holds a character XML does not allow is refused, and byte order
/// marks at the beginning make no difference.
pub proof fn marks_are_skipped_and_characters_checked(xml: Seq<char>)
    ensures
        !all_allowed(xml) ==> read_document(xml) == Err::<ElementModel, Seq<char>>(
            "the XML holds a character that XML does not allow"@,
        ),
        read_document(seq!['\u{feff}'] + xml) == read_document(xml),
{
    let marked = seq!['\u{feff}'] + xml;
    assert(marked.drop_first() =~= xml);
    assert(marked[0] == '\u{feff}');
    if all_allowed(xml) {
        assert forall|i: int| 0 <= i < marked.len() implies is_allowed(#[trigger] marked[i]) by {
            if i > 0 {
                assert(marked[i] == xml[i - 1]);
            }
        }
    } else {
        let i = choose|i: int| 0 <= i < xml.len() && !is_allowed(#[trigger] xml[i]);
        assert(marked[i + 1] == xml[i]);
        assert(!is_allowed(marked[i + 1]));
    }
}

/// A name goes up to the character that ends it: one that nothing ends is refused,
/// and so is one that is empty or is no name by the grammar.
pub proof fn a_name_is_read_up_to_its_end(name: Seq<char>, rest: Seq<char>)
    requires
        forall|i: int| 0 <= i < name.len() ==> !ends_name(#[trigger] name[i]),
        rest.len() > 0 ==> ends_name(rest[0]),
    ensures
        rest.len() == 0 ==> read_name(name + rest) == Err::<(Seq<char>, Seq<char>), Seq<char>>(
            "an XML name does not end"@,
        ),
        rest.len() > 0 && name.len() == 0 ==> read_name(name + rest) == Err::<
            (Seq<char>, Seq<char>),
            Seq<char>,
        >("an XML name is empty"@),
        rest.len() > 0 && name.len() > 0 && !is_name(name) ==> read_name(name + rest) == Err::<
            (Seq<char>, Seq<char>),
            Seq<char>,
        >("an XML name holds a character that a name cannot"@),
        rest.len() > 0 && is_name(name) ==> read_name(name + rest) == Ok::<
            (Seq<char>, Seq<char>),
            Seq<char>,
        >((name, rest)),
{
    if rest.len() == 0 {
        assert(name + rest =~= name);
        lemma_name_open(name);
    } else {
        lemma_name_length_back(name, rest);
        assert((name + rest).take(name.len() as int) =~= name);
        assert((name + rest).skip(name.len() as int) =~= rest);
    }
}

/// A text in which nothing ends a name is no name that ends.
proof fn lemma_name_open(s: Seq<char>)
    requires
        forall|i: int| 0 <= i < s.len() ==> !ends_name(#[trigger] s[i]),
    ensures
        name_length(s) is None,
    decreases s.len(),
{
    if s.len() > 0 {
        let rest = s.drop_first();
        assert forall|i: int| 0 <= i < rest.len() implies !ends_name(#[trigger] rest[i]) by {
            assert(rest[i] == s[i + 1]);
        }
        lemma_name_open(rest);
    }
}

/// An attribute without an equals sign is refused, and so is one whose value is not
/// quoted.
pub proof fn an_attribute_has_a_quoted_value(
    name: Seq<char>,
    before: Seq<char>,
    behind: Seq<char>,
    rest: Seq<char>,
)
    requires
        valid_name(name),
        blank(before),
        blank(behind),
    ensures
        rest.len() > 0 && rest[0] != '=' && !is_white_space(rest[0]) && ends_name(
            (before + rest)[0],
        ) ==> read_attribute(name + (before + rest)) == Err::<(Pair, Seq<char>), Seq<char>>(
            "an XML attribute has no value"@,
        ),
        (rest.len() > 0 ==> rest[0] != '"' && rest[0] != '\'' && !is_white_space(rest[0]))
            ==> read_attribute(name + (before + (seq!['='] + (behind + rest)))) == Err::<
            (Pair, Seq<char>),
            Seq<char>,
        >("an XML attribute value is not quoted"@),
{
    if rest.len() > 0 && rest[0] != '=' && !is_white_space(rest[0]) && ends_name(
        (before + rest)[0],
    ) {
        lemma_name_back(name, before + rest);
        lemma_blank_trimmed(before, rest);
    }
    if rest.len() > 0 ==> rest[0] != '"' && rest[0] != '\'' && !is_white_space(rest[0]) {
        lemma_up_to_quote(name, before, behind, rest);
        lemma_blank_trimmed(behind, rest);
        if rest.len() == 0 {
            assert(trim_start(rest) =~= rest);
        }
    }
}

/// An attribute whose value is not closed is refused.
pub proof fn a_value_is_closed(
    name: Seq<char>,
    before: Seq<char>,
    behind: Seq<char>,
    quote: char,
    raw: Seq<char>,
)
    requires
        valid_name(name),
        blank(before),
        blank(behind),
        quote == '"' || quote == '\'',
        !raw.contains(quote),
    ensures
        read_attribute(name + (before + (seq!['='] + (behind + (seq![quote] + raw))))) == Err::<
            (Pair, Seq<char>),
            Seq<char>,
        >("an XML attribute value is not closed"@),
{
    let unclosed = seq![quote] + raw;
    lemma_up_to_quote(name, before, behind, unclosed);
    assert(unclosed[0] == quote);
    lemma_blank_trimmed(behind, unclosed);
    assert(unclosed.skip(1) =~= raw);
    lemma_position_of(raw, quote);
}

/// An attribute whose value holds an opening bracket is refused, and so is one that
/// is not set apart from what follows.
pub proof fn a_value_holds_no_bracket_and_is_set_apart(
    name: Seq<char>,
    before: Seq<char>,
    behind: Seq<char>,
    quote: char,
    raw: Seq<char>,
    rest: Seq<char>,
)
    requires
        valid_name(name),
        blank(before),
        blank(behind),
        quote == '"' || quote == '\'',
        !raw.contains(quote),
    ensures
        raw.contains('<') ==> read_attribute(spelled(name, before, behind, quote, raw) + rest)
            == Err::<(Pair, Seq<char>), Seq<char>>("an XML attribute value holds a '<'"@),
        !raw.contains('<') && read_value(raw) is Ok && rest.len() > 0 && !ends_name(rest[0])
            ==> read_attribute(spelled(name, before, behind, quote, raw) + rest) == Err::<
            (Pair, Seq<char>),
            Seq<char>,
        >("an XML attribute is not set apart from the one before it"@),
{
    let body = raw.push(quote) + rest;
    let quoted = seq![quote] + body;
    let whole = name + (before + (seq!['='] + (behind + quoted)));
    assert(spelled(name, before, behind, quote, raw) + rest =~= whole);
    lemma_up_to_quote(name, before, behind, quoted);
    assert(quoted[0] == quote);
    lemma_blank_trimmed(behind, quoted);
    assert(quoted.skip(1) =~= body);
    lemma_position_after(raw, quote, rest);
    assert(body.take(raw.len() as int) =~= raw);
    assert(body.skip(raw.len() as int + 1) =~= rest);
}

/// A name and an equals sign are read, whatever follows.
proof fn lemma_up_to_quote(
    name: Seq<char>,
    before: Seq<char>,
    behind: Seq<char>,
    rest: Seq<char>,
)
    requires
        valid_name(name),
        blank(before),
    ensures
        ({
            let equals = seq!['='] + (behind + rest);
            &&& read_name(name + (before + equals)) == Ok::<(Seq<char>, Seq<char>), Seq<char>>(
                (name, before + equals),
            )
            &&& trim_start(before + equals) == equals
            &&& equals[0] == '='
            &&& equals.skip(1) == behind + rest
        }),
{
    let equals = seq!['='] + (behind + rest);
    let after_name = before + equals;
    assert(equals[0] == '=');
    assert(ends_name(after_name[0])) by {
        if before.len() > 0 {
            assert(is_white_space(before[0]));
            assert(after_name[0] == before[0]);
        } else {
            assert(after_name[0] == '=');
        }
    }
    lemma_name_back(name, after_name);
    lemma_blank_trimmed(before, equals);
    assert(equals.skip(1) =~= behind + rest);
}

/// What does not begin with an opening bracket is no element; an element whose
/// name or tag is refused is refused with that, and so is an attribute whose name
/// is; and an end tag that is not closed is refused.
pub proof fn an_element_is_refused_where_it_is_not_one(
    s: Seq<char>,
    name: Seq<char>,
    blanks: Seq<char>,
    rest: Seq<char>,
)
    requires
        blank(blanks),
        rest.len() > 0 ==> rest[0] != '>' && !is_white_space(rest[0]),
    ensures
        s.len() == 0 || s[0] != '<' ==> read_element(s) == Err::<
            (ElementModel, Seq<char>),
            Seq<char>,
        >("expected an XML element"@),
        s.len() > 0 && s[0] == '<' ==> (read_name(s.skip(1)) matches Err(fault) ==> read_element(s)
            == Err::<(ElementModel, Seq<char>), Seq<char>>(fault)),
        s.len() > 0 && s[0] == '<' ==> (read_name(s.skip(1)) matches Ok((_, tag)) ==> (read_tag(
            tag,
        ) matches Err(fault) ==> read_element(s) == Err::<(ElementModel, Seq<char>), Seq<char>>(
            fault,
        ))),
        read_name(s) matches Err(fault) ==> read_attribute(s) == Err::<
            (Pair, Seq<char>),
            Seq<char>,
        >(fault),
        read_attributes(s) matches Err(fault) ==> read_tag(s) == Err::<
            ((Seq<Pair>, Seq<Pair>), Seq<char>),
            Seq<char>,
        >(fault),
        read_children("</"@ + name + (blanks + rest), name) == Err::<
            (Seq<NodeModel>, Seq<char>),
            Seq<char>,
        >("an XML end tag is not closed"@),
{
    reveal_strlit("</");
    reveal_strlit("<!--");
    let tag = "</"@ + name;
    let whole = tag + (blanks + rest);
    lemma_differs(whole, "<!--"@, 1);
    assert(whole.take(tag.len() as int) =~= tag);
    assert(whole.skip(tag.len() as int) =~= blanks + rest);
    lemma_blank_trimmed(blanks, rest);
    if rest.len() == 0 {
        assert(trim_start(rest) =~= rest);
    }
}

} // verus!
