//! A small XML reader, and nothing beyond what a signed assertion needs.
//!
//! This parses the well-formed subset a SAML assertion is: elements, attributes,
//! text, the five predefined entities and decimal and hexadecimal character
//! references, with the XML declaration and comments skipped. It refuses what it
//! does not implement — CDATA sections, other entities, processing instructions
//! and DTDs — and what is not well-formed: names that are none, start tags that
//! give an attribute twice, run two together, or hold an opening bracket in a
//! value, `--` in a comment, `]]>` in text, and characters that XML does not
//! allow. It refuses these rather than mishandle them, because a signature over
//! something read wrong is worse than a refusal.

use crate::error::{meets, AuthenticateError};
use crate::laws::consuming::lemma_element_alone;
use crate::text::{
    find_char, find_from, holds_char, is_white_space, lemma_position_of, position, position_of, same,
    skip_white_space, slice, starts_at, starts_with, to_chars, trim_start, white_space,
};
use crate::xml::{nodes_view, pairs_view, Element, ElementModel, Node, NodeModel, Pair};
use vstd::prelude::*;

verus! {

/// What reading leaves: the value read and the text after it, or a refusal.
pub type Reading<T> = Result<(T, Seq<char>), Seq<char>>;

pub const DECLARATION_OPEN: &'static str = "the XML declaration is not closed";

pub const COMMENT_OPEN: &'static str = "an XML comment is not closed";

pub const COMMENT_DASHES: &'static str = "an XML comment holds '--'";

pub const DTD_OR_INSTRUCTION: &'static str =
    "the XML holds a DTD or processing instruction, which this reader refuses";

pub const NOT_AN_ELEMENT: &'static str = "expected an XML element";

pub const END_TAG_OPEN: &'static str = "an XML end tag is not closed";

pub const CDATA: &'static str = "the XML holds a CDATA section, which this reader refuses";

pub const CDATA_END: &'static str = "the XML holds ']]>' in its text";

pub const ELEMENT_OPEN: &'static str = "an XML element is not closed";

pub const NO_VALUE: &'static str = "an XML attribute has no value";

pub const NOT_QUOTED: &'static str = "an XML attribute value is not quoted";

pub const VALUE_OPEN: &'static str = "an XML attribute value is not closed";

pub const VALUE_MARKUP: &'static str = "an XML attribute value holds a '<'";

pub const NOT_SEPARATED: &'static str = "an XML attribute is not set apart from the one before it";

pub const REPEATED: &'static str = "an XML element has an attribute or a declaration twice";

pub const NAME_OPEN: &'static str = "an XML name does not end";

pub const NAME_EMPTY: &'static str = "an XML name is empty";

pub const NOT_A_NAME: &'static str = "an XML name holds a character that a name cannot";

pub const NOT_ALLOWED: &'static str = "the XML holds a character that XML does not allow";

pub const ENTITY_OPEN: &'static str = "an XML entity is not terminated";

pub const NOT_A_CHARACTER: &'static str = "an XML character reference is not a character";

pub const TRAILING: &'static str = "the XML has content after its root element";

pub const UNDEFINED_BEFORE: &'static str = "the XML holds the entity '&";

pub const UNDEFINED_AFTER: &'static str = ";', which this reader does not define";

/// The value of a digit in a radix up to sixteen.
pub open spec fn digit(c: char, radix: nat) -> Option<nat> {
    let value: int = if '0' <= c <= '9' {
        c as int - '0' as int
    } else if 'a' <= c <= 'f' {
        c as int - 'a' as int + 10
    } else if 'A' <= c <= 'F' {
        c as int - 'A' as int + 10
    } else {
        16
    };
    if value < radix {
        Some(value as nat)
    } else {
        None
    }
}

/// The number a run of digits writes; none where it is empty or holds anything
/// but digits.
pub open spec fn number(s: Seq<char>, radix: nat) -> Option<nat>
    decreases s.len(),
{
    if s.len() == 0 {
        None
    } else {
        match digit(s.last(), radix) {
            None => None,
            Some(low) => if s.len() == 1 {
                Some(low)
            } else {
                match number(s.drop_last(), radix) {
                    None => None,
                    Some(high) => Some(high * radix + low),
                }
            },
        }
    }
}

/// The character with this code, where there is one.
pub open spec fn character(code: Option<nat>) -> Result<char, Seq<char>> {
    match code {
        Some(code) => if code <= 0xd7ff || 0xe000 <= code <= 0x10ffff {
            Ok(code as char)
        } else {
            Err(NOT_A_CHARACTER@)
        },
        None => Err(NOT_A_CHARACTER@),
    }
}

/// The character an entity stands for: one of the five predefined, or a
/// hexadecimal or decimal character reference.
pub open spec fn entity(name: Seq<char>) -> Result<char, Seq<char>> {
    if name == "lt"@ {
        Ok('<')
    } else if name == "gt"@ {
        Ok('>')
    } else if name == "amp"@ {
        Ok('&')
    } else if name == "quot"@ {
        Ok('"')
    } else if name == "apos"@ {
        Ok('\'')
    } else if starts_with(name, "#x"@) || starts_with(name, "#X"@) {
        character(number(name.skip(2), 16))
    } else if name.len() > 0 && name[0] == '#' {
        character(number(name.skip(1), 10))
    } else {
        Err(UNDEFINED_BEFORE@ + name + UNDEFINED_AFTER@)
    }
}

/// The text with every entity replaced by the character it stands for.
pub open spec fn unescaped(s: Seq<char>) -> Result<Seq<char>, Seq<char>>
    decreases s.len(),
{
    match position_of(s, '&') {
        None => Ok(s),
        Some(at) => {
            let after = s.skip(at as int + 1);
            match position_of(after, ';') {
                None => Err(ENTITY_OPEN@),
                Some(end) => match entity(after.take(end as int)) {
                    Err(fault) => Err(fault),
                    Ok(c) => {
                        proof {
                            lemma_position_of(s, '&');
                            lemma_position_of(after, ';');
                        }
                        match unescaped(after.skip(end as int + 1)) {
                            Err(fault) => Err(fault),
                            Ok(rest) => Ok(s.take(at as int).push(c) + rest),
                        }
                    },
                },
            }
        },
    }
}

/// Whether XML allows a character in a document.
pub open spec fn is_allowed(c: char) -> bool {
    ||| c == '\t'
    ||| c == '\n'
    ||| c == '\r'
    ||| ' ' <= c <= '\u{d7ff}'
    ||| '\u{e000}' <= c <= '\u{fffd}'
    ||| '\u{10000}' <= c
}

/// Whether XML allows every character of the text.
pub open spec fn all_allowed(s: Seq<char>) -> bool {
    forall|i: int| 0 <= i < s.len() ==> is_allowed(#[trigger] s[i])
}

/// Read a run of text: its entities replaced by the characters they stand for.
/// What closes a CDATA section, and a character that XML does not allow, are
/// refused.
pub open spec fn read_text(raw: Seq<char>) -> Result<Seq<char>, Seq<char>> {
    if position(raw, "]]>"@) is Some {
        Err(CDATA_END@)
    } else {
        read_value(raw)
    }
}

/// Read what stands between quotes: its entities replaced by the characters they
/// stand for. A character that XML does not allow is refused.
pub open spec fn read_value(raw: Seq<char>) -> Result<Seq<char>, Seq<char>> {
    match unescaped(raw) {
        Err(fault) => Err(fault),
        Ok(value) => if all_allowed(value) {
            Ok(value)
        } else {
            Err(NOT_ALLOWED@)
        },
    }
}

/// Whether a name can begin with the character.
pub open spec fn begins_name(c: char) -> bool {
    ||| c == ':'
    ||| c == '_'
    ||| 'A' <= c <= 'Z'
    ||| 'a' <= c <= 'z'
    ||| '\u{c0}' <= c <= '\u{d6}'
    ||| '\u{d8}' <= c <= '\u{f6}'
    ||| '\u{f8}' <= c <= '\u{2ff}'
    ||| '\u{370}' <= c <= '\u{37d}'
    ||| '\u{37f}' <= c <= '\u{1fff}'
    ||| '\u{200c}' <= c <= '\u{200d}'
    ||| '\u{2070}' <= c <= '\u{218f}'
    ||| '\u{2c00}' <= c <= '\u{2fef}'
    ||| '\u{3001}' <= c <= '\u{d7ff}'
    ||| '\u{f900}' <= c <= '\u{fdcf}'
    ||| '\u{fdf0}' <= c <= '\u{fffd}'
    ||| '\u{10000}' <= c <= '\u{effff}'
}

/// Whether a name can hold the character after its first.
pub open spec fn continues_name(c: char) -> bool {
    ||| begins_name(c)
    ||| c == '-'
    ||| c == '.'
    ||| '0' <= c <= '9'
    ||| c == '\u{b7}'
    ||| '\u{300}' <= c <= '\u{36f}'
    ||| '\u{203f}' <= c <= '\u{2040}'
}

/// Whether the text is a name, by the grammar of XML.
pub open spec fn is_name(s: Seq<char>) -> bool {
    &&& s.len() > 0
    &&& begins_name(s[0])
    &&& forall|i: int| 0 <= i < s.len() ==> continues_name(#[trigger] s[i])
}

/// Whether a character ends a name.
pub open spec fn ends_name(c: char) -> bool {
    is_white_space(c) || c == '>' || c == '/' || c == '='
}

/// How long the name is that the text begins with.
pub open spec fn name_length(s: Seq<char>) -> Option<nat>
    decreases s.len(),
{
    if s.len() == 0 {
        None
    } else if ends_name(s[0]) {
        Some(0)
    } else {
        match name_length(s.drop_first()) {
            Some(length) => Some(length + 1),
            None => None,
        }
    }
}

/// Read a name.
pub open spec fn read_name(s: Seq<char>) -> Reading<Seq<char>> {
    match name_length(s) {
        None => Err(NAME_OPEN@),
        Some(length) => if length == 0 {
            Err(NAME_EMPTY@)
        } else if !is_name(s.take(length as int)) {
            Err(NOT_A_NAME@)
        } else {
            Ok((s.take(length as int), s.skip(length as int)))
        },
    }
}

/// Whether what follows a quoted value is set apart from it: it ends a name.
pub open spec fn set_apart(s: Seq<char>) -> bool {
    s.len() == 0 || ends_name(s[0])
}

/// Read one attribute: a name, an equals sign and a quoted value, which holds no
/// opening bracket and is set apart from what follows.
pub open spec fn read_attribute(s: Seq<char>) -> Reading<Pair> {
    match read_name(s) {
        Err(fault) => Err(fault),
        Ok((name, after_name)) => {
            let equals = trim_start(after_name);
            if !(equals.len() > 0 && equals[0] == '=') {
                Err(NO_VALUE@)
            } else {
                let quoted = trim_start(equals.skip(1));
                if !(quoted.len() > 0 && (quoted[0] == '"' || quoted[0] == '\'')) {
                    Err(NOT_QUOTED@)
                } else {
                    let body = quoted.skip(1);
                    match position_of(body, quoted[0]) {
                        None => Err(VALUE_OPEN@),
                        Some(end) => if body.take(end as int).contains('<') {
                            Err(VALUE_MARKUP@)
                        } else {
                            match read_value(body.take(end as int)) {
                                Err(fault) => Err(fault),
                                Ok(value) => if set_apart(body.skip(end as int + 1)) {
                                    Ok(((name, value), body.skip(end as int + 1)))
                                } else {
                                    Err(NOT_SEPARATED@)
                                },
                            }
                        },
                    }
                }
            }
        },
    }
}

/// The prefix an attribute of this name declares, where it declares one.
pub open spec fn declared_prefix(name: Seq<char>) -> Option<Seq<char>> {
    if name == "xmlns"@ {
        Some(Seq::empty())
    } else if starts_with(name, "xmlns:"@) {
        Some(name.skip(6))
    } else {
        None
    }
}

/// Read the attributes of a start tag up to its end, the namespace declarations
/// apart from the others.
pub open spec fn read_attributes(s: Seq<char>) -> Reading<(Seq<Pair>, Seq<Pair>)>
    decreases s.len(),
{
    let start = trim_start(s);
    if starts_with(start, ">"@) || starts_with(start, "/>"@) {
        Ok(((Seq::empty(), Seq::empty()), start))
    } else {
        match read_attribute(start) {
            Err(fault) => Err(fault),
            Ok(((name, value), rest)) => {
                proof {
                    lemma_trim_start_bound(s);
                    lemma_read_attribute_progress(start);
                }
                match read_attributes(rest) {
                    Err(fault) => Err(fault),
                    Ok(((namespaces, attributes), after)) => match declared_prefix(name) {
                        Some(prefix) => Ok(
                            ((seq![(prefix, value)] + namespaces, attributes), after),
                        ),
                        None => Ok(((namespaces, seq![(name, value)] + attributes), after)),
                    },
                }
            },
        }
    }
}

/// Whether no two of the pairs have the same name.
pub open spec fn names_differ(pairs: Seq<Pair>) -> bool {
    forall|i: int, j: int|
        0 <= i < j < pairs.len() ==> (#[trigger] pairs[i]).0 != (#[trigger] pairs[j]).0
}

/// Read the attributes of a start tag up to its end; no prefix may be declared
/// twice, and no attribute given twice.
pub open spec fn read_tag(s: Seq<char>) -> Reading<(Seq<Pair>, Seq<Pair>)> {
    match read_attributes(s) {
        Err(fault) => Err(fault),
        Ok(((namespaces, attributes), rest)) => if names_differ(namespaces) && names_differ(
            attributes,
        ) {
            Ok(((namespaces, attributes), rest))
        } else {
            Err(REPEATED@)
        },
    }
}

/// The text after the comment it begins with, which holds no `--`.
pub open spec fn after_comment(s: Seq<char>) -> Result<Seq<char>, Seq<char>> {
    let body = s.skip(4);
    match position(body, "-->"@) {
        None => Err(COMMENT_OPEN@),
        Some(end) => if position(body, "--"@) == Some(end) {
            Ok(body.skip(end as int + 3))
        } else {
            Err(COMMENT_DASHES@)
        },
    }
}

/// The text after the white space and comments it begins with; a DTD or a
/// processing instruction there is refused.
pub open spec fn after_trivia(s: Seq<char>) -> Result<Seq<char>, Seq<char>>
    decreases s.len(),
{
    let start = trim_start(s);
    if starts_with(start, "<!--"@) {
        match after_comment(start) {
            Err(fault) => Err(fault),
            Ok(rest) => {
                proof {
                    lemma_trim_start_bound(s);
                    lemma_after_comment_progress(start);
                }
                after_trivia(rest)
            },
        }
    } else if starts_with(start, "<!"@) || starts_with(start, "<?"@) {
        Err(DTD_OR_INSTRUCTION@)
    } else {
        Ok(start)
    }
}

/// Whether the text begins with an XML declaration.
pub open spec fn declares_xml(s: Seq<char>) -> bool {
    starts_with(s, "<?xml"@) && (s.len() == 5 || is_white_space(s[5]) || s[5] == '?')
}

/// The text after the XML declaration, where there is one, and the trivia after
/// that.
pub open spec fn after_prolog(s: Seq<char>) -> Result<Seq<char>, Seq<char>> {
    let start = trim_start(s);
    if declares_xml(start) {
        match position(start, "?>"@) {
            None => Err(DECLARATION_OPEN@),
            Some(end) => after_trivia(start.skip(end as int + 2)),
        }
    } else {
        after_trivia(start)
    }
}

/// Read one element.
pub open spec fn read_element(s: Seq<char>) -> Reading<ElementModel>
    decreases s.len(), 0nat,
{
    if !(s.len() > 0 && s[0] == '<') {
        Err(NOT_AN_ELEMENT@)
    } else {
        match read_name(s.skip(1)) {
            Err(fault) => Err(fault),
            Ok((name, after_name)) => match read_tag(after_name) {
                Err(fault) => Err(fault),
                Ok(((namespaces, attributes), tag)) => if starts_with(tag, "/>"@) {
                    Ok(
                        (
                            ElementModel { name, namespaces, attributes, children: Seq::empty() },
                            tag.skip(2),
                        ),
                    )
                } else {
                    proof {
                        lemma_read_name_progress(s.skip(1));
                        lemma_read_attributes_bound(after_name);
                        reveal_strlit(">");
                    }
                    match read_children(tag.skip(1), name) {
                        Err(fault) => Err(fault),
                        Ok((children, rest)) => Ok(
                            (ElementModel { name, namespaces, attributes, children }, rest),
                        ),
                    }
                },
            },
        }
    }
}

/// Read one child: an element or a run of text. A CDATA section, a DTD and a
/// processing instruction are refused.
pub open spec fn read_child(s: Seq<char>) -> Reading<NodeModel>
    decreases s.len(), 1nat,
{
    if starts_with(s, "<![CDATA["@) {
        Err(CDATA@)
    } else if starts_with(s, "<!"@) || starts_with(s, "<?"@) {
        Err(DTD_OR_INSTRUCTION@)
    } else if s.len() > 0 && s[0] == '<' {
        match read_element(s) {
            Err(fault) => Err(fault),
            Ok((element, rest)) => Ok((NodeModel::Element(element), rest)),
        }
    } else {
        match position_of(s, '<') {
            None => Err(ELEMENT_OPEN@),
            Some(at) => match read_text(s.take(at as int)) {
                Err(fault) => Err(fault),
                Ok(text) => Ok((NodeModel::Text(text), s.skip(at as int))),
            },
        }
    }
}

/// Read the children of the element with this name, up to and with its end tag;
/// comments among them are passed over.
pub open spec fn read_children(s: Seq<char>, name: Seq<char>) -> Reading<Seq<NodeModel>>
    decreases s.len(), 2nat,
{
    if starts_with(s, "<!--"@) {
        match after_comment(s) {
            Err(fault) => Err(fault),
            Ok(rest) => {
                proof {
                    lemma_after_comment_progress(s);
                }
                read_children(rest, name)
            },
        }
    } else if starts_with(s, "</"@ + name) {
        let rest = trim_start(s.skip(2 + name.len() as int));
        if rest.len() > 0 && rest[0] == '>' {
            Ok((Seq::empty(), rest.skip(1)))
        } else {
            Err(END_TAG_OPEN@)
        }
    } else {
        match read_child(s) {
            Err(fault) => Err(fault),
            Ok((child, rest)) => if rest.len() < s.len() {
                preceded(child, read_children(rest, name))
            } else {
                Err(ELEMENT_OPEN@)
            },
        }
    }
}

/// The children read, with one more before them.
pub open spec fn preceded(first: NodeModel, rest: Reading<Seq<NodeModel>>) -> Reading<
    Seq<NodeModel>,
> {
    match rest {
        Err(fault) => Err(fault),
        Ok((children, after)) => Ok((seq![first] + children, after)),
    }
}

/// The text without the byte order marks it begins with.
pub open spec fn after_marks(s: Seq<char>) -> Seq<char>
    decreases s.len(),
{
    if s.len() > 0 && s[0] == '\u{feff}' {
        after_marks(s.drop_first())
    } else {
        s
    }
}

/// Read a document: a prolog, one element, and nothing but trivia after it; XML
/// allows every character of it.
pub open spec fn read_document(xml: Seq<char>) -> Result<ElementModel, Seq<char>> {
    if !all_allowed(xml) {
        Err(NOT_ALLOWED@)
    } else {
        match after_prolog(after_marks(xml)) {
            Err(fault) => Err(fault),
            Ok(start) => match read_element(start) {
                Err(fault) => Err(fault),
                Ok((element, rest)) => match after_trivia(rest) {
                    Err(fault) => Err(fault),
                    Ok(left) => if left.len() == 0 {
                        Ok(element)
                    } else {
                        Err(TRAILING@)
                    },
                },
            },
        }
    }
}

/// A number only grows as digits are added to it, and what is not a number stays
/// none.
pub proof fn lemma_number_prefix(s: Seq<char>, length: int, radix: nat)
    requires
        0 < length <= s.len(),
        radix >= 1,
    ensures
        number(s.take(length), radix) is None ==> number(s, radix) is None,
        number(s, radix) matches Some(value) ==> number(s.take(length), radix) matches Some(part)
            && part <= value,
    decreases s.len(),
{
    if length == s.len() {
        assert(s.take(length) =~= s);
    } else {
        lemma_number_prefix(s.drop_last(), length, radix);
        assert(s.drop_last().take(length) =~= s.take(length));
        if let Some(high) = number(s.drop_last(), radix) {
            assert(high * radix >= high) by (nonlinear_arith)
                requires
                    radix >= 1,
                    high >= 0,
            ;
        }
    }
}

/// The value of a digit in a radix up to sixteen.
pub fn digit_value(c: char, radix: u32) -> (r: Option<u32>)
    requires
        radix <= 16,
    ensures
        match r {
            Some(value) => digit(c, radix as nat) == Some(value as nat),
            None => digit(c, radix as nat) is None,
        },
{
    let value: u32 = if '0' <= c && c <= '9' {
        c as u32 - '0' as u32
    } else if 'a' <= c && c <= 'f' {
        c as u32 - 'a' as u32 + 10
    } else if 'A' <= c && c <= 'F' {
        c as u32 - 'A' as u32 + 10
    } else {
        16
    };
    if value < radix {
        Some(value)
    } else {
        None
    }
}

/// The character whose code the digits from `from` on write.
fn referenced(digits: &Vec<char>, from: usize, radix: u32) -> (r: Result<char, AuthenticateError>)
    requires
        from <= digits.len(),
        radix == 10 || radix == 16,
    ensures
        meets(r, character(number(digits@.skip(from as int), radix as nat))),
{
    let ghost all = digits@.skip(from as int);
    let mut value: u32 = 0;
    let mut i: usize = from;
    while i < digits.len()
        invariant
            from <= i <= digits.len(),
            radix == 10 || radix == 16,
            all == digits@.skip(from as int),
            value <= 0x10ffff,
            i == from ==> value == 0,
            i > from ==> number(all.take(i - from), radix as nat) == Some(value as nat),
        decreases digits.len() - i,
    {
        let ghost read = all.take(i + 1 - from);
        proof {
            assert(read.drop_last() =~= all.take(i - from));
            assert(read.last() == digits@[i as int]);
            lemma_number_prefix(all, i + 1 - from, radix as nat);
        }
        match digit_value(digits[i], radix) {
            None => {
                return Err(AuthenticateError::new(NOT_A_CHARACTER));
            },
            Some(low) => {
                value = value * radix + low;
                assert(number(read, radix as nat) == Some(value as nat));
                if value > 0x10ffff {
                    return Err(AuthenticateError::new(NOT_A_CHARACTER));
                }
            },
        }
        i += 1;
    }
    assert(i > from ==> all.take(i - from) =~= all);
    if i == from {
        return Err(AuthenticateError::new(NOT_A_CHARACTER));
    }
    match char::from_u32(value) {
        Some(c) => Ok(c),
        None => Err(AuthenticateError::new(NOT_A_CHARACTER)),
    }
}

/// The character an entity stands for.
fn resolve(name: &str) -> (r: Result<char, AuthenticateError>)
    ensures
        meets(r, entity(name@)),
{
    if same(name, "lt") {
        return Ok('<');
    }
    if same(name, "gt") {
        return Ok('>');
    }
    if same(name, "amp") {
        return Ok('&');
    }
    if same(name, "quot") {
        return Ok('"');
    }
    if same(name, "apos") {
        return Ok('\'');
    }
    let chars = to_chars(name);
    assert(chars@.skip(0) =~= name@);
    proof {
        reveal_strlit("#x");
        reveal_strlit("#X");
    }
    if starts_at(&chars, 0, "#x") || starts_at(&chars, 0, "#X") {
        return referenced(&chars, 2, 16);
    }
    if chars.len() > 0 && chars[0] == '#' {
        return referenced(&chars, 1, 10);
    }
    Err(AuthenticateError::naming(UNDEFINED_BEFORE, name, UNDEFINED_AFTER))
}

/// Unescape the five predefined entities and numeric character references.
#[verifier::rlimit(30)]
pub fn unescape(text: &str) -> (r: Result<String, AuthenticateError>)
    ensures
        meets(r, unescaped(text@)),
{
    let chars = to_chars(text);
    let mut out = String::new();
    let mut at: usize = 0;
    assert(chars@.skip(0) =~= text@);
    loop
        invariant
            chars@ == text@,
            at <= chars.len(),
            match unescaped(chars@.skip(at as int)) {
                Ok(rest) => unescaped(text@) == Ok::<Seq<char>, Seq<char>>(out@ + rest),
                Err(fault) => unescaped(text@) == Err::<Seq<char>, Seq<char>>(fault),
            },
        decreases chars.len() - at,
    {
        let ghost rest = chars@.skip(at as int);
        match find_char(&chars, at, '&') {
            None => {
                let last = slice(&chars, at, chars.len());
                assert(last@ =~= rest);
                out.append(last.as_str());
                return Ok(out);
            },
            Some(start) => {
                let ghost after = rest.skip(start - at + 1);
                assert(after =~= chars@.skip(start + 1));
                match find_char(&chars, start + 1, ';') {
                    None => {
                        return Err(AuthenticateError::new(ENTITY_OPEN));
                    },
                    Some(end) => {
                        let name = slice(&chars, start + 1, end);
                        assert(name@ =~= after.take(end - start - 1));
                        let before = slice(&chars, at, start);
                        assert(before@ =~= rest.take(start - at));
                        match resolve(name.as_str()) {
                            Err(refusal) => {
                                return Err(refusal);
                            },
                            Ok(c) => {
                                let ghost prior = out@;
                                out.append(before.as_str());
                                out.push(c);
                                at = end + 1;
                                let ghost left = chars@.skip(at as int);
                                assert(after.skip(end - start) =~= left);
                                assert(out@ =~= prior + before@.push(c));
                                proof {
                                    if let Ok(tail) = unescaped(left) {
                                        assert(prior + (before@.push(c) + tail) =~= out@ + tail);
                                    }
                                }
                            },
                        }
                    },
                }
            },
        }
    }
}

/// A pattern that is found lies in the text.
pub proof fn lemma_position_bound(s: Seq<char>, pattern: Seq<char>)
    ensures
        position(s, pattern) matches Some(at) ==> at + pattern.len() <= s.len(),
    decreases s.len(),
{
    if s.len() > 0 {
        lemma_position_bound(s.drop_first(), pattern);
    }
}

/// Trimming makes no text longer.
pub proof fn lemma_trim_start_bound(s: Seq<char>)
    ensures
        trim_start(s).len() <= s.len(),
    decreases s.len(),
{
    if s.len() > 0 {
        lemma_trim_start_bound(s.drop_first());
    }
}

/// A comment consumes text.
pub proof fn lemma_after_comment_progress(s: Seq<char>)
    requires
        starts_with(s, "<!--"@),
    ensures
        after_comment(s) matches Ok(rest) ==> rest.len() < s.len(),
{
    reveal_strlit("<!--");
    reveal_strlit("-->");
    lemma_position_bound(s.skip(4), "-->"@);
}

/// A name ends before the text does.
pub proof fn lemma_name_length_bound(s: Seq<char>)
    ensures
        name_length(s) matches Some(length) ==> length < s.len(),
    decreases s.len(),
{
    if s.len() > 0 {
        lemma_name_length_bound(s.drop_first());
    }
}

/// Reading a name consumes text, and leaves what ends it.
pub proof fn lemma_read_name_progress(s: Seq<char>)
    ensures
        read_name(s) matches Ok((name, rest)) ==> rest.len() < s.len() && rest.len() > 0,
{
    lemma_name_length_bound(s);
}

/// Reading an attribute consumes text.
pub proof fn lemma_read_attribute_progress(s: Seq<char>)
    ensures
        read_attribute(s) matches Ok((_, rest)) ==> rest.len() < s.len(),
{
    lemma_read_name_progress(s);
    if let Ok((name, after_name)) = read_name(s) {
        lemma_trim_start_bound(after_name);
        let equals = trim_start(after_name);
        if equals.len() > 0 {
            lemma_trim_start_bound(equals.skip(1));
            let quoted = trim_start(equals.skip(1));
            if quoted.len() > 0 {
                lemma_position_of(quoted.skip(1), quoted[0]);
            }
        }
    }
}

/// Reading attributes leaves the end of the tag.
pub proof fn lemma_read_attributes_bound(s: Seq<char>)
    ensures
        read_attributes(s) matches Ok((_, rest)) ==> rest.len() <= s.len() && (starts_with(
            rest,
            ">"@,
        ) || starts_with(rest, "/>"@)),
    decreases s.len(),
{
    let start = trim_start(s);
    lemma_trim_start_bound(s);
    lemma_read_attribute_progress(start);
    if let Ok((_, rest)) = read_attribute(start) {
        if !(starts_with(start, ">"@) || starts_with(start, "/>"@)) {
            lemma_read_attributes_bound(rest);
        }
    }
}

/// Reading an element, a child or an element's children consumes text.
pub proof fn lemma_read_progress(s: Seq<char>, name: Seq<char>)
    ensures
        read_element(s) matches Ok((_, rest)) ==> rest.len() < s.len(),
        read_child(s) matches Ok((_, rest)) ==> rest.len() < s.len(),
        read_children(s, name) matches Ok((_, rest)) ==> rest.len() < s.len(),
    decreases s.len(),
{
    if s.len() > 0 && s[0] == '<' {
        lemma_read_name_progress(s.skip(1));
        if let Ok((own, after_name)) = read_name(s.skip(1)) {
            lemma_read_attributes_bound(after_name);
            if let Ok((_, tag)) = read_attributes(after_name) {
                reveal_strlit("/>");
                reveal_strlit(">");
                lemma_read_progress(tag.skip(1), own);
            }
        }
    } else {
        lemma_position_of(s, '<');
    }
    if starts_with(s, "<!--"@) {
        lemma_after_comment_progress(s);
        if let Ok(rest) = after_comment(s) {
            lemma_read_progress(rest, name);
        }
    } else if starts_with(s, "</"@ + name) {
        reveal_strlit("</");
        lemma_trim_start_bound(s.skip(2 + name.len() as int));
    } else if let Ok((_, rest)) = read_child(s) {
        lemma_read_progress(rest, name);
    }
}

/// Whether XML allows a character in a document.
fn allowed(c: char) -> (r: bool)
    ensures
        r == is_allowed(c),
{
    c == '\t' || c == '\n' || c == '\r' || (' ' <= c && c <= '\u{d7ff}') || ('\u{e000}' <= c && c
        <= '\u{fffd}') || '\u{10000}' <= c
}

/// Whether XML allows every character of the text.
fn holds_allowed(text: &str) -> (r: bool)
    ensures
        r == all_allowed(text@),
{
    let chars = to_chars(text);
    let mut i: usize = 0;
    while i < chars.len()
        invariant
            i <= chars.len(),
            chars@ == text@,
            forall|k: int| 0 <= k < i ==> is_allowed(#[trigger] chars@[k]),
        decreases chars.len() - i,
    {
        if !allowed(chars[i]) {
            assert(!is_allowed(text@[i as int]));
            return false;
        }
        i += 1;
    }
    true
}

/// Read what stands between quotes.
fn value_read(raw: &str) -> (r: Result<String, AuthenticateError>)
    ensures
        meets(r, read_value(raw@)),
{
    let value = unescape(raw)?;
    if holds_allowed(value.as_str()) {
        Ok(value)
    } else {
        Err(AuthenticateError::new(NOT_ALLOWED))
    }
}

/// Read a run of text.
fn text_read(raw: &str) -> (r: Result<String, AuthenticateError>)
    ensures
        meets(r, read_text(raw@)),
{
    let chars = to_chars(raw);
    assert(chars@.skip(0) =~= raw@);
    match find_from(&chars, 0, "]]>") {
        Some(_) => Err(AuthenticateError::new(CDATA_END)),
        None => value_read(raw),
    }
}

/// Whether a name can begin with the character.
fn name_start(c: char) -> (r: bool)
    ensures
        r == begins_name(c),
{
    c == ':' || c == '_' || ('A' <= c && c <= 'Z') || ('a' <= c && c <= 'z') || ('\u{c0}' <= c && c
        <= '\u{d6}') || ('\u{d8}' <= c && c <= '\u{f6}') || ('\u{f8}' <= c && c <= '\u{2ff}') || (
    '\u{370}' <= c && c <= '\u{37d}') || ('\u{37f}' <= c && c <= '\u{1fff}') || ('\u{200c}' <= c
        && c <= '\u{200d}') || ('\u{2070}' <= c && c <= '\u{218f}') || ('\u{2c00}' <= c && c
        <= '\u{2fef}') || ('\u{3001}' <= c && c <= '\u{d7ff}') || ('\u{f900}' <= c && c
        <= '\u{fdcf}') || ('\u{fdf0}' <= c && c <= '\u{fffd}') || ('\u{10000}' <= c && c
        <= '\u{effff}')
}

/// Whether a name can hold the character after its first.
fn name_part(c: char) -> (r: bool)
    ensures
        r == continues_name(c),
{
    name_start(c) || c == '-' || c == '.' || ('0' <= c && c <= '9') || c == '\u{b7}' || (
    '\u{300}' <= c && c <= '\u{36f}') || ('\u{203f}' <= c && c <= '\u{2040}')
}

/// Whether the characters from one place to another are a name.
fn names_at(text: &Vec<char>, from: usize, to: usize) -> (r: bool)
    requires
        from < to <= text.len(),
    ensures
        r == is_name(text@.subrange(from as int, to as int)),
{
    let ghost name = text@.subrange(from as int, to as int);
    assert(name[0] == text@[from as int]);
    if !name_start(text[from]) {
        return false;
    }
    let mut i: usize = from;
    while i < to
        invariant
            from <= i <= to <= text.len(),
            name == text@.subrange(from as int, to as int),
            forall|k: int| 0 <= k < i - from ==> continues_name(#[trigger] name[k]),
        decreases to - i,
    {
        assert(name[i - from] == text@[i as int]);
        if !name_part(text[i]) {
            return false;
        }
        i += 1;
    }
    true
}

/// Whether a character ends a name.
fn name_end(c: char) -> (r: bool)
    ensures
        r == ends_name(c),
{
    white_space(c) || c == '>' || c == '/' || c == '='
}

/// Whether no two of the pairs have the same name.
fn all_differ(pairs: &Vec<(String, String)>) -> (r: bool)
    ensures
        r == names_differ(pairs_view(pairs@)),
{
    let ghost all = pairs_view(pairs@);
    let mut i: usize = 0;
    while i < pairs.len()
        invariant
            i <= pairs.len(),
            all == pairs_view(pairs@),
            forall|k: int, l: int| 0 <= k < l < i ==> (#[trigger] all[k]).0 != (#[trigger] all[l]).0,
        decreases pairs.len() - i,
    {
        let mut j: usize = 0;
        while j < i
            invariant
                j <= i < pairs.len(),
                all == pairs_view(pairs@),
                forall|k: int| 0 <= k < j ==> (#[trigger] all[k]).0 != all[i as int].0,
            decreases i - j,
        {
            if same(pairs[j].0.as_str(), pairs[i].0.as_str()) {
                assert(all[j as int].0 == all[i as int].0);
                return false;
            }
            j += 1;
        }
        i += 1;
    }
    true
}

/// A place in a document that is being read.
pub struct Reader {
    text: Vec<char>,
    at: usize,
}

impl Reader {
    /// What is still to be read.
    pub closed spec fn rest(&self) -> Seq<char> {
        self.text@.skip(self.at as int)
    }

    /// The whole text that is being read.
    pub closed spec fn document(&self) -> Seq<char> {
        self.text@
    }

    /// The place lies in the text.
    pub closed spec fn wf(&self) -> bool {
        self.at <= self.text.len()
    }

    /// A reader of this text, at its beginning.
    pub fn new(text: &str) -> (r: Self)
        ensures
            r.wf(),
            r.document() == text@,
            r.rest() == text@,
    {
        let reader = Reader { text: to_chars(text), at: 0 };
        assert(reader.rest() =~= text@);
        reader
    }

    /// What is still to be read.
    pub fn left(&self) -> (r: String)
        requires
            self.wf(),
        ensures
            r@ == self.rest(),
    {
        let left = slice(&self.text, self.at, self.text.len());
        assert(left@ =~= self.rest());
        left
    }

    /// Skip the XML declaration and the trivia after it.
    ///
    /// # Errors
    ///
    /// Where the declaration or a comment is not closed, a comment holds `--`, or
    /// a DTD or a processing instruction stands there.
    pub fn skip_prolog(&mut self) -> (r: Result<(), AuthenticateError>)
        requires
            old(self).wf(),
        ensures
            final(self).wf(),
            final(self).document() == old(self).document(),
            match r {
                Ok(_) => after_prolog(old(self).rest()) == Ok::<Seq<char>, Seq<char>>(
                    final(self).rest(),
                ),
                Err(refusal) => after_prolog(old(self).rest()) == Err::<Seq<char>, Seq<char>>(
                    refusal.message@,
                ),
            },
    {
        self.at = skip_white_space(&self.text, self.at);
        let ghost start = self.rest();
        proof {
            reveal_strlit("<?xml");
            reveal_strlit("?>");
        }
        if starts_at(&self.text, self.at, "<?xml") && (self.at + 5 == self.text.len()
            || white_space(self.text[self.at + 5]) || self.text[self.at + 5] == '?') {
            match find_from(&self.text, self.at, "?>") {
                None => {
                    return Err(AuthenticateError::new(DECLARATION_OPEN));
                },
                Some(end) => {
                    let ghost before = self.at;
                    self.at = end + 2;
                    assert(start.skip(end - before + 2) =~= self.rest());
                },
            }
        }
        self.skip_trivia()
    }

    /// Skip a comment.
    fn skip_comment(&mut self) -> (r: Result<(), AuthenticateError>)
        requires
            old(self).wf(),
            starts_with(old(self).rest(), "<!--"@),
        ensures
            final(self).wf(),
            final(self).document() == old(self).document(),
            match r {
                Ok(_) => after_comment(old(self).rest()) == Ok::<Seq<char>, Seq<char>>(
                    final(self).rest(),
                ),
                Err(refusal) => after_comment(old(self).rest()) == Err::<Seq<char>, Seq<char>>(
                    refusal.message@,
                ),
            },
    {
        proof {
            reveal_strlit("<!--");
            reveal_strlit("-->");
        }
        let ghost body = self.rest().skip(4);
        let from = self.at + 4;
        assert(self.text@.skip(from as int) =~= body);
        match find_from(&self.text, from, "-->") {
            None => Err(AuthenticateError::new(COMMENT_OPEN)),
            Some(end) => {
                if find_from(&self.text, from, "--") != Some(end) {
                    return Err(AuthenticateError::new(COMMENT_DASHES));
                }
                self.at = end + 3;
                assert(body.skip(end - from + 3) =~= self.rest());
                Ok(())
            },
        }
    }

    /// Skip the white space and comments between markup.
    ///
    /// # Errors
    ///
    /// Where a comment is not closed or holds `--`, or a DTD or a processing
    /// instruction stands there.
    pub fn skip_trivia(&mut self) -> (r: Result<(), AuthenticateError>)
        requires
            old(self).wf(),
        ensures
            final(self).wf(),
            final(self).document() == old(self).document(),
            match r {
                Ok(_) => after_trivia(old(self).rest()) == Ok::<Seq<char>, Seq<char>>(
                    final(self).rest(),
                ),
                Err(refusal) => after_trivia(old(self).rest()) == Err::<Seq<char>, Seq<char>>(
                    refusal.message@,
                ),
            },
    {
        loop
            invariant
                self.wf(),
                self.document() == old(self).document(),
                after_trivia(self.rest()) == after_trivia(old(self).rest()),
            decreases self.text.len() - self.at,
        {
            self.at = skip_white_space(&self.text, self.at);
            let ghost start = self.rest();
            if starts_at(&self.text, self.at, "<!--") {
                proof {
                    lemma_after_comment_progress(start);
                }
                self.skip_comment()?;
            } else if starts_at(&self.text, self.at, "<!") || starts_at(&self.text, self.at, "<?") {
                return Err(AuthenticateError::new(DTD_OR_INSTRUCTION));
            } else {
                return Ok(());
            }
        }
    }

    /// Read a name.
    ///
    /// # Errors
    ///
    /// Where no name stands there, or what stands there does not end.
    pub fn take_name(&mut self) -> (r: Result<String, AuthenticateError>)
        requires
            old(self).wf(),
        ensures
            final(self).wf(),
            final(self).document() == old(self).document(),
            match r {
                Ok(name) => read_name(old(self).rest()) == Ok::<(Seq<char>, Seq<char>), Seq<char>>(
                    (name@, final(self).rest()),
                ),
                Err(refusal) => read_name(old(self).rest()) == Err::<
                    (Seq<char>, Seq<char>),
                    Seq<char>,
                >(refusal.message@),
            },
    {
        let ghost whole = self.rest();
        let mut end: usize = self.at;
        loop
            invariant
                *self == *old(self),
                self.wf(),
                self.at <= end <= self.text.len(),
                whole == self.rest(),
                match name_length(self.text@.skip(end as int)) {
                    Some(length) => name_length(whole) == Some((length + end - self.at) as nat),
                    None => name_length(whole) is None,
                },
            ensures
                end < self.text.len(),
                name_length(whole) == Some((end - self.at) as nat),
            decreases self.text.len() - end,
        {
            if end == self.text.len() {
                return Err(AuthenticateError::new(NAME_OPEN));
            }
            if name_end(self.text[end]) {
                break;
            }
            assert(self.text@.skip(end as int).drop_first() =~= self.text@.skip(end + 1));
            end += 1;
        }
        if end == self.at {
            return Err(AuthenticateError::new(NAME_EMPTY));
        }
        assert(self.text@.subrange(self.at as int, end as int) =~= whole.take(end - self.at));
        if !names_at(&self.text, self.at, end) {
            return Err(AuthenticateError::new(NOT_A_NAME));
        }
        let name = slice(&self.text, self.at, end);
        assert(whole.skip(end - self.at) =~= self.text@.skip(end as int));
        self.at = end;
        Ok(name)
    }

    /// Read one attribute.
    fn attribute(&mut self) -> (r: Result<(String, String), AuthenticateError>)
        requires
            old(self).wf(),
        ensures
            final(self).wf(),
            final(self).document() == old(self).document(),
            match r {
                Ok((name, value)) => read_attribute(old(self).rest()) == Ok::<
                    (Pair, Seq<char>),
                    Seq<char>,
                >(((name@, value@), final(self).rest())),
                Err(refusal) => read_attribute(old(self).rest()) == Err::<
                    (Pair, Seq<char>),
                    Seq<char>,
                >(refusal.message@),
            },
    {
        let name = self.take_name()?;
        self.at = skip_white_space(&self.text, self.at);
        let ghost equals = self.rest();
        if !(self.at < self.text.len() && self.text[self.at] == '=') {
            return Err(AuthenticateError::new(NO_VALUE));
        }
        self.at = self.at + 1;
        assert(self.rest() =~= equals.skip(1));
        self.at = skip_white_space(&self.text, self.at);
        let ghost quoted = self.rest();
        if !(self.at < self.text.len() && (self.text[self.at] == '"' || self.text[self.at]
            == '\'')) {
            return Err(AuthenticateError::new(NOT_QUOTED));
        }
        let quote = self.text[self.at];
        self.at = self.at + 1;
        let ghost body = self.rest();
        assert(body =~= quoted.skip(1));
        match find_char(&self.text, self.at, quote) {
            None => Err(AuthenticateError::new(VALUE_OPEN)),
            Some(end) => {
                let raw = slice(&self.text, self.at, end);
                assert(raw@ =~= body.take(end - self.at));
                if holds_char(raw.as_str(), '<') {
                    return Err(AuthenticateError::new(VALUE_MARKUP));
                }
                let value = value_read(raw.as_str())?;
                assert(body.skip(end - self.at + 1) =~= self.text@.skip(end + 1));
                self.at = end + 1;
                if self.at < self.text.len() && !name_end(self.text[self.at]) {
                    return Err(AuthenticateError::new(NOT_SEPARATED));
                }
                Ok((name, value))
            },
        }
    }

    /// Read the attributes of a start tag, the namespace declarations apart.
    ///
    /// # Errors
    ///
    /// Where what stands there up to the end of the tag is not attributes.
    pub fn attributes(&mut self) -> (r: Result<
        (Vec<(String, String)>, Vec<(String, String)>),
        AuthenticateError,
    >)
        requires
            old(self).wf(),
        ensures
            final(self).wf(),
            final(self).document() == old(self).document(),
            match r {
                Ok((namespaces, attributes)) => read_attributes(old(self).rest()) == Ok::<
                    ((Seq<Pair>, Seq<Pair>), Seq<char>),
                    Seq<char>,
                >(((pairs_view(namespaces@), pairs_view(attributes@)), final(self).rest())),
                Err(refusal) => read_attributes(old(self).rest()) == Err::<
                    ((Seq<Pair>, Seq<Pair>), Seq<char>),
                    Seq<char>,
                >(refusal.message@),
            },
    {
        let mut namespaces: Vec<(String, String)> = Vec::new();
        let mut attributes: Vec<(String, String)> = Vec::new();
        proof {
            assert(pairs_view(namespaces@) =~= Seq::empty());
            assert(pairs_view(attributes@) =~= Seq::empty());
            if let Ok(((n, a), _)) = read_attributes(self.rest()) {
                assert(Seq::<Pair>::empty() + n =~= n);
                assert(Seq::<Pair>::empty() + a =~= a);
            }
        }
        loop
            invariant
                self.wf(),
                self.document() == old(self).document(),
                match read_attributes(self.rest()) {
                    Ok(((n, a), after)) => read_attributes(old(self).rest()) == Ok::<
                        ((Seq<Pair>, Seq<Pair>), Seq<char>),
                        Seq<char>,
                    >(((pairs_view(namespaces@) + n, pairs_view(attributes@) + a), after)),
                    Err(fault) => read_attributes(old(self).rest()) == Err::<
                        ((Seq<Pair>, Seq<Pair>), Seq<char>),
                        Seq<char>,
                    >(fault),
                },
            decreases self.text.len() - self.at,
        {
            let ghost before = self.rest();
            self.at = skip_white_space(&self.text, self.at);
            let ghost start = self.rest();
            if starts_at(&self.text, self.at, ">") || starts_at(&self.text, self.at, "/>") {
                assert(pairs_view(namespaces@) + Seq::<Pair>::empty() =~= pairs_view(namespaces@));
                assert(pairs_view(attributes@) + Seq::<Pair>::empty() =~= pairs_view(attributes@));
                return Ok((namespaces, attributes));
            }
            proof {
                lemma_read_attribute_progress(start);
            }
            let (name, value) = self.attribute()?;
            let chars = to_chars(name.as_str());
            assert(chars@.skip(0) =~= name@);
            let ghost declared = pairs_view(namespaces@);
            let ghost others = pairs_view(attributes@);
            if same(name.as_str(), "xmlns") {
                namespaces.push((String::new(), value));
                assert(pairs_view(namespaces@) =~= declared.push((Seq::empty(), value@)));
            } else if starts_at(&chars, 0, "xmlns:") {
                proof {
                    reveal_strlit("xmlns:");
                }
                let prefix = slice(&chars, 6, chars.len());
                assert(prefix@ =~= name@.skip(6));
                namespaces.push((prefix, value));
                assert(pairs_view(namespaces@) =~= declared.push((prefix@, value@)));
            } else {
                attributes.push((name, value));
                assert(pairs_view(attributes@) =~= others.push((name@, value@)));
            }
            proof {
                if let Ok(((n, a), _)) = read_attributes(self.rest()) {
                    match declared_prefix(name@) {
                        Some(prefix) => {
                            assert(declared + (seq![(prefix, value@)] + n) =~= declared.push(
                                (prefix, value@),
                            ) + n);
                        },
                        None => {
                            assert(others + (seq![(name@, value@)] + a) =~= others.push(
                                (name@, value@),
                            ) + a);
                        },
                    }
                }
            }
        }
    }

    /// Read the attributes of a start tag, none of them twice.
    fn tag(&mut self) -> (r: Result<
        (Vec<(String, String)>, Vec<(String, String)>),
        AuthenticateError,
    >)
        requires
            old(self).wf(),
        ensures
            final(self).wf(),
            final(self).document() == old(self).document(),
            match r {
                Ok((namespaces, attributes)) => read_tag(old(self).rest()) == Ok::<
                    ((Seq<Pair>, Seq<Pair>), Seq<char>),
                    Seq<char>,
                >(((pairs_view(namespaces@), pairs_view(attributes@)), final(self).rest())),
                Err(refusal) => read_tag(old(self).rest()) == Err::<
                    ((Seq<Pair>, Seq<Pair>), Seq<char>),
                    Seq<char>,
                >(refusal.message@),
            },
    {
        let (namespaces, attributes) = self.attributes()?;
        if all_differ(&namespaces) && all_differ(&attributes) {
            Ok((namespaces, attributes))
        } else {
            Err(AuthenticateError::new(REPEATED))
        }
    }

    /// Read one element, and no more than that: with any text after what is left,
    /// the same element is read, and that text is left with it.
    ///
    /// # Errors
    ///
    /// Where the text does not begin with an element of the subset this reads.
    pub fn element(&mut self) -> (r: Result<Element, AuthenticateError>)
        requires
            old(self).wf(),
        ensures
            final(self).wf(),
            final(self).document() == old(self).document(),
            match r {
                Ok(element) => read_element(old(self).rest()) == Ok::<
                    (ElementModel, Seq<char>),
                    Seq<char>,
                >((element@, final(self).rest())),
                Err(refusal) => read_element(old(self).rest()) == Err::<
                    (ElementModel, Seq<char>),
                    Seq<char>,
                >(refusal.message@),
            },
            r matches Ok(element) ==> forall|more: Seq<char>| #[trigger]
                read_element(old(self).rest() + more) == Ok::<(ElementModel, Seq<char>), Seq<char>>(
                    (element@, final(self).rest() + more),
                ),
        decreases old(self).rest().len(), 0nat,
    {
        let ghost whole = self.rest();
        if !(self.at < self.text.len() && self.text[self.at] == '<') {
            return Err(AuthenticateError::new(NOT_AN_ELEMENT));
        }
        self.at = self.at + 1;
        assert(self.rest() =~= whole.skip(1));
        proof {
            lemma_read_name_progress(self.rest());
        }
        let name = self.take_name()?;
        proof {
            lemma_read_attributes_bound(self.rest());
        }
        let (namespaces, attributes) = self.tag()?;
        let ghost tag = self.rest();
        proof {
            reveal_strlit("/>");
            reveal_strlit(">");
        }
        if starts_at(&self.text, self.at, "/>") {
            self.at = self.at + 2;
            assert(self.rest() =~= tag.skip(2));
            let element = Element { name, namespaces, attributes, children: Vec::new() };
            assert(element@.children =~= Seq::empty());
            proof {
                lemma_element_alone(whole);
            }
            return Ok(element);
        }
        self.at = self.at + 1;
        assert(self.rest() =~= tag.skip(1));
        match self.children(name.as_str()) {
            Ok(children) => {
                proof {
                    lemma_element_alone(whole);
                }
                Ok(Element { name, namespaces, attributes, children })
            },
            Err(refusal) => Err(refusal),
        }
    }

    /// Read one child.
    fn child(&mut self) -> (r: Result<Node, AuthenticateError>)
        requires
            old(self).wf(),
        ensures
            final(self).wf(),
            final(self).document() == old(self).document(),
            match r {
                Ok(child) => read_child(old(self).rest()) == Ok::<
                    (NodeModel, Seq<char>),
                    Seq<char>,
                >((child@, final(self).rest())),
                Err(refusal) => read_child(old(self).rest()) == Err::<
                    (NodeModel, Seq<char>),
                    Seq<char>,
                >(refusal.message@),
            },
        decreases old(self).rest().len(), 1nat,
    {
        let ghost whole = self.rest();
        if starts_at(&self.text, self.at, "<![CDATA[") {
            return Err(AuthenticateError::new(CDATA));
        }
        if starts_at(&self.text, self.at, "<!") || starts_at(&self.text, self.at, "<?") {
            return Err(AuthenticateError::new(DTD_OR_INSTRUCTION));
        }
        if self.at < self.text.len() && self.text[self.at] == '<' {
            let element = self.element()?;
            return Ok(Node::Element(element));
        }
        match find_char(&self.text, self.at, '<') {
            None => Err(AuthenticateError::new(ELEMENT_OPEN)),
            Some(end) => {
                let raw = slice(&self.text, self.at, end);
                assert(raw@ =~= whole.take(end - self.at));
                let text = text_read(raw.as_str())?;
                assert(whole.skip(end - self.at) =~= self.text@.skip(end as int));
                self.at = end;
                Ok(Node::Text(text))
            },
        }
    }

    /// Read the children of the element with this name, and its end tag.
    ///
    /// # Errors
    ///
    /// Where the element is not closed, or what stands in it is not of the subset
    /// this reads.
    pub fn children(&mut self, name: &str) -> (r: Result<Vec<Node>, AuthenticateError>)
        requires
            old(self).wf(),
        ensures
            final(self).wf(),
            final(self).document() == old(self).document(),
            match r {
                Ok(children) => read_children(old(self).rest(), name@) == Ok::<
                    (Seq<NodeModel>, Seq<char>),
                    Seq<char>,
                >((nodes_view(children@), final(self).rest())),
                Err(refusal) => read_children(old(self).rest(), name@) == Err::<
                    (Seq<NodeModel>, Seq<char>),
                    Seq<char>,
                >(refusal.message@),
            },
        decreases old(self).rest().len(), 2nat,
    {
        let mut close = "</".to_owned();
        close.append(name);
        let close_length = to_chars(close.as_str()).len();
        let mut children: Vec<Node> = Vec::new();
        proof {
            reveal_strlit("</");
            assert(nodes_view(children@) =~= Seq::empty());
            if let Ok((more, _)) = read_children(self.rest(), name@) {
                assert(Seq::<NodeModel>::empty() + more =~= more);
            }
        }
        loop
            invariant
                self.wf(),
                self.document() == old(self).document(),
                self.at >= old(self).at,
                close@ == "</"@ + name@,
                close_length == close@.len(),
                close_length == 2 + name@.len(),
                match read_children(self.rest(), name@) {
                    Ok((more, after)) => read_children(old(self).rest(), name@) == Ok::<
                        (Seq<NodeModel>, Seq<char>),
                        Seq<char>,
                    >((nodes_view(children@) + more, after)),
                    Err(fault) => read_children(old(self).rest(), name@) == Err::<
                        (Seq<NodeModel>, Seq<char>),
                        Seq<char>,
                    >(fault),
                },
            decreases self.text.len() - self.at,
        {
            let ghost whole = self.rest();
            let ghost before = nodes_view(children@);
            if starts_at(&self.text, self.at, "<!--") {
                proof {
                    lemma_after_comment_progress(whole);
                }
                self.skip_comment()?;
            } else if starts_at(&self.text, self.at, close.as_str()) {
                self.at = self.at + close_length;
                assert(self.rest() =~= whole.skip(2 + name@.len() as int));
                self.at = skip_white_space(&self.text, self.at);
                let ghost end = self.rest();
                if !(self.at < self.text.len() && self.text[self.at] == '>') {
                    return Err(AuthenticateError::new(END_TAG_OPEN));
                }
                self.at = self.at + 1;
                assert(self.rest() =~= end.skip(1));
                assert(before + Seq::<NodeModel>::empty() =~= before);
                return Ok(children);
            } else {
                proof {
                    lemma_read_progress(whole, name@);
                }
                let child = self.child()?;
                children.push(child);
                proof {
                    assert(nodes_view(children@) =~= before.push(child@));
                    if let Ok((more, _)) = read_children(self.rest(), name@) {
                        assert(before + (seq![child@] + more) =~= before.push(child@) + more);
                    }
                }
            }
        }
    }
}

impl Element {
    /// Parse one document into its root element.
    ///
    /// # Errors
    ///
    /// Where the text is not the well-formed subset this reads.
    pub fn parse(xml: &str) -> (r: Result<Self, AuthenticateError>)
        ensures
            meets(r, read_document(xml@)),
    {
        if !holds_allowed(xml) {
            return Err(AuthenticateError::new(NOT_ALLOWED));
        }
        let text = to_chars(xml);
        let mut at: usize = 0;
        assert(text@.skip(0) =~= xml@);
        while at < text.len() && text[at] == '\u{feff}'
            invariant
                at <= text.len(),
                text@ == xml@,
                after_marks(text@.skip(at as int)) == after_marks(xml@),
            decreases text.len() - at,
        {
            assert(text@.skip(at as int).drop_first() =~= text@.skip(at + 1));
            at += 1;
        }
        let mut reader = Reader { text, at };
        reader.skip_prolog()?;
        let element = reader.element()?;
        reader.skip_trivia()?;
        if reader.at < reader.text.len() {
            return Err(AuthenticateError::new(TRAILING));
        }
        Ok(element)
    }
}

} // verus!
