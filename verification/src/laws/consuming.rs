//! Laws of what reading consumes: what follows an element neither matters nor is
//! touched.

use crate::reader::{
    after_comment, ends_name, lemma_after_comment_progress, lemma_name_length_bound,
    lemma_position_bound, lemma_read_attribute_progress, lemma_read_attributes_bound,
    lemma_read_name_progress, lemma_trim_start_bound, name_length, read_attribute, read_attributes,
    read_child, read_children, read_element, read_name, read_tag, Reading,
};
use crate::text::{lemma_position_of, position, position_of, starts_with, trim_start};
use crate::xml::ElementModel;
use vstd::prelude::*;

verus! {

/// A reading, with more text after what it leaves.
spec fn followed<T>(reading: Reading<T>, more: Seq<char>) -> Reading<T> {
    match reading {
        Ok((value, rest)) => Ok((value, rest + more)),
        Err(fault) => Err(fault),
    }
}

/// Text that begins with a pattern does so with more after it.
proof fn lemma_starts(s: Seq<char>, pattern: Seq<char>, more: Seq<char>)
    requires
        starts_with(s, pattern),
    ensures
        starts_with(s + more, pattern),
{
    assert((s + more).take(pattern.len() as int) =~= s.take(pattern.len() as int));
}

/// Text that differs from a pattern at some place does not begin with it, nor
/// with more after it.
proof fn lemma_does_not_start(s: Seq<char>, pattern: Seq<char>, at: int, more: Seq<char>)
    requires
        0 <= at < pattern.len(),
        at < s.len(),
        s[at] != pattern[at],
    ensures
        !starts_with(s, pattern),
        !starts_with(s + more, pattern),
{
    let whole = s + more;
    if starts_with(s, pattern) {
        assert(s.take(pattern.len() as int)[at] == s[at]);
    }
    if starts_with(whole, pattern) {
        assert(whole.take(pattern.len() as int)[at] == s[at]);
    }
}

/// A character that is found is found there with more text after it.
proof fn lemma_position_of_kept(s: Seq<char>, c: char, more: Seq<char>)
    ensures
        position_of(s, c) is Some ==> position_of(s + more, c) == position_of(s, c),
    decreases s.len(),
{
    if s.len() > 0 {
        lemma_position_of_kept(s.drop_first(), c, more);
        assert((s + more).drop_first() =~= s.drop_first() + more);
        assert((s + more)[0] == s[0]);
    }
}

/// A pattern that is found is found there with more text after it.
proof fn lemma_position_kept(s: Seq<char>, pattern: Seq<char>, more: Seq<char>)
    ensures
        position(s, pattern) is Some ==> position(s + more, pattern) == position(s, pattern),
    decreases s.len(),
{
    let whole = s + more;
    if starts_with(s, pattern) {
        lemma_starts(s, pattern, more);
    } else if s.len() > 0 {
        let rest = s.drop_first();
        lemma_position_kept(rest, pattern, more);
        assert(whole.drop_first() =~= rest + more);
        if position(s, pattern) is Some {
            lemma_position_bound(rest, pattern);
            if starts_with(whole, pattern) {
                assert(s.take(pattern.len() as int) =~= whole.take(pattern.len() as int));
            }
        }
    }
}

/// A comment ends where it does with more text after it.
proof fn lemma_comment_kept(s: Seq<char>, more: Seq<char>)
    requires
        starts_with(s, "<!--"@),
    ensures
        after_comment(s) matches Ok(rest) ==> after_comment(s + more) == Ok::<
            Seq<char>,
            Seq<char>,
        >(rest + more),
{
    reveal_strlit("<!--");
    reveal_strlit("-->");
    let body = s.skip(4);
    assert((s + more).skip(4) =~= body + more);
    lemma_position_kept(body, "-->"@, more);
    lemma_position_kept(body, "--"@, more);
    lemma_position_bound(body, "-->"@);
    if let Some(end) = position(body, "-->"@) {
        assert((body + more).skip(end as int + 3) =~= body.skip(end as int + 3) + more);
    }
}

/// Where trimming leaves text, it leaves that with more after it.
proof fn lemma_trim_kept(s: Seq<char>, more: Seq<char>)
    ensures
        trim_start(s).len() > 0 ==> trim_start(s + more) == trim_start(s) + more,
    decreases s.len(),
{
    if s.len() > 0 {
        assert((s + more)[0] == s[0]);
        assert((s + more).drop_first() =~= s.drop_first() + more);
        lemma_trim_kept(s.drop_first(), more);
    }
}

/// A name that ends ends there with more text after it.
proof fn lemma_name_length_kept(s: Seq<char>, more: Seq<char>)
    ensures
        name_length(s) is Some ==> name_length(s + more) == name_length(s),
    decreases s.len(),
{
    if s.len() > 0 {
        assert((s + more)[0] == s[0]);
        assert((s + more).drop_first() =~= s.drop_first() + more);
        lemma_name_length_kept(s.drop_first(), more);
    }
}

/// A name that is read is read with more text after it.
proof fn lemma_name_kept(s: Seq<char>, more: Seq<char>)
    ensures
        read_name(s) is Ok ==> read_name(s + more) == followed(read_name(s), more),
{
    lemma_name_length_kept(s, more);
    lemma_name_length_bound(s);
    if let Ok((name, rest)) = read_name(s) {
        let length = name_length(s)->0 as int;
        assert((s + more).take(length) =~= name);
        assert((s + more).skip(length) =~= rest + more);
    }
}

/// An attribute that is read, and is not the last of the text, is read with more
/// text after it.
proof fn lemma_attribute_kept(s: Seq<char>, more: Seq<char>)
    ensures
        read_attribute(s) matches Ok((_, rest)) ==> (rest.len() > 0 ==> read_attribute(s + more)
            == followed(read_attribute(s), more)),
{
    if let Ok(((name, value), rest)) = read_attribute(s) {
        lemma_name_kept(s, more);
        let after_name = read_name(s)->Ok_0.1;
        lemma_trim_kept(after_name, more);
        let equals = trim_start(after_name);
        assert((equals + more).skip(1) =~= equals.skip(1) + more);
        lemma_trim_kept(equals.skip(1), more);
        let quoted = trim_start(equals.skip(1));
        let body = quoted.skip(1);
        assert((quoted + more)[0] == quoted[0]);
        assert((quoted + more).skip(1) =~= body + more);
        lemma_position_of_kept(body, quoted[0], more);
        lemma_position_of(body, quoted[0]);
        let end = position_of(body, quoted[0])->0 as int;
        assert((body + more).take(end) =~= body.take(end));
        assert((body + more).skip(end + 1) =~= rest + more);
    }
}

/// Attributes that are read are read with more text after them.
proof fn lemma_attributes_kept(s: Seq<char>, more: Seq<char>)
    ensures
        read_attributes(s) is Ok ==> read_attributes(s + more) == followed(
            read_attributes(s),
            more,
        ),
    decreases s.len(),
{
    reveal_strlit(">");
    reveal_strlit("/>");
    if read_attributes(s) is Ok {
        let start = trim_start(s);
        lemma_trim_start_bound(s);
        lemma_trim_kept(s, more);
        if starts_with(start, ">"@) {
            lemma_starts(start, ">"@, more);
        } else if starts_with(start, "/>"@) {
            lemma_starts(start, "/>"@, more);
        } else {
            assert(start.len() > 0);
            assert(!ends_name(start[0]));
            lemma_does_not_start(start, ">"@, 0, more);
            lemma_does_not_start(start, "/>"@, 0, more);
            lemma_read_attribute_progress(start);
            let (attribute, rest) = read_attribute(start)->Ok_0;
            lemma_attributes_kept(rest, more);
            lemma_some_left(rest);
            lemma_attribute_kept(start, more);
        }
    }
}

/// Attributes are not read from nothing.
proof fn lemma_some_left(s: Seq<char>)
    ensures
        read_attributes(s) is Ok ==> s.len() > 0,
{
    reveal_strlit(">");
    reveal_strlit("/>");
    if s.len() == 0 {
        assert(trim_start(s) == s);
        assert(name_length(s) is None);
    }
}

/// What begins an element that is read begins no comment, no end tag, no CDATA
/// section, no declaration and no instruction, whatever follows.
proof fn lemma_child_starts(s: Seq<char>, name: Seq<char>, more: Seq<char>)
    requires
        read_child(s) is Ok,
    ensures
        !starts_with(s + more, "<!--"@),
        !starts_with(s + more, "</"@ + name),
        !starts_with(s + more, "<![CDATA["@),
        !starts_with(s + more, "<!"@),
        !starts_with(s + more, "<?"@),
        s.len() > 0,
{
    reveal_strlit("<!--");
    reveal_strlit("</");
    reveal_strlit("<![CDATA[");
    reveal_strlit("<!");
    reveal_strlit("<?");
    lemma_position_of(s, '<');
    assert(s.len() > 0);
    let at: int = if s[0] == '<' {
        let own = s.skip(1);
        assert(name_length(own) is Some);
        assert(own.len() > 0);
        assert(!ends_name(own[0]));
        assert(s[1] == own[0]);
        if s[1] == '!' {
            assert(s.take(2) =~= "<!"@);
        }
        if s[1] == '?' {
            assert(s.take(2) =~= "<?"@);
        }
        1
    } else {
        0
    };
    lemma_does_not_start(s, "<!--"@, at, more);
    lemma_does_not_start(s, "</"@ + name, at, more);
    lemma_does_not_start(s, "<![CDATA["@, at, more);
    lemma_does_not_start(s, "<!"@, at, more);
    lemma_does_not_start(s, "<?"@, at, more);
}

/// An element that is read is read with more text after it, and leaves that.
proof fn lemma_element_kept(s: Seq<char>, more: Seq<char>)
    ensures
        read_element(s) is Ok ==> read_element(s + more) == followed(read_element(s), more),
    decreases s.len(), 0nat,
{
    if read_element(s) is Ok {
        reveal_strlit(">");
        reveal_strlit("/>");
        assert((s + more)[0] == s[0]);
        assert((s + more).skip(1) =~= s.skip(1) + more);
        lemma_name_kept(s.skip(1), more);
        lemma_read_name_progress(s.skip(1));
        let (name, after_name) = read_name(s.skip(1))->Ok_0;
        lemma_attributes_kept(after_name, more);
        lemma_read_attributes_bound(after_name);
        let (_, tag) = read_tag(after_name)->Ok_0;
        if starts_with(tag, "/>"@) {
            lemma_starts(tag, "/>"@, more);
            assert((tag + more).skip(2) =~= tag.skip(2) + more);
        } else {
            assert(tag.take(1)[0] == '>');
            lemma_does_not_start(tag, "/>"@, 0, more);
            assert((tag + more).skip(1) =~= tag.skip(1) + more);
            lemma_children_kept(tag.skip(1), name, more);
        }
    }
}

/// A child that is read is read with more text after it.
proof fn lemma_child_kept(s: Seq<char>, more: Seq<char>)
    ensures
        read_child(s) is Ok ==> read_child(s + more) == followed(read_child(s), more),
    decreases s.len(), 1nat,
{
    if read_child(s) is Ok {
        lemma_child_starts(s, Seq::empty(), more);
        assert((s + more)[0] == s[0]);
        if s[0] == '<' {
            lemma_element_kept(s, more);
        } else {
            lemma_position_of(s, '<');
            lemma_position_of_kept(s, '<', more);
            let at = position_of(s, '<')->0 as int;
            assert((s + more).take(at) =~= s.take(at));
            assert((s + more).skip(at) =~= s.skip(at) + more);
        }
    }
}

/// Children that are read are read with more text after them.
proof fn lemma_children_kept(s: Seq<char>, name: Seq<char>, more: Seq<char>)
    ensures
        read_children(s, name) is Ok ==> read_children(s + more, name) == followed(
            read_children(s, name),
            more,
        ),
    decreases s.len(), 2nat,
{
    if read_children(s, name) is Ok {
        let whole = s + more;
        reveal_strlit("-->");
        reveal_strlit("<!--");
        reveal_strlit("</");
        if starts_with(s, "<!--"@) {
            lemma_starts(s, "<!--"@, more);
            lemma_comment_kept(s, more);
            lemma_after_comment_progress(s);
            lemma_children_kept(after_comment(s)->Ok_0, name, more);
        } else if starts_with(s, "</"@ + name) {
            lemma_starts(s, "</"@ + name, more);
            assert(s.take(2 + name.len() as int)[1] == '/');
            lemma_does_not_start(s, "<!--"@, 1, more);
            let after = s.skip(2 + name.len() as int);
            assert(whole.skip(2 + name.len() as int) =~= after + more);
            lemma_trim_kept(after, more);
            let rest = trim_start(after);
            assert((rest + more)[0] == rest[0]);
            assert((rest + more).skip(1) =~= rest.skip(1) + more);
        } else {
            lemma_child_starts(s, name, more);
            lemma_child_kept(s, more);
            let (child, rest) = read_child(s)->Ok_0;
            lemma_children_kept(rest, name, more);
            assert((rest + more).len() < whole.len());
        }
    }
}

/// An element that is read is read with any text after it, and leaves that.
pub proof fn lemma_element_alone(s: Seq<char>)
    ensures
        read_element(s) matches Ok((element, rest)) ==> forall|more: Seq<char>| #[trigger]
            read_element(s + more) == Ok::<(ElementModel, Seq<char>), Seq<char>>(
                (element, rest + more),
            ),
{
    if let Ok((element, rest)) = read_element(s) {
        assert forall|more: Seq<char>| #[trigger]
            read_element(s + more) == Ok::<(ElementModel, Seq<char>), Seq<char>>(
                (element, rest + more),
            ) by {
            lemma_element_kept(s, more);
        }
    }
}

/// Reading an element consumes that and no more: where the text is an element
/// and nothing else, then with any text after it the same element is read, and
/// that text is left.
pub proof fn what_follows_an_element_is_left(s: Seq<char>, element: ElementModel, more: Seq<char>)
    requires
        read_element(s) == Ok::<(ElementModel, Seq<char>), Seq<char>>((element, Seq::empty())),
    ensures
        read_element(s + more) == Ok::<(ElementModel, Seq<char>), Seq<char>>((element, more)),
{
    lemma_element_kept(s, more);
    assert(Seq::<char>::empty() + more =~= more);
}

/// What an element leaves, with any text after it, is left with that text.
pub proof fn what_is_left_is_left_with_more(
    s: Seq<char>,
    element: ElementModel,
    rest: Seq<char>,
    more: Seq<char>,
)
    requires
        read_element(s) == Ok::<(ElementModel, Seq<char>), Seq<char>>((element, rest)),
    ensures
        read_element(s + more) == Ok::<(ElementModel, Seq<char>), Seq<char>>(
            (element, rest + more),
        ),
{
    lemma_element_kept(s, more);
}

} // verus!
