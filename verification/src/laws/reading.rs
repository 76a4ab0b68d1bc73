//! Laws of reading: what the reader gives, and what it makes of a canonical
//! form.

use crate::laws::tree::child_position_bound;
use crate::reader::{
    after_comment, after_marks, after_prolog, all_allowed, declared_prefix, ends_name, is_name,
    lemma_after_comment_progress, lemma_read_attribute_progress, lemma_read_attributes_bound,
    lemma_read_name_progress, lemma_trim_start_bound, name_length, names_differ, read_attribute,
    read_attributes, read_child, read_children, read_document, read_element, read_name,
};
use crate::text::{starts_with, trim_start};
use crate::xml::{
    child_position, first_among, first_named, local_of, without_first, without_first_below,
    ElementModel, NodeModel, Pair,
};
use vstd::prelude::*;

verus! {

/// Whether a name is one by the grammar of XML, and holds no white space.
pub open spec fn valid_name(name: Seq<char>) -> bool {
    is_name(name) && forall|i: int| 0 <= i < name.len() ==> !ends_name(#[trigger] name[i])
}

/// Whether XML allows every character of the values.
pub open spec fn valid_values(pairs: Seq<Pair>) -> bool {
    forall|i: int| 0 <= i < pairs.len() ==> all_allowed((#[trigger] pairs[i]).1)
}

/// Whether these are names an element's attributes can have: valid ones that
/// declare no namespace.
pub open spec fn valid_attributes(attributes: Seq<Pair>) -> bool {
    forall|i: int|
        0 <= i < attributes.len() ==> valid_name((#[trigger] attributes[i]).0) && declared_prefix(
            attributes[i].0,
        ) is None
}

/// Whether an element, and all below it, has a valid name and attributes of valid
/// names, no two the same, and XML allows every character of its values and its
/// text.
pub open spec fn readable(element: ElementModel) -> bool
    decreases element,
{
    &&& valid_name(element.name)
    &&& valid_attributes(element.attributes)
    &&& names_differ(element.attributes)
    &&& valid_values(element.attributes)
    &&& valid_values(element.namespaces)
    &&& readable_among(element.children)
}

/// Whether the children, and all below them, are such.
pub open spec fn readable_among(nodes: Seq<NodeModel>) -> bool
    decreases nodes,
{
    if nodes.len() == 0 {
        true
    } else {
        &&& match nodes[0] {
            NodeModel::Element(element) => readable(element),
            NodeModel::Text(text) => all_allowed(text),
        }
        &&& readable_among(nodes.drop_first())
    }
}

/// A name is as long as nothing in it ends it.
proof fn lemma_name_length(s: Seq<char>)
    ensures
        name_length(s) matches Some(length) ==> length < s.len() && ends_name(s[length as int])
            && forall|i: int| 0 <= i < length ==> !ends_name(#[trigger] s[i]),
    decreases s.len(),
{
    if s.len() > 0 && !ends_name(s[0]) {
        let rest = s.drop_first();
        lemma_name_length(rest);
        if let Some(length) = name_length(rest) {
            assert(rest[length as int] == s[length as int + 1]);
            assert forall|i: int| 0 <= i < length + 1 implies !ends_name(#[trigger] s[i]) by {
                if i > 0 {
                    assert(rest[i - 1] == s[i]);
                }
            }
        }
    }
}

/// A name that is read is valid.
pub proof fn lemma_name_read(s: Seq<char>)
    ensures
        read_name(s) matches Ok((name, rest)) ==> valid_name(name),
{
    lemma_name_length(s);
    if let Ok((name, rest)) = read_name(s) {
        assert forall|i: int| 0 <= i < name.len() implies !ends_name(#[trigger] name[i]) by {
            assert(name[i] == s[i]);
        }
    }
}

/// Valid values stay so with one more before them.
proof fn lemma_one_more_value(pair: Pair, pairs: Seq<Pair>)
    requires
        all_allowed(pair.1),
        valid_values(pairs),
    ensures
        valid_values(seq![pair] + pairs),
{
    let all = seq![pair] + pairs;
    assert forall|i: int| 0 <= i < all.len() implies all_allowed((#[trigger] all[i]).1) by {
        if i > 0 {
            assert(all[i] == pairs[i - 1]);
        }
    }
}

/// Attributes that are read have valid names, and they and the declarations have
/// valid values.
proof fn lemma_attributes_read(s: Seq<char>)
    ensures
        read_attributes(s) matches Ok(((namespaces, attributes), _)) ==> valid_attributes(
            attributes,
        ) && valid_values(attributes) && valid_values(namespaces),
    decreases s.len(),
{
    let start = trim_start(s);
    if !(starts_with(start, ">"@) || starts_with(start, "/>"@)) {
        if let Ok(((name, value), rest)) = read_attribute(start) {
            lemma_trim_start_bound(s);
            lemma_read_attribute_progress(start);
            lemma_name_read(start);
            lemma_attributes_read(rest);
            if let Ok(((namespaces, attributes), after)) = read_attributes(rest) {
                let all = seq![(name, value)] + attributes;
                if let Some(prefix) = declared_prefix(name) {
                    lemma_one_more_value((prefix, value), namespaces);
                } else {
                    lemma_one_more_value((name, value), attributes);
                    assert forall|i: int| 0 <= i < all.len() implies valid_name(
                        (#[trigger] all[i]).0,
                    ) && declared_prefix(all[i].0) is None by {
                        if i > 0 {
                            assert(all[i] == attributes[i - 1]);
                        }
                    }
                }
            }
        }
    }
}

/// An element that is read is readable.
proof fn lemma_element_read(s: Seq<char>)
    ensures
        read_element(s) matches Ok((element, _)) ==> readable(element),
    decreases s.len(), 0nat,
{
    if read_element(s) is Ok {
        let (own, after_name) = read_name(s.skip(1))->Ok_0;
        lemma_name_read(s.skip(1));
        lemma_read_name_progress(s.skip(1));
        lemma_attributes_read(after_name);
        lemma_read_attributes_bound(after_name);
        let (_, tag) = read_attributes(after_name)->Ok_0;
        reveal_strlit("/>");
        reveal_strlit(">");
        if !starts_with(tag, "/>"@) {
            lemma_children_read(tag.skip(1), own);
        }
    }
}

/// A child that is read is readable.
proof fn lemma_child_read(s: Seq<char>)
    ensures
        read_child(s) matches Ok((child, _)) ==> match child {
            NodeModel::Element(element) => readable(element),
            NodeModel::Text(text) => all_allowed(text),
        },
    decreases s.len(), 1nat,
{
    if read_child(s) is Ok {
        lemma_element_read(s);
    }
}

/// Children that are read are readable.
proof fn lemma_children_read(s: Seq<char>, name: Seq<char>)
    ensures
        read_children(s, name) matches Ok((children, _)) ==> readable_among(children),
    decreases s.len(), 2nat,
{
    if read_children(s, name) is Ok {
        if starts_with(s, "<!--"@) {
            lemma_after_comment_progress(s);
            lemma_children_read(after_comment(s)->Ok_0, name);
        } else if !starts_with(s, "</"@ + name) {
            let (child, rest) = read_child(s)->Ok_0;
            lemma_child_read(s);
            lemma_children_read(rest, name);
            let (children, _) = read_children(rest, name)->Ok_0;
            let all = seq![child] + children;
            assert(all.drop_first() =~= children);
            assert(all[0] == child);
            assert(readable_among(all));
        }
    }
}

/// Every element of a document that is read has a valid name and attributes of
/// valid names, no two the same, none of which declares a namespace; and XML
/// allows every character of its values and its text.
pub proof fn what_is_read_is_readable(xml: Seq<char>)
    ensures
        read_document(xml) matches Ok(element) ==> readable(element),
{
    if let Ok(start) = after_prolog(after_marks(xml)) {
        lemma_element_read(start);
    }
}

/// What is found in a readable element is readable.
pub proof fn what_is_found_is_readable(element: ElementModel, local: Seq<char>)
    requires
        readable(element),
    ensures
        first_named(element, local) matches Some(found) ==> readable(found),
    decreases element,
{
    if local_of(element.name) != local {
        lemma_found_among(element.children, local);
    }
}

/// What is found among readable children is readable.
proof fn lemma_found_among(nodes: Seq<NodeModel>, local: Seq<char>)
    requires
        readable_among(nodes),
    ensures
        first_among(nodes, local) matches Some(found) ==> readable(found),
    decreases nodes,
{
    if nodes.len() > 0 {
        if let NodeModel::Element(element) = nodes[0] {
            what_is_found_is_readable(element, local);
        }
        lemma_found_among(nodes.drop_first(), local);
    }
}

/// What is left of a readable element when a descendant is taken out is
/// readable.
pub proof fn what_is_left_is_readable(element: ElementModel, p: spec_fn(ElementModel) -> bool)
    requires
        readable(element),
    ensures
        without_first(element, p) matches Some(rest) ==> readable(rest),
    decreases element,
{
    child_position_bound(element.children, p);
    match child_position(element.children, p) {
        Some(at) => {
            lemma_removed(element.children, at);
        },
        None => {
            lemma_left_below(element.children, p);
        },
    }
}

/// Readable children stay readable without one of them.
proof fn lemma_removed(nodes: Seq<NodeModel>, at: int)
    requires
        readable_among(nodes),
        0 <= at < nodes.len(),
    ensures
        readable_among(nodes.remove(at)),
    decreases nodes,
{
    let rest = nodes.drop_first();
    let left = nodes.remove(at);
    if at == 0 {
        assert(left =~= rest);
    } else {
        lemma_removed(rest, at - 1);
        assert(left.drop_first() =~= rest.remove(at - 1));
        assert(left[0] == nodes[0]);
    }
}

/// Readable children stay readable when a descendant is taken out.
proof fn lemma_left_below(nodes: Seq<NodeModel>, p: spec_fn(ElementModel) -> bool)
    requires
        readable_among(nodes),
    ensures
        without_first_below(nodes, p) matches Some(left) ==> readable_among(left),
    decreases nodes,
{
    if nodes.len() > 0 {
        let rest = nodes.drop_first();
        lemma_left_below(rest, p);
        if let NodeModel::Element(element) = nodes[0] {
            what_is_left_is_readable(element, p);
            if let Some(changed) = without_first(element, p) {
                let updated = nodes.update(0, NodeModel::Element(changed));
                assert(updated.drop_first() =~= rest);
                assert(updated[0] == NodeModel::Element(changed));
            }
        }
        if let Some(left) = without_first_below(rest, p) {
            let joined = seq![nodes[0]] + left;
            assert(joined.drop_first() =~= left);
            assert(joined[0] == nodes[0]);
        }
    }
}

} // verus!
