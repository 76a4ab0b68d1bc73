//! The round trip: a canonical form, read, and what it reads as.

use crate::c14n::{
    arranged, attribute_prefixes, attribute_text, attributes_text, by_namespace, by_prefix,
    canonical_form, children_text, declaration_text, declarations_text, declare_all, element_text,
    escaped_attribute, escaped_text, namespace_of, rendered_declarations, start_tag, text_escape,
    used_prefixes,
};
use crate::laws::escaping::{
    escaped_attribute_holds_no_markup, escaped_attribute_reads_back, escaped_text_holds_no_markup,
    lemma_position_after, lemma_text_before,
};
use crate::laws::allowing::{
    a_canonical_form_holds_what_xml_allows, lemma_namespace_allowed, lemma_scope_allowed,
};
use crate::laws::canonical::{
    declarations_are_in_order, lemma_arranged_agrees, lemma_arranged_contains,
    lemma_attribute_prefix_used, lemma_distinct_reordered, lemma_namespace_is_member,
    lemma_prefix_of_attribute, lemma_same_prefixes_used, only_used_namespaces_are_declared,
    the_last_declaration_counts,
};
use crate::laws::ordering::{
    arranged_is_in_order, arranged_keeps_every_pair, keys_distinct, lemma_order_by_members,
    what_is_in_order_stays,
};
use crate::laws::reading::{readable, readable_among, valid_attributes, valid_name, valid_values};
use crate::reader::{
    after_marks, after_trivia, all_allowed, begins_name, continues_name, declared_prefix, ends_name,
    name_length, names_differ, preceded, read_attribute, read_attributes, read_child, read_children,
    read_document, read_element, read_name, read_text, set_apart, unescaped, Reading,
};
use crate::text::{lemma_position_of, position, position_of, split_once, starts_with, trim_start};
use crate::xml::{ElementModel, NodeModel, Pair};
use vstd::prelude::*;

verus! {

/// Text that differs from a pattern at some place does not begin with it.
pub proof fn lemma_differs(s: Seq<char>, pattern: Seq<char>, at: int)
    requires
        0 <= at < pattern.len(),
        at < s.len() ==> s[at] != pattern[at],
    ensures
        !starts_with(s, pattern),
{
    if starts_with(s, pattern) {
        assert(s.take(pattern.len() as int)[at] == s[at]);
    }
}

/// A name, then what ends it, is read as that name.
pub proof fn lemma_name_back(name: Seq<char>, rest: Seq<char>)
    requires
        valid_name(name),
        rest.len() > 0,
        ends_name(rest[0]),
    ensures
        read_name(name + rest) == Ok::<(Seq<char>, Seq<char>), Seq<char>>((name, rest)),
{
    lemma_name_length_back(name, rest);
    assert((name + rest).take(name.len() as int) =~= name);
    assert((name + rest).skip(name.len() as int) =~= rest);
}

/// A name is as long as it is, up to what ends it.
pub proof fn lemma_name_length_back(name: Seq<char>, rest: Seq<char>)
    requires
        forall|i: int| 0 <= i < name.len() ==> !ends_name(#[trigger] name[i]),
        rest.len() > 0,
        ends_name(rest[0]),
    ensures
        name_length(name + rest) == Some(name.len()),
    decreases name.len(),
{
    let whole = name + rest;
    if name.len() == 0 {
        assert(whole =~= rest);
    } else {
        let shorter = name.drop_first();
        assert(whole[0] == name[0]);
        assert(whole.drop_first() =~= shorter + rest);
        assert forall|i: int| 0 <= i < shorter.len() implies !ends_name(#[trigger] shorter[i]) by {
            assert(shorter[i] == name[i + 1]);
        }
        lemma_name_length_back(shorter, rest);
    }
}

/// The text that an attribute is read from, without the blank before it.
spec fn bare_attribute(attribute: Pair) -> Seq<char> {
    attribute.0 + "=\""@ + escaped_attribute(attribute.1) + "\""@
}

/// An attribute as it is written is read as that attribute.
proof fn lemma_attribute_back(attribute: Pair, rest: Seq<char>)
    requires
        valid_name(attribute.0),
        all_allowed(attribute.1),
        set_apart(rest),
    ensures
        read_attribute(bare_attribute(attribute) + rest) == Ok::<(Pair, Seq<char>), Seq<char>>(
            (attribute, rest),
        ),
{
    reveal_strlit("=\"");
    reveal_strlit("\"");
    let (name, value) = attribute;
    let written = escaped_attribute(value);
    let whole = bare_attribute(attribute) + rest;
    let after_name = "=\""@ + written + "\""@ + rest;
    assert(whole =~= name + after_name);
    assert(after_name[0] == '=');
    lemma_name_back(name, after_name);
    assert(trim_start(after_name) == after_name);
    let quoted = after_name.skip(1);
    assert(quoted[0] == '"');
    assert(trim_start(quoted) == quoted);
    let body = quoted.skip(1);
    escaped_attribute_holds_no_markup(value);
    lemma_position_after(written, '"', rest);
    assert(body =~= written.push('"') + rest);
    assert(body.take(written.len() as int) =~= written);
    assert(body.skip(written.len() as int + 1) =~= rest);
    escaped_attribute_reads_back(value);
}

/// The attributes read, with one more before them.
spec fn led_by_attribute(
    attribute: Pair,
    rest: Reading<(Seq<Pair>, Seq<Pair>)>,
) -> Reading<(Seq<Pair>, Seq<Pair>)> {
    match rest {
        Err(fault) => Err(fault),
        Ok(((namespaces, attributes), after)) => match declared_prefix(attribute.0) {
            Some(prefix) => Ok(
                ((seq![(prefix, attribute.1)] + namespaces, attributes), after),
            ),
            None => Ok(((namespaces, seq![attribute] + attributes), after)),
        },
    }
}

/// An attribute as it is written, then more, is read as that attribute, then
/// what follows.
proof fn lemma_attributes_step(attribute: Pair, rest: Seq<char>)
    requires
        valid_name(attribute.0),
        all_allowed(attribute.1),
        set_apart(rest),
    ensures
        read_attributes(attribute_text(attribute) + rest) == led_by_attribute(
            attribute,
            read_attributes(rest),
        ),
{
    reveal_strlit(" ");
    reveal_strlit(">");
    reveal_strlit("/>");
    let whole = attribute_text(attribute) + rest;
    let start = bare_attribute(attribute) + rest;
    assert(whole =~= seq![' '] + start);
    assert(whole[0] == ' ');
    assert(whole.drop_first() =~= start);
    assert(start[0] == attribute.0[0]);
    assert(!ends_name(attribute.0[0]));
    assert(trim_start(start) == start);
    assert(trim_start(whole) == start);
    lemma_differs(start, ">"@, 0);
    lemma_differs(start, "/>"@, 0);
    lemma_attribute_back(attribute, rest);
}

/// The name under which a prefix is declared.
pub open spec fn declaring_name(prefix: Seq<char>) -> Seq<char> {
    if prefix.len() == 0 {
        "xmlns"@
    } else {
        "xmlns:"@ + prefix
    }
}

/// A declaration is written as an attribute that declares it.
pub proof fn lemma_declaration_is_attribute(declaration: Pair)
    ensures
        declaration_text(declaration) == attribute_text(
            (declaring_name(declaration.0), declaration.1),
        ),
        declared_prefix(declaring_name(declaration.0)) == Some(declaration.0),
        valid_prefixes(seq![declaration]) ==> valid_name(declaring_name(declaration.0)),
{
    reveal_strlit("xmlns");
    reveal_strlit("xmlns:");
    reveal_strlit(" xmlns=\"");
    reveal_strlit(" xmlns:");
    reveal_strlit(" ");
    reveal_strlit("=\"");
    reveal_strlit("\"");
    let (prefix, uri) = declaration;
    let name = declaring_name(prefix);
    let value = escaped_attribute(uri);
    if prefix.len() == 0 {
        assert(prefix =~= Seq::empty());
        assert(" xmlns=\""@ + value + "\""@ =~= " "@ + name + "=\""@ + value + "\""@);
    } else {
        assert(" xmlns:"@ + prefix + "=\""@ + value + "\""@ =~= " "@ + name + "=\""@ + value
            + "\""@);
        assert(name.len() > 5);
        assert(name.take(6) =~= "xmlns:"@);
        assert(name.skip(6) =~= prefix);
        if valid_prefixes(seq![declaration]) {
            assert forall|i: int| 0 <= i < name.len() implies continues_name(#[trigger] name[i])
                && !ends_name(name[i]) by {
                if i >= 6 {
                    assert(name[i] == seq![declaration][0].0[i - 6]);
                } else {
                    assert(name[i] == "xmlns:"@[i]);
                }
            }
            assert(name[0] == 'x');
        }
    }
}

/// What is written of attributes begins with the first of them.
pub proof fn lemma_attributes_text_front(attributes: Seq<Pair>)
    requires
        attributes.len() > 0,
    ensures
        attributes_text(attributes) == attribute_text(attributes[0]) + attributes_text(
            attributes.drop_first(),
        ),
    decreases attributes.len(),
{
    if attributes.len() == 1 {
        assert(attributes.drop_last() =~= Seq::empty());
        assert(attributes.drop_first() =~= Seq::empty());
        assert(attributes_text(Seq::<Pair>::empty()) =~= Seq::empty());
        assert(attributes_text(attributes) =~= attribute_text(attributes[0]));
        assert(attribute_text(attributes[0]) + Seq::<char>::empty() =~= attribute_text(
            attributes[0],
        ));
    } else {
        let before = attributes.drop_last();
        lemma_attributes_text_front(before);
        assert(before.drop_first() =~= attributes.drop_first().drop_last());
        assert(attributes.drop_first().last() == attributes.last());
        assert(before[0] == attributes[0]);
        assert(attributes_text(attributes) =~= attribute_text(attributes[0]) + (attributes_text(
            before.drop_first(),
        ) + attribute_text(attributes.last())));
    }
}

/// What is written of declarations begins with the first of them.
pub proof fn lemma_declarations_text_front(declarations: Seq<Pair>)
    requires
        declarations.len() > 0,
    ensures
        declarations_text(declarations) == declaration_text(declarations[0]) + declarations_text(
            declarations.drop_first(),
        ),
    decreases declarations.len(),
{
    if declarations.len() == 1 {
        assert(declarations.drop_last() =~= Seq::empty());
        assert(declarations.drop_first() =~= Seq::empty());
        assert(declarations_text(Seq::<Pair>::empty()) =~= Seq::empty());
        assert(declarations_text(declarations) =~= declaration_text(declarations[0]));
        assert(declaration_text(declarations[0]) + Seq::<char>::empty() =~= declaration_text(
            declarations[0],
        ));
    } else {
        let before = declarations.drop_last();
        lemma_declarations_text_front(before);
        assert(before.drop_first() =~= declarations.drop_first().drop_last());
        assert(declarations.drop_first().last() == declarations.last());
        assert(before[0] == declarations[0]);
        assert(declarations_text(declarations) =~= declaration_text(declarations[0]) + (
        declarations_text(before.drop_first()) + declaration_text(declarations.last())));
    }
}

/// Whether the prefixes declared are parts of valid names.
pub open spec fn valid_prefixes(declarations: Seq<Pair>) -> bool {
    forall|i: int, j: int|
        0 <= i < declarations.len() && 0 <= j < declarations[i].0.len() ==> continues_name(
            #[trigger] declarations[i].0[j],
        ) && !ends_name(declarations[i].0[j])
}

/// What follows the name in a start tag ends it.
proof fn lemma_tag_ends_name(declarations: Seq<Pair>, attributes: Seq<Pair>, rest: Seq<char>)
    requires
        rest.len() > 0,
        rest[0] == '>',
    ensures
        ({
            let tag = declarations_text(declarations) + attributes_text(attributes) + rest;
            tag.len() > 0 && ends_name(tag[0])
        }),
{
    reveal_strlit(" xmlns=\"");
    reveal_strlit(" xmlns:");
    reveal_strlit(" ");
    let tag = declarations_text(declarations) + attributes_text(attributes) + rest;
    if declarations.len() > 0 {
        lemma_declarations_text_front(declarations);
        assert(tag[0] == declaration_text(declarations[0])[0]);
        assert(tag[0] == ' ');
    } else if attributes.len() > 0 {
        lemma_attributes_text_front(attributes);
        assert(declarations_text(declarations).len() == 0);
        assert(tag[0] == attribute_text(attributes[0])[0]);
        assert(tag[0] == ' ');
    } else {
        assert(tag =~= rest);
    }
}

/// Of pairs of valid values, those after the first have valid values.
proof fn lemma_other_values(pairs: Seq<Pair>)
    requires
        pairs.len() > 0,
        valid_values(pairs),
    ensures
        valid_values(pairs.drop_first()),
{
    let others = pairs.drop_first();
    assert forall|i: int| 0 <= i < others.len() implies all_allowed((#[trigger] others[i]).1) by {
        assert(others[i] == pairs[i + 1]);
    }
}

/// Attributes as they are written, up to the end of a tag, are read as those
/// attributes.
proof fn lemma_attributes_back(attributes: Seq<Pair>, rest: Seq<char>)
    requires
        valid_attributes(attributes),
        valid_values(attributes),
        rest.len() > 0,
        rest[0] == '>',
    ensures
        read_attributes(attributes_text(attributes) + rest) == Ok::<
            ((Seq<Pair>, Seq<Pair>), Seq<char>),
            Seq<char>,
        >(((Seq::empty(), attributes), rest)),
    decreases attributes.len(),
{
    if attributes.len() == 0 {
        reveal_strlit(">");
        assert(attributes_text(attributes) + rest =~= rest);
        assert(rest.take(1) =~= ">"@);
        assert(trim_start(rest) == rest);
        assert(attributes =~= Seq::empty());
    } else {
        let others = attributes.drop_first();
        lemma_attributes_text_front(attributes);
        assert(attributes_text(attributes) + rest =~= attribute_text(attributes[0]) + (
        attributes_text(others) + rest));
        assert forall|i: int| 0 <= i < others.len() implies valid_name((#[trigger] others[i]).0)
            && declared_prefix(others[i].0) is None by {
            assert(others[i] == attributes[i + 1]);
        }
        lemma_other_values(attributes);
        lemma_attributes_back(others, rest);
        lemma_tag_ends_name(Seq::empty(), others, rest);
        assert(declarations_text(Seq::empty()) + attributes_text(others) + rest =~= attributes_text(
            others,
        ) + rest);
        lemma_attributes_step(attributes[0], attributes_text(others) + rest);
        assert(seq![attributes[0]] + others =~= attributes);
    }
}

/// Declarations and attributes as they are written are read as they were.
proof fn lemma_tag_back(declarations: Seq<Pair>, attributes: Seq<Pair>, rest: Seq<char>)
    requires
        valid_prefixes(declarations),
        valid_values(declarations),
        valid_attributes(attributes),
        valid_values(attributes),
        rest.len() > 0,
        rest[0] == '>',
    ensures
        read_attributes(declarations_text(declarations) + attributes_text(attributes) + rest)
            == Ok::<((Seq<Pair>, Seq<Pair>), Seq<char>), Seq<char>>(
            ((declarations, attributes), rest),
        ),
    decreases declarations.len(),
{
    let written = attributes_text(attributes) + rest;
    if declarations.len() == 0 {
        lemma_attributes_back(attributes, rest);
        assert(declarations_text(declarations) + attributes_text(attributes) + rest =~= written);
        assert(declarations =~= Seq::empty());
    } else {
        let others = declarations.drop_first();
        let declaration = declarations[0];
        lemma_declarations_text_front(declarations);
        assert forall|i: int, j: int|
            0 <= i < others.len() && 0 <= j < others[i].0.len() implies continues_name(
            #[trigger] others[i].0[j],
        ) && !ends_name(others[i].0[j]) by {
            assert(others[i] == declarations[i + 1]);
            assert(continues_name(declarations[i + 1].0[j]));
        }
        assert(valid_prefixes(seq![declaration])) by {
            assert forall|i: int, j: int|
                0 <= i < 1 && 0 <= j < seq![declaration][i].0.len() implies continues_name(
                #[trigger] seq![declaration][i].0[j],
            ) && !ends_name(seq![declaration][i].0[j]) by {
                assert(continues_name(declarations[0].0[j]));
            }
        }
        lemma_other_values(declarations);
        assert(all_allowed(declarations[0].1));
        lemma_tag_back(others, attributes, rest);
        lemma_declaration_is_attribute(declaration);
        let after = declarations_text(others) + attributes_text(attributes) + rest;
        assert(declarations_text(declarations) + attributes_text(attributes) + rest
            =~= declaration_text(declaration) + after);
        lemma_tag_ends_name(others, attributes, rest);
        lemma_attributes_step((declaring_name(declaration.0), declaration.1), after);
        assert(seq![declaration] + others =~= declarations);
    }
}

/// Children, with text before them: joined to the text they begin with.
pub open spec fn joined(text: Seq<char>, nodes: Seq<NodeModel>) -> Seq<NodeModel> {
    if text.len() == 0 {
        nodes
    } else if nodes.len() > 0 && nodes[0] is Text {
        seq![NodeModel::Text(text + nodes[0]->Text_0)] + nodes.drop_first()
    } else {
        seq![NodeModel::Text(text)] + nodes
    }
}

/// An element in normal form: the declarations it renders, its attributes in
/// order, and its children so too, with neighbouring texts joined.
pub open spec fn normalized(
    element: ElementModel,
    inherited: Seq<Pair>,
    rendered: Seq<Pair>,
) -> ElementModel
    decreases element,
{
    let scope = declare_all(inherited, element.namespaces);
    let declarations = rendered_declarations(element, inherited, rendered);
    ElementModel {
        name: element.name,
        namespaces: declarations,
        attributes: arranged(element.attributes, by_namespace(scope)),
        children: normalized_among(
            element.children,
            scope,
            declare_all(rendered, declarations),
        ),
    }
}

/// Children in normal form.
pub open spec fn normalized_among(
    nodes: Seq<NodeModel>,
    inherited: Seq<Pair>,
    rendered: Seq<Pair>,
) -> Seq<NodeModel>
    decreases nodes,
{
    if nodes.len() == 0 {
        Seq::empty()
    } else {
        let others = normalized_among(nodes.drop_first(), inherited, rendered);
        match nodes[0] {
            NodeModel::Element(element) => seq![
                NodeModel::Element(normalized(element, inherited, rendered)),
            ] + others,
            NodeModel::Text(text) => joined(text, others),
        }
    }
}

/// How a child is written.
pub open spec fn child_text(node: NodeModel, inherited: Seq<Pair>, rendered: Seq<Pair>) -> Seq<char> {
    match node {
        NodeModel::Element(element) => element_text(element, inherited, rendered),
        NodeModel::Text(text) => escaped_text(text),
    }
}

/// What is written of children begins with the first of them.
pub proof fn lemma_children_text_front(
    nodes: Seq<NodeModel>,
    inherited: Seq<Pair>,
    rendered: Seq<Pair>,
)
    requires
        nodes.len() > 0,
    ensures
        children_text(nodes, inherited, rendered) == child_text(nodes[0], inherited, rendered)
            + children_text(nodes.drop_first(), inherited, rendered),
    decreases nodes.len(),
{
    let none = Seq::<NodeModel>::empty();
    assert(children_text(none, inherited, rendered) =~= Seq::empty());
    let first = child_text(nodes[0], inherited, rendered);
    if nodes.len() == 1 {
        assert(nodes.drop_last() =~= none);
        assert(nodes.drop_first() =~= none);
        assert(Seq::<char>::empty() + first =~= first);
        assert(first + Seq::<char>::empty() =~= first);
    } else {
        let before = nodes.drop_last();
        lemma_children_text_front(before, inherited, rendered);
        let last = child_text(nodes.last(), inherited, rendered);
        assert(before.drop_first() =~= nodes.drop_first().drop_last());
        assert(nodes.drop_first().last() == nodes.last());
        assert(before[0] == nodes[0]);
        let middle = children_text(before.drop_first(), inherited, rendered);
        assert((first + middle) + last =~= first + (middle + last));
    }
}

/// The part of a valid name before a colon holds what a name does.
proof fn lemma_prefix_valid(name: Seq<char>)
    requires
        valid_name(name),
    ensures
        split_once(name, ':') matches Some((prefix, _)) ==> forall|j: int|
            0 <= j < prefix.len() ==> continues_name(#[trigger] prefix[j]) && !ends_name(prefix[j]),
{
    lemma_position_of(name, ':');
    if let Some((prefix, _)) = split_once(name, ':') {
        assert forall|j: int| 0 <= j < prefix.len() implies continues_name(#[trigger] prefix[j])
            && !ends_name(prefix[j]) by {
            assert(prefix[j] == name[j]);
        }
    }
}

/// Pairs of which no two have the same name are told apart by their names.
proof fn lemma_names_differ(pairs: Seq<Pair>)
    ensures
        names_differ(pairs) <==> keys_distinct(pairs, by_prefix()),
{
    if names_differ(pairs) {
        assert forall|i: int, j: int| 0 <= i < j < pairs.len() implies by_prefix()(
            #[trigger] pairs[i],
        ) != by_prefix()(#[trigger] pairs[j]) by {
            assert(pairs[i].0 != pairs[j].0);
        }
    }
    if keys_distinct(pairs, by_prefix()) {
        assert forall|i: int, j: int| 0 <= i < j < pairs.len() implies (#[trigger] pairs[i]).0 != (
        #[trigger] pairs[j]).0 by {
            assert(by_prefix()(pairs[i]) != by_prefix()(pairs[j]));
        }
    }
}

/// The prefixes a readable element declares are parts of valid names, and its
/// attributes in order are of valid names; none stands there twice, and the
/// values of both are valid.
pub proof fn lemma_tag_valid(element: ElementModel, inherited: Seq<Pair>, rendered: Seq<Pair>)
    requires
        readable(element),
        valid_values(inherited),
    ensures
        valid_values(rendered_declarations(element, inherited, rendered)),
        valid_values(
            arranged(
                element.attributes,
                by_namespace(declare_all(inherited, element.namespaces)),
            ),
        ),
        valid_prefixes(rendered_declarations(element, inherited, rendered)),
        valid_attributes(
            arranged(
                element.attributes,
                by_namespace(declare_all(inherited, element.namespaces)),
            ),
        ),
        names_differ(rendered_declarations(element, inherited, rendered)),
        names_differ(
            arranged(
                element.attributes,
                by_namespace(declare_all(inherited, element.namespaces)),
            ),
        ),
{
    let declarations = rendered_declarations(element, inherited, rendered);
    let used = used_prefixes(element);
    assert forall|i: int, j: int|
        0 <= i < declarations.len() && 0 <= j < declarations[i].0.len() implies continues_name(
        #[trigger] declarations[i].0[j],
    ) && !ends_name(declarations[i].0[j]) by {
        let prefix = declarations[i].0;
        assert(declarations.contains(declarations[i]));
        only_used_namespaces_are_declared(element, inherited, rendered, declarations[i]);
        let k = choose|k: int| 0 <= k < used.len() && used[k] == prefix;
        if k == 0 {
            lemma_prefix_valid(element.name);
        } else {
            let others = attribute_prefixes(element.attributes);
            assert(others[k - 1] == prefix);
            let at = lemma_prefix_of_attribute(element.attributes, prefix);
            assert(valid_name(element.attributes[at].0));
            lemma_prefix_valid(element.attributes[at].0);
        }
    }
    let key = by_namespace(declare_all(inherited, element.namespaces));
    let attributes = arranged(element.attributes, key);
    assert forall|i: int| 0 <= i < attributes.len() implies valid_name((#[trigger] attributes[i]).0)
        && declared_prefix(attributes[i].0) is None by {
        assert(attributes.contains(attributes[i]));
        lemma_arranged_contains(element.attributes, key, attributes[i]);
        let k = choose|k: int|
            0 <= k < element.attributes.len() && element.attributes[k] == attributes[i];
        assert(valid_name(element.attributes[k].0));
    }
    lemma_scope_allowed(inherited, element.namespaces);
    assert forall|i: int| 0 <= i < declarations.len() implies all_allowed(
        (#[trigger] declarations[i]).1,
    ) by {
        assert(declarations.contains(declarations[i]));
        only_used_namespaces_are_declared(element, inherited, rendered, declarations[i]);
        lemma_namespace_allowed(
            declare_all(inherited, element.namespaces),
            declarations[i].0,
        );
    }
    assert forall|i: int| 0 <= i < attributes.len() implies all_allowed(
        (#[trigger] attributes[i]).1,
    ) by {
        assert(attributes.contains(attributes[i]));
        lemma_arranged_contains(element.attributes, key, attributes[i]);
        let k = choose|k: int|
            0 <= k < element.attributes.len() && element.attributes[k] == attributes[i];
        assert(all_allowed(element.attributes[k].1));
    }
    declarations_are_in_order(element, inherited, rendered);
    lemma_names_differ(declarations);
    arranged_keeps_every_pair(element.attributes, key);
    lemma_names_differ(element.attributes);
    lemma_distinct_reordered(element.attributes, attributes, by_prefix());
    lemma_names_differ(attributes);
}

/// What is written after children: the end tag, and what follows it.
spec fn closing(name: Seq<char>, rest: Seq<char>) -> Seq<char> {
    "</"@ + name + ">"@ + rest
}

/// An element as it is written is read as its normal form.
proof fn lemma_element_back(
    element: ElementModel,
    inherited: Seq<Pair>,
    rendered: Seq<Pair>,
    rest: Seq<char>,
)
    requires
        readable(element),
        valid_values(inherited),
    ensures
        read_element(element_text(element, inherited, rendered) + rest) == Ok::<
            (ElementModel, Seq<char>),
            Seq<char>,
        >((normalized(element, inherited, rendered), rest)),
    decreases element,
{
    reveal_strlit("<");
    reveal_strlit(">");
    reveal_strlit("/>");
    reveal_strlit("</");
    let name = element.name;
    let scope = declare_all(inherited, element.namespaces);
    let declarations = rendered_declarations(element, inherited, rendered);
    let shown = declare_all(rendered, declarations);
    let attributes = arranged(element.attributes, by_namespace(scope));
    let inside = children_text(element.children, scope, shown) + closing(name, rest);
    let end = ">"@ + inside;
    let tag = declarations_text(declarations) + attributes_text(attributes) + end;
    let whole = element_text(element, inherited, rendered) + rest;
    assert(whole =~= "<"@ + (name + tag));
    assert(whole[0] == '<');
    assert(whole.skip(1) =~= name + tag);
    lemma_tag_valid(element, inherited, rendered);
    lemma_scope_allowed(inherited, element.namespaces);
    lemma_tag_ends_name(declarations, attributes, end);
    lemma_name_back(name, tag);
    lemma_tag_back(declarations, attributes, end);
    lemma_differs(end, "/>"@, 0);
    assert(end.skip(1) =~= inside);
    lemma_children_back(element.children, scope, shown, name, rest);
}

/// What is written of a readable element begins with its name after a bracket.
proof fn lemma_element_start(element: ElementModel, inherited: Seq<Pair>, rendered: Seq<Pair>)
    requires
        readable(element),
    ensures
        element_text(element, inherited, rendered).len() >= 2,
        element_text(element, inherited, rendered)[0] == '<',
        element_text(element, inherited, rendered)[1] == element.name[0],
        !ends_name(element.name[0]),
        begins_name(element.name[0]),
        element.name[0] != '!',
        element.name[0] != '?',
{
    reveal_strlit("<");
    let tag = start_tag(element, inherited, rendered);
    assert(tag[0] == '<' && tag[1] == element.name[0]);
    assert(tag.len() >= 2);
}

/// Children as they are written, and the end tag, are read as their normal form.
proof fn lemma_children_back(
    nodes: Seq<NodeModel>,
    inherited: Seq<Pair>,
    rendered: Seq<Pair>,
    name: Seq<char>,
    rest: Seq<char>,
)
    requires
        readable_among(nodes),
        valid_values(inherited),
    ensures
        read_children(children_text(nodes, inherited, rendered) + closing(name, rest), name)
            == Ok::<(Seq<NodeModel>, Seq<char>), Seq<char>>(
            (normalized_among(nodes, inherited, rendered), rest),
        ),
    decreases nodes,
{
    reveal_strlit("<!--");
    reveal_strlit("</");
    reveal_strlit(">");
    reveal_strlit("<![CDATA[");
    reveal_strlit("<!");
    reveal_strlit("<?");
    reveal_strlit("<");
    let whole = children_text(nodes, inherited, rendered) + closing(name, rest);
    if nodes.len() == 0 {
        assert(whole =~= closing(name, rest));
        lemma_differs(whole, "<!--"@, 1);
        assert(whole.take(2 + name.len() as int) =~= "</"@ + name);
        assert(whole.skip(2 + name.len() as int) =~= ">"@ + rest);
        let end = ">"@ + rest;
        assert(end[0] == '>');
        assert(trim_start(end) == end);
        assert(end.skip(1) =~= rest);
    } else {
        let others = nodes.drop_first();
        let after = children_text(others, inherited, rendered) + closing(name, rest);
        lemma_children_text_front(nodes, inherited, rendered);
        assert(whole =~= child_text(nodes[0], inherited, rendered) + after);
        lemma_children_back(others, inherited, rendered, name, rest);
        match nodes[0] {
            NodeModel::Element(element) => {
                assert(readable(element));
                lemma_element_back(element, inherited, rendered, after);
                lemma_element_start(element, inherited, rendered);
                assert(whole[0] == '<' && whole[1] == element.name[0]);
                lemma_differs(whole, "<!--"@, 1);
                lemma_differs(whole, "</"@ + name, 1);
                lemma_differs(whole, "<![CDATA["@, 1);
                lemma_differs(whole, "<!"@, 1);
                lemma_differs(whole, "<?"@, 1);
                let child = NodeModel::Element(normalized(element, inherited, rendered));
                assert(read_child(whole) == Ok::<(NodeModel, Seq<char>), Seq<char>>((child, after)));
                assert(after.len() < whole.len());
            },
            NodeModel::Text(text) => {
                lemma_text_back(text, others, inherited, rendered, name, rest);
            },
        }
    }
}

/// Whether an opening bracket stands before any closing one.
spec fn opens_first(s: Seq<char>) -> bool {
    forall|i: int| 0 <= i < s.len() && #[trigger] s[i] == '>' ==> s.take(i).contains('<')
}

/// Text that begins with an opening bracket has it before any closing one.
proof fn lemma_opens_first(s: Seq<char>)
    requires
        s.len() > 0,
        s[0] == '<',
    ensures
        opens_first(s),
{
    assert forall|i: int| 0 <= i < s.len() && #[trigger] s[i] == '>' implies s.take(i).contains(
        '<',
    ) by {
        assert(s.take(i)[0] == '<');
    }
}

/// What follows a text among children, up to the next markup, is text; markup
/// there begins no comment.
proof fn lemma_after_text(
    nodes: Seq<NodeModel>,
    inherited: Seq<Pair>,
    rendered: Seq<Pair>,
    name: Seq<char>,
    rest: Seq<char>,
)
    requires
        readable_among(nodes),
    ensures
        ({
            let whole = children_text(nodes, inherited, rendered) + closing(name, rest);
            &&& whole.contains('<')
            &&& opens_first(whole)
            &&& !starts_with(whole, "<!--"@)
        }),
    decreases nodes,
{
    reveal_strlit("<!--");
    reveal_strlit("</");
    reveal_strlit("<");
    let whole = children_text(nodes, inherited, rendered) + closing(name, rest);
    let at = children_text(nodes, inherited, rendered).len() as int;
    assert(whole[at] == '<');
    if nodes.len() == 0 {
        lemma_differs(whole, "<!--"@, 1);
        lemma_opens_first(whole);
    } else {
        let others = nodes.drop_first();
        lemma_children_text_front(nodes, inherited, rendered);
        lemma_after_text(others, inherited, rendered, name, rest);
        let after = children_text(others, inherited, rendered) + closing(name, rest);
        assert(whole =~= child_text(nodes[0], inherited, rendered) + after);
        match nodes[0] {
            NodeModel::Element(element) => {
                assert(readable(element));
                lemma_element_start(element, inherited, rendered);
                assert(whole[1] == element.name[0]);
                lemma_differs(whole, "<!--"@, 1);
                lemma_opens_first(whole);
            },
            NodeModel::Text(text) => {
                let written = escaped_text(text);
                escaped_text_holds_no_markup(text);
                assert forall|i: int| 0 <= i < whole.len() && #[trigger] whole[i] == '>' implies whole.take(
                    i,
                ).contains('<') by {
                    if i < written.len() {
                        assert(written.contains(written[i]));
                    }
                    let k = i - written.len();
                    assert(after[k] == '>');
                    let l = choose|l: int| 0 <= l < k && after.take(k)[l] == '<';
                    assert(whole.take(i)[l + written.len()] == '<');
                }
                if written.len() > 0 {
                    assert(written.contains(written[0]));
                    assert(whole[0] == written[0]);
                    lemma_differs(whole, "<!--"@, 0);
                } else {
                    assert(whole =~= after);
                }
            },
        }
    }
}

/// Text as it is written, and children after it, are read as the text joined to
/// them.
proof fn lemma_text_back(
    text: Seq<char>,
    others: Seq<NodeModel>,
    inherited: Seq<Pair>,
    rendered: Seq<Pair>,
    name: Seq<char>,
    rest: Seq<char>,
)
    requires
        all_allowed(text),
        readable_among(others),
        read_children(children_text(others, inherited, rendered) + closing(name, rest), name)
            == Ok::<(Seq<NodeModel>, Seq<char>), Seq<char>>(
            (normalized_among(others, inherited, rendered), rest),
        ),
    ensures
        read_children(
            escaped_text(text) + (children_text(others, inherited, rendered) + closing(
                name,
                rest,
            )),
            name,
        ) == Ok::<(Seq<NodeModel>, Seq<char>), Seq<char>>(
            (joined(text, normalized_among(others, inherited, rendered)), rest),
        ),
{
    let after = children_text(others, inherited, rendered) + closing(name, rest);
    let children = normalized_among(others, inherited, rendered);
    let written = escaped_text(text);
    let whole = written + after;
    if text.len() == 0 {
        assert(whole =~= after);
    } else {
        lemma_after_text(others, inherited, rendered, name, rest);
        lemma_escaped_not_empty(text);
        escaped_text_holds_no_markup(text);
        lemma_position_of(after, '<');
        let at = position_of(after, '<')->0;
        let run = after.take(at as int);
        let markup = after.skip(at as int);
        assert(!(written + run).contains('<')) by {
            if (written + run).contains('<') {
                let k = choose|k: int|
                    0 <= k < (written + run).len() && (written + run)[k] == '<';
                if k < written.len() {
                    assert(written.contains(written[k]));
                } else {
                    assert(run.contains(run[k - written.len()]));
                }
            }
        }
        lemma_position_after(written + run, '<', markup.drop_first());
        assert(whole =~= (written + run).push('<') + markup.drop_first());
        assert(whole.take((written + run).len() as int) =~= written + run);
        assert(whole.skip((written + run).len() as int) =~= markup);
        assert(written.contains(written[0]));
        assert(whole[0] == written[0]);
        lemma_text_first(whole, name);
        assert(!run.contains('>')) by {
            if run.contains('>') {
                let k = choose|k: int| 0 <= k < run.len() && run[k] == '>';
                assert(after[k] == '>');
                let l = choose|l: int| 0 <= l < k && after.take(k)[l] == '<';
                assert(after[l] == '<');
            }
        }
        lemma_text_before_run(text, run);
        if at == 0 {
            assert(run =~= Seq::empty());
            assert(markup =~= after);
            assert(after[0] == '<');
            lemma_markup_first(after, name);
            lemma_no_section_end(run);
            assert(unescaped(run) == Ok::<Seq<char>, Seq<char>>(run));
            assert(text + run =~= text);
        } else {
            assert(after[0] == run[0]);
            assert(run.contains(run[0]));
            lemma_text_first(after, name);
            let more = read_text(run)->Ok_0;
            let later = read_children(markup, name)->Ok_0.0;
            assert(children =~= seq![NodeModel::Text(more)] + later);
            assert(children.drop_first() =~= later);
        }
    }
}

/// Text as it is written, then a run that can be read, is read as the one, then
/// the other.
proof fn lemma_text_before_run(text: Seq<char>, run: Seq<char>)
    requires
        all_allowed(text),
        !run.contains('>'),
    ensures
        read_text(run) matches Ok(more) ==> read_text(escaped_text(text) + run) == Ok::<
            Seq<char>,
            Seq<char>,
        >(text + more),
{
    if let Ok(more) = read_text(run) {
        let written = escaped_text(text);
        let whole = written + run;
        lemma_text_before(text, run);
        escaped_text_holds_no_markup(text);
        if whole.contains('>') {
            let k = choose|k: int| 0 <= k < whole.len() && whole[k] == '>';
            if k < written.len() {
                assert(written.contains(written[k]));
            } else {
                assert(run.contains(run[k - written.len()]));
            }
        }
        lemma_no_section_end(whole);
        assert(all_allowed(text + more));
    }
}

/// Text without a closing bracket closes no CDATA section.
proof fn lemma_no_section_end(s: Seq<char>)
    requires
        !s.contains('>'),
    ensures
        position(s, "]]>"@) is None,
    decreases s.len(),
{
    reveal_strlit("]]>");
    if starts_with(s, "]]>"@) {
        assert(s.take(3)[2] == '>');
        assert(s[2] == '>');
    } else if s.len() > 0 {
        let rest = s.drop_first();
        if rest.contains('>') {
            let k = choose|k: int| 0 <= k < rest.len() && rest[k] == '>';
            assert(s[k + 1] == '>');
        }
        lemma_no_section_end(rest);
    }
}

/// What begins with no markup is read as text up to the markup, then as what
/// follows.
proof fn lemma_text_first(s: Seq<char>, name: Seq<char>)
    requires
        s.len() > 0,
        s[0] != '<',
    ensures
        position_of(s, '<') matches Some(at) ==> read_children(s, name) == match read_text(
            s.take(at as int),
        ) {
            Err(fault) => Err(fault),
            Ok(text) => preceded(NodeModel::Text(text), read_children(s.skip(at as int), name)),
        },
{
    lemma_plain_start(s, name);
    lemma_position_of(s, '<');
    if let Some(at) = position_of(s, '<') {
        assert(at > 0);
        assert(s.skip(at as int).len() < s.len());
        assert(read_child(s) == match read_text(s.take(at as int)) {
            Err(fault) => Err(fault),
            Ok(text) => Ok((NodeModel::Text(text), s.skip(at as int))),
        });
    }
}

/// Text that is not empty is not written as nothing.
proof fn lemma_escaped_not_empty(text: Seq<char>)
    requires
        text.len() > 0,
    ensures
        escaped_text(text).len() > 0,
{
    reveal_strlit("&amp;");
    reveal_strlit("&lt;");
    reveal_strlit("&gt;");
    reveal_strlit("&#xD;");
    assert(text_escape(text.last()).len() > 0);
}

/// What begins with no markup begins with no comment and no end tag, and is read
/// as text.
pub proof fn lemma_plain_start(s: Seq<char>, name: Seq<char>)
    requires
        s.len() > 0,
        s[0] != '<',
    ensures
        !starts_with(s, "<!--"@),
        !starts_with(s, "</"@ + name),
        !starts_with(s, "<![CDATA["@),
        !starts_with(s, "<!"@),
        !starts_with(s, "<?"@),
{
    reveal_strlit("<!--");
    reveal_strlit("</");
    reveal_strlit("<![CDATA[");
    reveal_strlit("<!");
    reveal_strlit("<?");
    lemma_differs(s, "<!--"@, 0);
    lemma_differs(s, "</"@ + name, 0);
    lemma_differs(s, "<![CDATA["@, 0);
    lemma_differs(s, "<!"@, 0);
    lemma_differs(s, "<?"@, 0);
}

/// Children that begin with markup other than a comment do not begin with text.
proof fn lemma_markup_first(s: Seq<char>, name: Seq<char>)
    requires
        s.len() > 0,
        s[0] == '<',
        !starts_with(s, "<!--"@),
    ensures
        read_children(s, name) matches Ok((children, _)) ==> !(children.len() > 0
            && children[0] is Text),
{
    if !starts_with(s, "</"@ + name) {
        if let Ok((child, rest)) = read_child(s) {
            assert(child is Element);
            if let Ok((later, _)) = read_children(rest, name) {
                assert((seq![child] + later)[0] == child);
            }
        }
    }
}

/// The canonical form of a readable element reads back: as its normal form.
pub proof fn a_canonical_form_reads_back(element: ElementModel, in_scope: Seq<Pair>)
    requires
        readable(element),
        valid_values(in_scope),
    ensures
        read_document(canonical_form(element, in_scope)) == Ok::<ElementModel, Seq<char>>(
            normalized(element, in_scope, Seq::empty()),
        ),
{
    let none = Seq::<char>::empty();
    let text = canonical_form(element, in_scope);
    lemma_element_start(element, in_scope, Seq::empty());
    lemma_element_back(element, in_scope, Seq::empty(), none);
    a_canonical_form_holds_what_xml_allows(element, in_scope);
    assert(text + none =~= text);
    assert(after_marks(text) == text);
    assert(trim_start(text) == text);
    reveal_strlit("<?xml");
    reveal_strlit("<!--");
    reveal_strlit("<!");
    reveal_strlit("<?");
    lemma_differs(text, "<?xml"@, 1);
    lemma_differs(text, "<!--"@, 1);
    lemma_differs(text, "<!"@, 1);
    lemma_differs(text, "<?"@, 1);
    assert(after_trivia(text) == Ok::<Seq<char>, Seq<char>>(text));
    lemma_differs(none, "<!--"@, 0);
    lemma_differs(none, "<!"@, 0);
    lemma_differs(none, "<?"@, 0);
    assert(trim_start(none) == none);
    assert(after_trivia(none) == Ok::<Seq<char>, Seq<char>>(none));
}

/// Readable elements of one canonical form are one in their normal form: in
/// their names, their rendered declarations, their attributes in order, and
/// their children.
pub proof fn one_form_is_one_normal_form(
    a: ElementModel,
    in_scope_of_a: Seq<Pair>,
    b: ElementModel,
    in_scope_of_b: Seq<Pair>,
)
    requires
        readable(a),
        readable(b),
        valid_values(in_scope_of_a),
        valid_values(in_scope_of_b),
        canonical_form(a, in_scope_of_a) == canonical_form(b, in_scope_of_b),
    ensures
        normalized(a, in_scope_of_a, Seq::empty()) == normalized(b, in_scope_of_b, Seq::empty()),
{
    a_canonical_form_reads_back(a, in_scope_of_a);
    a_canonical_form_reads_back(b, in_scope_of_b);
}

/// Whether every prefix that ancestors rendered, but for the empty one, stands
/// for something in the scope.
spec fn settled(rendered: Seq<Pair>, inherited: Seq<Pair>) -> bool {
    forall|prefix: Seq<char>| #[trigger]
        namespace_of(rendered, prefix) is Some && prefix.len() > 0 ==> namespace_of(
            inherited,
            prefix,
        ) is Some
}

/// Text is written as its parts are.
pub proof fn lemma_escaped_text_of_two(a: Seq<char>, b: Seq<char>)
    ensures
        escaped_text(a + b) == escaped_text(a) + escaped_text(b),
    decreases b.len(),
{
    if b.len() == 0 {
        assert(a + b =~= a);
        assert(escaped_text(a) + escaped_text(b) =~= escaped_text(a));
    } else {
        lemma_escaped_text_of_two(a, b.drop_last());
        assert((a + b).drop_last() =~= a + b.drop_last());
        assert((a + b).last() == b.last());
        assert(escaped_text(a + b) =~= escaped_text(a) + escaped_text(b));
    }
}

/// Joined text is written as the text, then the children.
proof fn lemma_joined_text(text: Seq<char>, nodes: Seq<NodeModel>, rendered: Seq<Pair>)
    ensures
        children_text(joined(text, nodes), rendered, rendered) == escaped_text(text)
            + children_text(nodes, rendered, rendered),
{
    let all = joined(text, nodes);
    let written = children_text(nodes, rendered, rendered);
    if text.len() == 0 {
        assert(escaped_text(text) + written =~= written);
    } else {
        lemma_children_text_front(all, rendered, rendered);
        if nodes.len() > 0 && nodes[0] is Text {
            let more = nodes[0]->Text_0;
            lemma_children_text_front(nodes, rendered, rendered);
            lemma_escaped_text_of_two(text, more);
            assert(all.drop_first() =~= nodes.drop_first());
            let later = children_text(nodes.drop_first(), rendered, rendered);
            assert((escaped_text(text) + escaped_text(more)) + later =~= escaped_text(text) + (
            escaped_text(more) + later));
        } else {
            assert(all.drop_first() =~= nodes);
        }
    }
}

/// A scope with one more declaration, or more, declares no prefix twice.
pub proof fn lemma_declared_once(scope: Seq<Pair>, declarations: Seq<Pair>)
    requires
        keys_distinct(scope, by_prefix()),
    ensures
        keys_distinct(declare_all(scope, declarations), by_prefix()),
    decreases declarations.len(),
{
    if declarations.len() > 0 {
        let before = declare_all(scope, declarations.drop_last());
        let declaration = declarations.last();
        lemma_declared_once(scope, declarations.drop_last());
        let p = |known: Pair| known.0 != declaration.0;
        let kept = before.filter(p);
        lemma_filtered_once(before, p);
        let all = kept.push(declaration);
        assert forall|i: int, j: int| 0 <= i < j < all.len() implies by_prefix()(#[trigger] all[i])
            != by_prefix()(#[trigger] all[j]) by {
            if j < kept.len() {
                assert(by_prefix()(kept[i]) != by_prefix()(kept[j]));
            } else {
                before.lemma_filter_pred(p, i);
                assert(p(kept[i]));
            }
        }
    }
}

/// Of pairs that declare no prefix twice, no part declares one twice.
proof fn lemma_filtered_once(pairs: Seq<Pair>, p: spec_fn(Pair) -> bool)
    requires
        keys_distinct(pairs, by_prefix()),
    ensures
        keys_distinct(pairs.filter(p), by_prefix()),
    decreases pairs.len(),
{
    reveal(Seq::filter);
    if pairs.len() > 0 {
        let before = pairs.drop_last();
        assert forall|i: int, j: int| 0 <= i < j < before.len() implies by_prefix()(
            #[trigger] before[i],
        ) != by_prefix()(#[trigger] before[j]) by {
            assert(by_prefix()(pairs[i]) != by_prefix()(pairs[j]));
        }
        lemma_filtered_once(before, p);
        let kept = before.filter(p);
        let all = pairs.filter(p);
        assert forall|i: int, j: int| 0 <= i < j < all.len() implies by_prefix()(#[trigger] all[i])
            != by_prefix()(#[trigger] all[j]) by {
            if j < kept.len() {
                assert(by_prefix()(kept[i]) != by_prefix()(kept[j]));
            } else {
                assert(all[j] == pairs[pairs.len() - 1]);
                assert(all[i] == kept[i]);
                assert(kept.contains(kept[i]));
                before.lemma_filter_contains_rev(p, kept[i]);
                let k = choose|k: int| 0 <= k < before.len() && before[k] == kept[i];
                assert(by_prefix()(pairs[k]) != by_prefix()(pairs[pairs.len() - 1]));
            }
        }
    }
}

/// In normal form, an element renders the declarations it has.
proof fn lemma_declarations_stay(
    element: ElementModel,
    inherited: Seq<Pair>,
    rendered: Seq<Pair>,
)
    requires
        keys_distinct(rendered, by_prefix()),
    ensures
        rendered_declarations(normalized(element, inherited, rendered), rendered, rendered)
            == rendered_declarations(element, inherited, rendered),
{
    let normal = normalized(element, inherited, rendered);
    let declarations = rendered_declarations(element, inherited, rendered);
    let again = rendered_declarations(normal, rendered, rendered);
    let key = by_namespace(declare_all(inherited, element.namespaces));
    arranged_keeps_every_pair(element.attributes, key);
    declarations_are_in_order(element, inherited, rendered);
    declarations_are_in_order(normal, rendered, rendered);
    assert forall|declaration: Pair| again.contains(declaration) <==> declarations.contains(
        declaration,
    ) by {
        let (prefix, uri) = declaration;
        only_used_namespaces_are_declared(element, inherited, rendered, declaration);
        only_used_namespaces_are_declared(normal, rendered, rendered, declaration);
        the_last_declaration_counts(rendered, declarations, prefix);
        lemma_namespace_is_member(declarations, prefix, uri);
        lemma_namespace_is_member(rendered, prefix, uri);
        if prefix.len() == 0 && uri.len() == 0 {
            assert(prefix =~= Seq::empty());
            assert(uri =~= Seq::empty());
            if let Some(known) = namespace_of(declarations, prefix) {
                lemma_namespace_is_member(declarations, prefix, known);
                only_used_namespaces_are_declared(element, inherited, rendered, (prefix, known));
                assert(known.len() == 0 ==> known =~= uri);
            }
        }
        if used_prefixes(element).contains(prefix) {
            lemma_same_prefixes_used(element, normal, prefix);
        }
        if used_prefixes(normal).contains(prefix) {
            lemma_same_prefixes_used(normal, element, prefix);
        }
    }
    lemma_order_by_members(again, declarations, by_prefix());
}

/// In normal form, an element's attributes stand in order as they are.
proof fn lemma_attributes_stay(element: ElementModel, inherited: Seq<Pair>, rendered: Seq<Pair>)
    requires
        keys_distinct(rendered, by_prefix()),
        settled(rendered, inherited),
    ensures
        ({
            let attributes = normalized(element, inherited, rendered).attributes;
            let shown = declare_all(
                rendered,
                rendered_declarations(element, inherited, rendered),
            );
            arranged(attributes, by_namespace(shown)) == attributes
        }),
{
    let scope = declare_all(inherited, element.namespaces);
    let declarations = rendered_declarations(element, inherited, rendered);
    let shown = declare_all(rendered, declarations);
    let attributes = arranged(element.attributes, by_namespace(scope));
    reveal_strlit("xml");
    declarations_are_in_order(element, inherited, rendered);
    assert forall|i: int| 0 <= i < attributes.len() implies by_namespace(shown)(
        #[trigger] attributes[i],
    ) == by_namespace(scope)(attributes[i]) by {
        if let Some((prefix, local)) = split_once(attributes[i].0, ':') {
            assert(attributes.contains(attributes[i]));
            lemma_arranged_contains(element.attributes, by_namespace(scope), attributes[i]);
            let k = choose|k: int|
                0 <= k < element.attributes.len() && element.attributes[k] == attributes[i];
            lemma_attribute_prefix_used(element.attributes, k);
            let others = attribute_prefixes(element.attributes);
            let l = choose|l: int| 0 <= l < others.len() && others[l] == prefix;
            assert(used_prefixes(element)[l + 1] == prefix);
            the_last_declaration_counts(rendered, declarations, prefix);
            the_last_declaration_counts(inherited, element.namespaces, prefix);
            assert(namespace_of(rendered, prefix) is Some && prefix.len() > 0 ==> namespace_of(
                inherited,
                prefix,
            ) is Some);
            if prefix.len() == 0 {
                assert(prefix =~= Seq::empty());
                let none = (prefix, Seq::<char>::empty());
                only_used_namespaces_are_declared(element, inherited, rendered, none);
                lemma_namespace_is_member(declarations, prefix, none.1);
            }
            if let Some(known) = namespace_of(declarations, prefix) {
                lemma_namespace_is_member(declarations, prefix, known);
                only_used_namespaces_are_declared(element, inherited, rendered, (prefix, known));
            } else if let Some(uri) = namespace_of(scope, prefix) {
                only_used_namespaces_are_declared(element, inherited, rendered, (prefix, uri));
                lemma_namespace_is_member(declarations, prefix, uri);
                lemma_namespace_is_member(rendered, prefix, uri);
            }
        }
    }
    lemma_arranged_agrees(attributes, by_namespace(shown), by_namespace(scope));
    arranged_is_in_order(element.attributes, by_namespace(scope));
    what_is_in_order_stays(attributes, by_namespace(scope));
}

/// What is rendered of an element's children stands for something in the scope.
proof fn lemma_settled_below(element: ElementModel, inherited: Seq<Pair>, rendered: Seq<Pair>)
    requires
        settled(rendered, inherited),
    ensures
        settled(
            declare_all(rendered, rendered_declarations(element, inherited, rendered)),
            declare_all(inherited, element.namespaces),
        ),
{
    let scope = declare_all(inherited, element.namespaces);
    let declarations = rendered_declarations(element, inherited, rendered);
    let shown = declare_all(rendered, declarations);
    declarations_are_in_order(element, inherited, rendered);
    assert forall|prefix: Seq<char>| #[trigger]
        namespace_of(shown, prefix) is Some && prefix.len() > 0 implies namespace_of(
        scope,
        prefix,
    ) is Some by {
        the_last_declaration_counts(rendered, declarations, prefix);
        the_last_declaration_counts(inherited, element.namespaces, prefix);
        if let Some(uri) = namespace_of(declarations, prefix) {
            lemma_namespace_is_member(declarations, prefix, uri);
            only_used_namespaces_are_declared(element, inherited, rendered, (prefix, uri));
        } else {
            assert(namespace_of(rendered, prefix) is Some);
        }
    }
}

/// The normal form of an element is written as the element is.
proof fn lemma_normal_form_text(element: ElementModel, inherited: Seq<Pair>, rendered: Seq<Pair>)
    requires
        keys_distinct(rendered, by_prefix()),
        settled(rendered, inherited),
    ensures
        element_text(normalized(element, inherited, rendered), rendered, rendered) == element_text(
            element,
            inherited,
            rendered,
        ),
    decreases element,
{
    let scope = declare_all(inherited, element.namespaces);
    let declarations = rendered_declarations(element, inherited, rendered);
    let shown = declare_all(rendered, declarations);
    lemma_declarations_stay(element, inherited, rendered);
    lemma_attributes_stay(element, inherited, rendered);
    lemma_settled_below(element, inherited, rendered);
    lemma_declared_once(rendered, declarations);
    lemma_normal_children_text(element.children, scope, shown);
}

/// The normal form of children is written as the children are.
proof fn lemma_normal_children_text(
    nodes: Seq<NodeModel>,
    inherited: Seq<Pair>,
    rendered: Seq<Pair>,
)
    requires
        keys_distinct(rendered, by_prefix()),
        settled(rendered, inherited),
    ensures
        children_text(normalized_among(nodes, inherited, rendered), rendered, rendered)
            == children_text(nodes, inherited, rendered),
    decreases nodes,
{
    let normal = normalized_among(nodes, inherited, rendered);
    if nodes.len() > 0 {
        let others = nodes.drop_first();
        lemma_normal_children_text(others, inherited, rendered);
        lemma_children_text_front(nodes, inherited, rendered);
        let later = normalized_among(others, inherited, rendered);
        match nodes[0] {
            NodeModel::Element(element) => {
                lemma_normal_form_text(element, inherited, rendered);
                lemma_children_text_front(normal, rendered, rendered);
                assert(normal.drop_first() =~= later);
            },
            NodeModel::Text(text) => {
                lemma_joined_text(text, later, rendered);
            },
        }
    }
}

/// What a canonical form reads back as has that canonical form: the form of a
/// form is itself.
pub proof fn the_form_of_a_form_is_itself(element: ElementModel, in_scope: Seq<Pair>)
    requires
        readable(element),
        valid_values(in_scope),
    ensures
        read_document(canonical_form(element, in_scope)) matches Ok(again) && canonical_form(
            again,
            Seq::empty(),
        ) == canonical_form(element, in_scope),
{
    a_canonical_form_reads_back(element, in_scope);
    lemma_normal_form_text(element, in_scope, Seq::empty());
}

} // verus!
