//! Laws of rendering: what the canonical form of an element says of it, and how
//! it is laid out.

use crate::c14n::{
    arranged, attribute_key, attribute_prefixes, attributes_text, by_namespace, by_prefix,
    canonical_form, children_text, declarations_text, declare_all, element_text,
    escaped_attribute, escaped_text, namespace_of, rendered_declarations, used_prefixes,
};
use crate::error::AuthenticateError;
use crate::laws::canonical::{
    declarations_are_in_order, lemma_attribute_prefix_used, lemma_namespace_is_member,
    lemma_prefix_of_attribute, only_used_namespaces_are_declared,
};
use crate::laws::contents::elements_keep_their_order;
use crate::laws::ordering::{
    arranged_is_in_order, arranged_keeps_every_pair, keys_distinct, precedes,
    strings_are_ordered_by_code_point,
};
use crate::laws::paths::{a_prefix_stands_for_its_last_declaration, declares, silent};
use crate::laws::reading::{readable, valid_values};
use crate::laws::round_trip::{
    a_canonical_form_reads_back, child_text, declaring_name, joined, lemma_attributes_text_front,
    lemma_children_text_front, lemma_declaration_is_attribute, lemma_declarations_text_front,
    lemma_declared_once, lemma_escaped_text_of_two, normalized, normalized_among,
};
use crate::reader::read_document;
use crate::text::{lemma_position_of, position_of, split_once};
use crate::xml::{
    child_elements, pairs_view, prefix_of, Element, ElementModel, NodeModel, Pair,
};
use vstd::prelude::*;

verus! {

/// Whether a name is a prefix, a colon and a local part.
pub open spec fn parted(name: Seq<char>, prefix: Seq<char>, local: Seq<char>) -> bool {
    !prefix.contains(':') && name == prefix.push(':') + local
}

/// A name with a colon has one prefix and one local part.
proof fn lemma_parted(name: Seq<char>)
    ensures
        forall|prefix: Seq<char>, local: Seq<char>|
            split_once(name, ':') == Some((prefix, local)) <==> #[trigger] parted(
                name,
                prefix,
                local,
            ),
        split_once(name, ':') is None <==> !name.contains(':'),
{
    lemma_position_of(name, ':');
    if let Some(at) = position_of(name, ':') {
        assert(name[at as int] == ':');
        assert(name =~= name.take(at as int).push(':') + name.skip(at as int + 1));
    }
    assert forall|prefix: Seq<char>, local: Seq<char>| #[trigger]
        parted(name, prefix, local) implies split_once(name, ':') == Some((prefix, local)) by {
        assert(name[prefix.len() as int] == ':');
        assert(name.contains(':'));
        let at = position_of(name, ':')->0;
        if at < prefix.len() {
            assert(prefix[at as int] == name[at as int]);
            assert(prefix.contains(':'));
        } else if at > prefix.len() {
            assert(name.take(at as int)[prefix.len() as int] == ':');
        }
        assert(name.take(at as int) =~= prefix);
        assert(name.skip(at as int + 1) =~= local);
    }
}

/// Whether an element visibly uses a prefix: in its own name, or in the name of
/// one of its attributes. A name without a colon uses the empty prefix on an
/// element, and none on an attribute.
pub open spec fn visibly_uses(element: ElementModel, prefix: Seq<char>) -> bool {
    ||| exists|local: Seq<char>| #[trigger] parted(element.name, prefix, local)
    ||| !element.name.contains(':') && prefix.len() == 0
    ||| exists|i: int, local: Seq<char>|
        0 <= i < element.attributes.len() && #[trigger] parted(
            element.attributes[i].0,
            prefix,
            local,
        )
}

/// The prefixes used are those that are visibly used.
proof fn lemma_used(element: ElementModel, prefix: Seq<char>)
    ensures
        used_prefixes(element).contains(prefix) <==> visibly_uses(element, prefix),
{
    let used = used_prefixes(element);
    let others = attribute_prefixes(element.attributes);
    let own = prefix_of(element.name);
    lemma_parted(element.name);
    assert(used[0] == own);
    if used.contains(prefix) {
        let k = choose|k: int| 0 <= k < used.len() && used[k] == prefix;
        if k == 0 {
            if let Some((p, local)) = split_once(element.name, ':') {
                assert(parted(element.name, prefix, local));
            }
        } else {
            assert(others[k - 1] == prefix);
            let at = lemma_prefix_of_attribute(element.attributes, prefix);
            let name = element.attributes[at].0;
            lemma_parted(name);
            let (_, local) = split_once(name, ':')->Some_0;
            assert(parted(name, prefix, local));
        }
    }
    if visibly_uses(element, prefix) {
        if exists|local: Seq<char>| #[trigger] parted(element.name, prefix, local) {
            let local = choose|local: Seq<char>| #[trigger] parted(element.name, prefix, local);
            assert(split_once(element.name, ':') == Some((prefix, local)));
        } else if !element.name.contains(':') && prefix.len() == 0 {
            assert(prefix =~= own);
        } else {
            let (i, local) = choose|i: int, local: Seq<char>|
                0 <= i < element.attributes.len() && #[trigger] parted(
                    element.attributes[i].0,
                    prefix,
                    local,
                );
            lemma_parted(element.attributes[i].0);
            lemma_attribute_prefix_used(element.attributes, i);
            let k = choose|k: int| 0 <= k < others.len() && others[k] == prefix;
            assert(used[k + 1] == prefix);
        }
    }
}

/// The default namespace of a scope; nothing where there is none.
pub open spec fn default_of(scope: Seq<Pair>) -> Seq<char> {
    match namespace_of(scope, Seq::empty()) {
        Some(uri) => uri,
        None => Seq::empty(),
    }
}

/// Whether a prefix that stands for this in `scope` stands for something else in
/// what is `shown` already.
pub open spec fn not_yet_shown(
    scope: Seq<Pair>,
    shown: Seq<Pair>,
    prefix: Seq<char>,
    uri: Seq<char>,
) -> bool {
    if prefix.len() == 0 {
        uri == default_of(scope) && uri != default_of(shown)
    } else {
        namespace_of(scope, prefix) == Some(uri) && namespace_of(shown, prefix) != Some(uri)
    }
}

/// Whether the name of an attribute stands for this namespace and local name: its
/// prefix for what was declared of it last, the prefix `xml` for its own
/// namespace where it was not declared, and no prefix for none.
pub open spec fn expands_to(
    name: Seq<char>,
    scope: Seq<Pair>,
    uri: Seq<char>,
    local: Seq<char>,
) -> bool {
    ||| !name.contains(':') && uri.len() == 0 && local == name
    ||| exists|prefix: Seq<char>| #[trigger] parted(name, prefix, local) && (declares(
        scope,
        prefix,
        uri,
    ) || (silent(scope, prefix) && uri == if prefix == "xml"@ {
        "http://www.w3.org/XML/1998/namespace"@
    } else {
        Seq::<char>::empty()
    }))
}

/// A name stands for one namespace and one local name: those it is ordered by.
proof fn lemma_expansion(name: Seq<char>, scope: Seq<Pair>)
    ensures
        forall|uri: Seq<char>, local: Seq<char>| #[trigger]
            expands_to(name, scope, uri, local) <==> attribute_key(name, scope) == (uri, local),
{
    lemma_parted(name);
    if let Some((prefix, local)) = split_once(name, ':') {
        a_prefix_stands_for_its_last_declaration(scope, prefix);
        assert(parted(name, prefix, local));
        let (own, rest) = attribute_key(name, scope);
        assert(expands_to(name, scope, own, rest));
        assert forall|uri: Seq<char>, part: Seq<char>| #[trigger]
            expands_to(name, scope, uri, part) implies attribute_key(name, scope) == (uri, part) by {
            let p = choose|p: Seq<char>| #[trigger] parted(name, p, part) && (declares(
                scope,
                p,
                uri,
            ) || (silent(scope, p) && uri == if p == "xml"@ {
                "http://www.w3.org/XML/1998/namespace"@
            } else {
                Seq::<char>::empty()
            }));
            assert(p == prefix);
            if silent(scope, p) {
                if let Some(other) = namespace_of(scope, p) {
                    let i = choose|i: int|
                        0 <= i < scope.len() && #[trigger] scope[i] == (p, other);
                    assert(scope[i].0 != p);
                }
            }
        }
    } else {
        assert forall|uri: Seq<char>, part: Seq<char>| #[trigger]
            expands_to(name, scope, uri, part) implies attribute_key(name, scope) == (uri, part) by {
            assert(uri =~= Seq::empty());
        }
        assert(expands_to(name, scope, Seq::empty(), name));
    }
}

/// Whether attributes stand in order: by namespace, then by local name, each by
/// the codes of its characters.
pub open spec fn in_written_order(attributes: Seq<Pair>, scope: Seq<Pair>) -> bool {
    forall|i: int, j: int, uri: Seq<char>, local: Seq<char>, next: Seq<char>, part: Seq<char>|
        0 <= i < j < attributes.len() && #[trigger] expands_to(attributes[i].0, scope, uri, local)
            && #[trigger] expands_to(attributes[j].0, scope, next, part) ==> if uri != next {
            precedes(uri, next)
        } else {
            precedes(local, part)
        }
}

/// What children hold, in order: each character of their text, and a mark for
/// each element.
pub open spec fn marked(nodes: Seq<NodeModel>) -> Seq<Option<char>>
    decreases nodes.len(),
{
    if nodes.len() == 0 {
        Seq::empty()
    } else {
        (match nodes[0] {
            NodeModel::Element(_) => seq![None],
            NodeModel::Text(text) => text.map_values(|c: char| Some(c)),
        }) + marked(nodes.drop_first())
    }
}

/// Whether one element is what another is rendered as. The one is in the scope
/// `outside`, the other where the namespaces `shown` are declared already. The
/// name is the same. It declares a prefix exactly where that is visibly used and
/// would otherwise stand for something else, no prefix twice, and in order. It
/// has the same attributes, in order. Its text and its elements stand in the same
/// order, and its elements are what the elements are rendered as.
pub open spec fn renders(
    element: ElementModel,
    outside: Seq<Pair>,
    other: ElementModel,
    shown: Seq<Pair>,
) -> bool
    decreases element,
{
    let scope = declare_all(outside, element.namespaces);
    &&& other.name == element.name
    &&& forall|prefix: Seq<char>, uri: Seq<char>| #[trigger]
        other.namespaces.contains((prefix, uri)) <==> visibly_uses(element, prefix)
            && not_yet_shown(scope, shown, prefix, uri)
    &&& forall|i: int, j: int|
        0 <= i < j < other.namespaces.len() ==> (#[trigger] other.namespaces[i]).0 != (
        #[trigger] other.namespaces[j]).0 && precedes(other.namespaces[i].0, other.namespaces[j].0)
    &&& other.attributes.to_multiset() == element.attributes.to_multiset()
    &&& in_written_order(other.attributes, scope)
    &&& marked(other.children) == marked(element.children)
    &&& renders_among(
        element.children,
        scope,
        child_elements(other.children),
        declare_all(shown, other.namespaces),
    )
}

/// Whether these are what the elements among the children are rendered as.
pub open spec fn renders_among(
    nodes: Seq<NodeModel>,
    outside: Seq<Pair>,
    others: Seq<ElementModel>,
    shown: Seq<Pair>,
) -> bool
    decreases nodes,
{
    if nodes.len() == 0 {
        others.len() == 0
    } else {
        match nodes[0] {
            NodeModel::Element(element) => others.len() > 0 && renders(
                element,
                outside,
                others[0],
                shown,
            ) && renders_among(nodes.drop_first(), outside, others.drop_first(), shown),
            NodeModel::Text(_) => renders_among(nodes.drop_first(), outside, others, shown),
        }
    }
}

/// The marks of two runs of children are those of the one, then of the other.
proof fn lemma_marked_front(node: NodeModel, nodes: Seq<NodeModel>)
    ensures
        marked(seq![node] + nodes) == (match node {
            NodeModel::Element(_) => seq![None],
            NodeModel::Text(text) => text.map_values(|c: char| Some(c)),
        }) + marked(nodes),
{
    let all = seq![node] + nodes;
    assert(all[0] == node);
    assert(all.drop_first() =~= nodes);
}

/// Joining text to children puts its characters before theirs.
proof fn lemma_marked_joined(text: Seq<char>, nodes: Seq<NodeModel>)
    ensures
        marked(joined(text, nodes)) == text.map_values(|c: char| Some(c)) + marked(nodes),
        child_elements(joined(text, nodes)) == child_elements(nodes),
{
    let mark = |c: char| Some(c);
    if text.len() == 0 {
        assert(text.map_values(mark) + marked(nodes) =~= marked(nodes));
    } else if nodes.len() > 0 && nodes[0] is Text {
        let own = nodes[0]->Text_0;
        let rest = nodes.drop_first();
        lemma_marked_front(NodeModel::Text(text + own), rest);
        lemma_marked_front(nodes[0], rest);
        assert(nodes =~= seq![nodes[0]] + rest);
        assert((text + own).map_values(mark) =~= text.map_values(mark) + own.map_values(mark));
        assert(text.map_values(mark) + own.map_values(mark) + marked(rest) =~= text.map_values(mark)
            + (own.map_values(mark) + marked(rest)));
        elements_keep_their_order(seq![NodeModel::Text(text + own)], rest);
        elements_keep_their_order(seq![nodes[0]], rest);
    } else {
        lemma_marked_front(NodeModel::Text(text), nodes);
        elements_keep_their_order(seq![NodeModel::Text(text)], nodes);
        assert(child_elements(joined(text, nodes)) =~= child_elements(nodes));
    }
}

/// The normal form of an element is what it is rendered as.
proof fn lemma_renders(element: ElementModel, outside: Seq<Pair>, shown: Seq<Pair>)
    requires
        keys_distinct(shown, by_prefix()),
    ensures
        renders(element, outside, normalized(element, outside, shown), shown),
    decreases element,
{
    let scope = declare_all(outside, element.namespaces);
    let other = normalized(element, outside, shown);
    let declarations = rendered_declarations(element, outside, shown);
    assert forall|prefix: Seq<char>, uri: Seq<char>| #[trigger]
        declarations.contains((prefix, uri)) <==> visibly_uses(element, prefix) && not_yet_shown(
            scope,
            shown,
            prefix,
            uri,
        ) by {
        only_used_namespaces_are_declared(element, outside, shown, (prefix, uri));
        lemma_used(element, prefix);
        lemma_namespace_is_member(shown, prefix, uri);
        if prefix.len() == 0 {
            assert(prefix =~= Seq::empty());
            if uri.len() == 0 {
                assert(uri =~= Seq::empty());
            }
            if default_of(scope).len() == 0 {
                assert(default_of(scope) =~= Seq::empty());
            }
            if default_of(shown).len() == 0 {
                assert(default_of(shown) =~= Seq::empty());
            }
        }
    }
    declarations_are_in_order(element, outside, shown);
    assert forall|i: int, j: int| 0 <= i < j < declarations.len() implies (
    #[trigger] declarations[i]).0 != (#[trigger] declarations[j]).0 && precedes(
        declarations[i].0,
        declarations[j].0,
    ) by {
        assert(by_prefix()(declarations[i]) != by_prefix()(declarations[j]));
        strings_are_ordered_by_code_point(declarations[i].0, declarations[j].0);
    }
    let key = by_namespace(scope);
    let attributes = arranged(element.attributes, key);
    arranged_keeps_every_pair(element.attributes, key);
    arranged_is_in_order(element.attributes, key);
    assert forall|
        i: int,
        j: int,
        uri: Seq<char>,
        local: Seq<char>,
        next: Seq<char>,
        part: Seq<char>,
    |
        0 <= i < j < attributes.len() && #[trigger] expands_to(attributes[i].0, scope, uri, local)
            && #[trigger] expands_to(attributes[j].0, scope, next, part) implies if uri != next {
        precedes(uri, next)
    } else {
        precedes(local, part)
    } by {
        lemma_expansion(attributes[i].0, scope);
        lemma_expansion(attributes[j].0, scope);
        assert(key(attributes[i]) == (uri, local));
        assert(key(attributes[j]) == (next, part));
        strings_are_ordered_by_code_point(uri, next);
        strings_are_ordered_by_code_point(local, part);
    }
    lemma_declared_once(shown, declarations);
    lemma_renders_among(element.children, scope, declare_all(shown, declarations));
}

/// So it is with children.
proof fn lemma_renders_among(nodes: Seq<NodeModel>, outside: Seq<Pair>, shown: Seq<Pair>)
    requires
        keys_distinct(shown, by_prefix()),
    ensures
        marked(normalized_among(nodes, outside, shown)) == marked(nodes),
        renders_among(
            nodes,
            outside,
            child_elements(normalized_among(nodes, outside, shown)),
            shown,
        ),
    decreases nodes,
{
    if nodes.len() == 0 {
        assert(child_elements(Seq::<NodeModel>::empty()) =~= Seq::empty());
    } else {
        let rest = nodes.drop_first();
        let later = normalized_among(rest, outside, shown);
        lemma_renders_among(rest, outside, shown);
        assert(nodes =~= seq![nodes[0]] + rest);
        lemma_marked_front(nodes[0], rest);
        match nodes[0] {
            NodeModel::Element(element) => {
                lemma_renders(element, outside, shown);
                let other = normalized(element, outside, shown);
                let node = NodeModel::Element(other);
                lemma_marked_front(node, later);
                elements_keep_their_order(seq![node], later);
                let others = child_elements(seq![node] + later);
                assert(others[0] == other);
                assert(others.drop_first() =~= child_elements(later));
            },
            NodeModel::Text(text) => {
                lemma_marked_joined(text, later);
            },
        }
    }
}

/// Pairs laid out in a start tag: each after a blank, a name, an equals sign and
/// the value between quotation marks.
pub open spec fn laid_pairs(pairs: Seq<Pair>) -> Seq<char>
    decreases pairs.len(),
{
    if pairs.len() == 0 {
        Seq::empty()
    } else {
        " "@ + pairs[0].0 + "=\""@ + escaped_attribute(pairs[0].1) + "\""@ + laid_pairs(
            pairs.drop_first(),
        )
    }
}

/// Declarations as the attributes that make them: `xmlns`, and `xmlns:` before a
/// prefix.
pub open spec fn as_attributes(declarations: Seq<Pair>) -> Seq<Pair> {
    declarations.map_values(
        |declaration: Pair|
            (
                if declaration.0.len() == 0 {
                    "xmlns"@
                } else {
                    "xmlns:"@ + declaration.0
                },
                declaration.1,
            ),
    )
}

/// An element laid out: a start tag with its declarations and its attributes as
/// they stand, its children, and an end tag, whether it has children or not.
pub open spec fn laid_out(element: ElementModel) -> Seq<char>
    decreases element,
{
    "<"@ + element.name + laid_pairs(as_attributes(element.namespaces)) + laid_pairs(
        element.attributes,
    ) + ">"@ + laid_among(element.children) + "</"@ + element.name + ">"@
}

/// Children laid out, one after another.
pub open spec fn laid_among(nodes: Seq<NodeModel>) -> Seq<char>
    decreases nodes,
{
    if nodes.len() == 0 {
        Seq::empty()
    } else {
        (match nodes[0] {
            NodeModel::Element(element) => laid_out(element),
            NodeModel::Text(text) => escaped_text(text),
        }) + laid_among(nodes.drop_first())
    }
}

/// Attributes are written as they are laid out.
proof fn lemma_attributes_laid(attributes: Seq<Pair>)
    ensures
        attributes_text(attributes) == laid_pairs(attributes),
    decreases attributes.len(),
{
    if attributes.len() > 0 {
        lemma_attributes_text_front(attributes);
        lemma_attributes_laid(attributes.drop_first());
    }
}

/// Declarations are written as they are laid out.
proof fn lemma_declarations_laid(declarations: Seq<Pair>)
    ensures
        declarations_text(declarations) == laid_pairs(as_attributes(declarations)),
    decreases declarations.len(),
{
    if declarations.len() > 0 {
        let rest = declarations.drop_first();
        lemma_declarations_text_front(declarations);
        lemma_declarations_laid(rest);
        lemma_declaration_is_attribute(declarations[0]);
        let all = as_attributes(declarations);
        assert(all.drop_first() =~= as_attributes(rest));
        assert(all[0] == (declaring_name(declarations[0].0), declarations[0].1));
    }
}

/// An element is written as its normal form is laid out.
proof fn lemma_laid_out(element: ElementModel, outside: Seq<Pair>, shown: Seq<Pair>)
    ensures
        element_text(element, outside, shown) == laid_out(normalized(element, outside, shown)),
    decreases element,
{
    let scope = declare_all(outside, element.namespaces);
    let other = normalized(element, outside, shown);
    lemma_declarations_laid(other.namespaces);
    lemma_attributes_laid(other.attributes);
    let inner = declare_all(shown, other.namespaces);
    lemma_laid_among(element.children, scope, inner);
    assert(element_text(element, outside, shown) =~= laid_out(other));
}

/// So are children.
proof fn lemma_laid_among(nodes: Seq<NodeModel>, outside: Seq<Pair>, shown: Seq<Pair>)
    ensures
        children_text(nodes, outside, shown) == laid_among(
            normalized_among(nodes, outside, shown),
        ),
    decreases nodes,
{
    if nodes.len() > 0 {
        let rest = nodes.drop_first();
        let later = normalized_among(rest, outside, shown);
        lemma_children_text_front(nodes, outside, shown);
        lemma_laid_among(rest, outside, shown);
        match nodes[0] {
            NodeModel::Element(element) => {
                lemma_laid_out(element, outside, shown);
                let node = NodeModel::Element(normalized(element, outside, shown));
                let all = seq![node] + later;
                assert(all[0] == node);
                assert(all.drop_first() =~= later);
                assert(child_text(nodes[0], outside, shown) == laid_out(node->Element_0));
            },
            NodeModel::Text(text) => {
                lemma_laid_joined(text, later);
            },
        }
    }
}

/// Joined text is laid out before what follows it.
proof fn lemma_laid_joined(text: Seq<char>, nodes: Seq<NodeModel>)
    ensures
        laid_among(joined(text, nodes)) == escaped_text(text) + laid_among(nodes),
{
    let all = joined(text, nodes);
    if text.len() == 0 {
        assert(escaped_text(text) + laid_among(nodes) =~= laid_among(nodes));
    } else if nodes.len() > 0 && nodes[0] is Text {
        let own = nodes[0]->Text_0;
        lemma_escaped_text_of_two(text, own);
        assert(all.drop_first() =~= nodes.drop_first());
        assert(laid_among(all) =~= escaped_text(text) + (escaped_text(own) + laid_among(
            nodes.drop_first(),
        )));
    } else {
        assert(all.drop_first() =~= nodes);
    }
}

/// The canonical form of an element reads as what the element is rendered as, and
/// is that laid out.
pub proof fn a_canonical_form_says_what_the_element_is(
    element: ElementModel,
    in_scope: Seq<Pair>,
)
    requires
        readable(element),
        valid_values(in_scope),
    ensures
        read_document(canonical_form(element, in_scope)) matches Ok(other) && renders(
            element,
            in_scope,
            other,
            Seq::empty(),
        ) && canonical_form(element, in_scope) == laid_out(other),
{
    a_canonical_form_reads_back(element, in_scope);
    lemma_renders(element, in_scope, Seq::empty());
    lemma_laid_out(element, in_scope, Seq::empty());
}

/// Every canonical form, of whatever element, is that of something the element is
/// rendered as, laid out.
pub proof fn a_canonical_form_is_laid_out(element: ElementModel, in_scope: Seq<Pair>)
    ensures
        exists|other: ElementModel| #[trigger]
            renders(element, in_scope, other, Seq::empty()) && canonical_form(element, in_scope)
                == laid_out(other),
{
    lemma_renders(element, in_scope, Seq::empty());
    lemma_laid_out(element, in_scope, Seq::empty());
}

/// What `canonical` writes, `parse` reads as what the element is rendered as.
pub proof fn what_is_written_is_read(
    element: &Element,
    in_scope: &[(String, String)],
    form: String,
    text: &str,
    r: Result<Element, AuthenticateError>,
)
    requires
        call_ensures(Element::canonical, (element, in_scope), form),
        text@ == form@,
        call_ensures(Element::parse, (text,), r),
        readable(element@),
        valid_values(pairs_view(in_scope@)),
    ensures
        r matches Ok(other) && renders(
            element@,
            pairs_view(in_scope@),
            other@,
            Seq::empty(),
        ) && form@ == laid_out(other@),
{
    a_canonical_form_says_what_the_element_is(element@, pairs_view(in_scope@));
}

/// An element is written, where some namespaces are declared already, as something
/// it is rendered as there, laid out.
pub proof fn an_element_is_written_as_it_is_rendered(
    element: ElementModel,
    outside: Seq<Pair>,
    shown: Seq<Pair>,
)
    requires
        forall|i: int, j: int|
            0 <= i < j < shown.len() ==> (#[trigger] shown[i]).0 != (#[trigger] shown[j]).0,
    ensures
        exists|other: ElementModel| #[trigger]
            renders(element, outside, other, shown) && element_text(element, outside, shown)
                == laid_out(other),
{
    assert forall|i: int, j: int| 0 <= i < j < shown.len() implies by_prefix()(#[trigger] shown[i])
        != by_prefix()(#[trigger] shown[j]) by {
        assert(shown[i].0 != shown[j].0);
    }
    lemma_renders(element, outside, shown);
    lemma_laid_out(element, outside, shown);
}

} // verus!
