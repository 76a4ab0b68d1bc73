//! Laws of the characters: what is written holds none that XML does not allow.

use crate::c14n::{
    arranged, attribute_escape, attribute_text, attributes_text, by_namespace, canonical_form,
    children_text, declaration_text, declarations_text, declare, declare_all, element_text, end_tag,
    escaped_attribute, escaped_text, namespace_of, rendered_declarations, start_tag, text_escape,
};
use crate::laws::reading::{readable, readable_among, valid_attributes, valid_name, valid_values};
use crate::laws::round_trip::{lemma_tag_valid, valid_prefixes};
use crate::reader::{all_allowed, continues_name, is_allowed};
use crate::xml::{ElementModel, NodeModel, Pair};
use vstd::prelude::*;

verus! {

/// XML allows the characters of two texts, and so those of the two joined.
proof fn lemma_both(a: Seq<char>, b: Seq<char>)
    requires
        all_allowed(a),
        all_allowed(b),
    ensures
        all_allowed(a + b),
{
}

/// XML allows the characters of a valid name.
proof fn lemma_name_allowed(name: Seq<char>)
    requires
        valid_name(name),
    ensures
        all_allowed(name),
{
}

/// XML allows the characters that text is written with.
proof fn lemma_text_allowed(text: Seq<char>)
    requires
        all_allowed(text),
    ensures
        all_allowed(escaped_text(text)),
    decreases text.len(),
{
    reveal_strlit("&amp;");
    reveal_strlit("&lt;");
    reveal_strlit("&gt;");
    reveal_strlit("&#xD;");
    if text.len() > 0 {
        lemma_text_allowed(text.drop_last());
        assert(all_allowed(text_escape(text.last())));
        lemma_both(escaped_text(text.drop_last()), text_escape(text.last()));
    }
}

/// XML allows the characters that an attribute value is written with.
proof fn lemma_value_allowed(value: Seq<char>)
    requires
        all_allowed(value),
    ensures
        all_allowed(escaped_attribute(value)),
    decreases value.len(),
{
    reveal_strlit("&amp;");
    reveal_strlit("&lt;");
    reveal_strlit("&quot;");
    reveal_strlit("&#x9;");
    reveal_strlit("&#xA;");
    reveal_strlit("&#xD;");
    if value.len() > 0 {
        lemma_value_allowed(value.drop_last());
        assert(all_allowed(attribute_escape(value.last())));
        lemma_both(escaped_attribute(value.drop_last()), attribute_escape(value.last()));
    }
}

/// XML allows the characters that declarations are written with.
proof fn lemma_declarations_allowed(declarations: Seq<Pair>)
    requires
        valid_prefixes(declarations),
        valid_values(declarations),
    ensures
        all_allowed(declarations_text(declarations)),
    decreases declarations.len(),
{
    reveal_strlit(" xmlns=\"");
    reveal_strlit(" xmlns:");
    reveal_strlit("=\"");
    reveal_strlit("\"");
    if declarations.len() > 0 {
        let before = declarations.drop_last();
        let last = declarations[declarations.len() - 1];
        assert forall|i: int| 0 <= i < before.len() implies all_allowed((#[trigger] before[i]).1) by {
            assert(before[i] == declarations[i]);
        }
        lemma_declarations_allowed(before);
        lemma_value_allowed(last.1);
        assert(all_allowed(last.0)) by {
            assert forall|j: int| 0 <= j < last.0.len() implies is_allowed(
                #[trigger] last.0[j],
            ) by {
                assert(continues_name(
                    declarations[declarations.len() - 1].0[j],
                ));
            }
        }
        assert(all_allowed(" xmlns:"@));
        assert(all_allowed("=\""@));
        assert(all_allowed(" xmlns=\""@));
        assert(all_allowed("\""@));
        lemma_both(" xmlns:"@, last.0);
        lemma_both(" xmlns:"@ + last.0, "=\""@);
        lemma_both(" xmlns:"@ + last.0 + "=\""@, escaped_attribute(last.1));
        lemma_both(" xmlns:"@ + last.0 + "=\""@ + escaped_attribute(last.1), "\""@);
        lemma_both(" xmlns=\""@, escaped_attribute(last.1));
        lemma_both(" xmlns=\""@ + escaped_attribute(last.1), "\""@);
        lemma_both(declarations_text(before), declaration_text(last));
    }
}

/// XML allows the characters that attributes are written with.
proof fn lemma_attributes_allowed(attributes: Seq<Pair>)
    requires
        valid_attributes(attributes),
        valid_values(attributes),
    ensures
        all_allowed(attributes_text(attributes)),
    decreases attributes.len(),
{
    reveal_strlit(" ");
    reveal_strlit("=\"");
    reveal_strlit("\"");
    if attributes.len() > 0 {
        let before = attributes.drop_last();
        let last = attributes[attributes.len() - 1];
        lemma_attributes_allowed(before);
        lemma_name_allowed(last.0);
        lemma_value_allowed(last.1);
        assert(all_allowed(" "@));
        assert(all_allowed("=\""@));
        assert(all_allowed("\""@));
        lemma_both(" "@, last.0);
        lemma_both(" "@ + last.0, "=\""@);
        lemma_both(" "@ + last.0 + "=\""@, escaped_attribute(last.1));
        lemma_both(" "@ + last.0 + "=\""@ + escaped_attribute(last.1), "\""@);
        lemma_both(attributes_text(before), attribute_text(last));
    }
}

/// What a prefix stands for in a scope of valid values is valid.
pub proof fn lemma_namespace_allowed(scope: Seq<Pair>, prefix: Seq<char>)
    requires
        valid_values(scope),
    ensures
        namespace_of(scope, prefix) matches Some(uri) ==> all_allowed(uri),
    decreases scope.len(),
{
    if scope.len() > 0 {
        let before = scope.drop_last();
        assert forall|i: int| 0 <= i < before.len() implies all_allowed((#[trigger] before[i]).1) by {
            assert(before[i] == scope[i]);
        }
        lemma_namespace_allowed(before, prefix);
        assert(all_allowed(scope[scope.len() - 1].1));
    }
}

/// A scope of valid values stays so with declarations of valid values made in it.
pub proof fn lemma_scope_allowed(scope: Seq<Pair>, declarations: Seq<Pair>)
    requires
        valid_values(scope),
        valid_values(declarations),
    ensures
        valid_values(declare_all(scope, declarations)),
    decreases declarations.len(),
{
    if declarations.len() > 0 {
        let before = declarations.drop_last();
        let last = declarations[declarations.len() - 1];
        assert forall|i: int| 0 <= i < before.len() implies all_allowed((#[trigger] before[i]).1) by {
            assert(before[i] == declarations[i]);
        }
        lemma_scope_allowed(scope, before);
        let made = declare_all(scope, before);
        let p = |known: Pair| known.0 != last.0;
        let all = declare(made, last);
        assert(all == made.filter(p).push(last));
        assert forall|i: int| 0 <= i < all.len() implies all_allowed((#[trigger] all[i]).1) by {
            if i < all.len() - 1 {
                let kept = made.filter(p);
                assert(kept.contains(kept[i]));
                made.lemma_filter_contains_rev(p, kept[i]);
                let k = choose|k: int| 0 <= k < made.len() && made[k] == kept[i];
                assert(all_allowed(made[k].1));
            }
        }
    }
}

/// XML allows the characters that a readable element is written with.
proof fn lemma_element_allowed(element: ElementModel, inherited: Seq<Pair>, rendered: Seq<Pair>)
    requires
        readable(element),
        valid_values(inherited),
    ensures
        all_allowed(element_text(element, inherited, rendered)),
    decreases element,
{
    reveal_strlit("<");
    reveal_strlit("</");
    reveal_strlit(">");
    let name = element.name;
    let scope = declare_all(inherited, element.namespaces);
    let declarations = rendered_declarations(element, inherited, rendered);
    let attributes = arranged(element.attributes, by_namespace(scope));
    let shown = declare_all(rendered, declarations);
    lemma_tag_valid(element, inherited, rendered);
    lemma_scope_allowed(inherited, element.namespaces);
    lemma_name_allowed(name);
    lemma_declarations_allowed(declarations);
    lemma_attributes_allowed(attributes);
    lemma_children_allowed(element.children, scope, shown);
    assert(all_allowed("<"@));
    assert(all_allowed("</"@));
    assert(all_allowed(">"@));
    let tag = start_tag(element, inherited, rendered);
    let inside = children_text(element.children, scope, shown);
    lemma_both("<"@, name);
    lemma_both("<"@ + name, declarations_text(declarations));
    lemma_both("<"@ + name + declarations_text(declarations), attributes_text(attributes));
    lemma_both(
        "<"@ + name + declarations_text(declarations) + attributes_text(attributes),
        ">"@,
    );
    lemma_both("</"@, name);
    lemma_both("</"@ + name, ">"@);
    lemma_both(tag, inside);
    lemma_both(tag + inside, end_tag(element));
}

/// XML allows the characters that readable children are written with.
proof fn lemma_children_allowed(nodes: Seq<NodeModel>, inherited: Seq<Pair>, rendered: Seq<Pair>)
    requires
        readable_among(nodes),
        valid_values(inherited),
    ensures
        all_allowed(children_text(nodes, inherited, rendered)),
    decreases nodes,
{
    if nodes.len() > 0 {
        lemma_readable_last(nodes);
        let before = children_text(nodes.drop_last(), inherited, rendered);
        lemma_children_allowed(nodes.drop_last(), inherited, rendered);
        match nodes.last() {
            NodeModel::Element(element) => {
                lemma_element_allowed(element, inherited, rendered);
                lemma_both(before, element_text(element, inherited, rendered));
            },
            NodeModel::Text(text) => {
                lemma_text_allowed(text);
                lemma_both(before, escaped_text(text));
            },
        }
    }
}

/// Of readable children, the last is readable, and so are those before it.
proof fn lemma_readable_last(nodes: Seq<NodeModel>)
    requires
        readable_among(nodes),
        nodes.len() > 0,
    ensures
        readable_among(nodes.drop_last()),
        match nodes.last() {
            NodeModel::Element(element) => readable(element),
            NodeModel::Text(text) => all_allowed(text),
        },
    decreases nodes.len(),
{
    let rest = nodes.drop_first();
    if rest.len() > 0 {
        lemma_readable_last(rest);
        let before = nodes.drop_last();
        assert(before.drop_first() =~= rest.drop_last());
        assert(before[0] == nodes[0]);
    } else {
        assert(nodes.drop_last() =~= Seq::empty());
    }
}

/// XML allows every character of the canonical form of a readable element.
pub proof fn a_canonical_form_holds_what_xml_allows(element: ElementModel, in_scope: Seq<Pair>)
    requires
        readable(element),
        valid_values(in_scope),
    ensures
        all_allowed(canonical_form(element, in_scope)),
{
    lemma_element_allowed(element, in_scope, Seq::empty());
}

} // verus!
