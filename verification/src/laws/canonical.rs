//! Laws of the canonical form: which namespaces it declares, and what makes no
//! difference to it.

use crate::c14n::{
    arranged, attribute_key, attribute_prefixes, by_namespace, by_prefix, called_for,
    called_for_by, children_text, declare, declare_all, default_rendered, element_text, names,
    namespace_of, placed, rendered_declarations, stands_for_none, used_prefixes,
};
use crate::laws::ordering::{
    arranged_is_in_order, arranged_keeps_every_pair, arranging_forgets_the_order, in_order,
    keys_distinct, lemma_distinct_arranged, lemma_order_by_members,
};
use crate::text::split_once;
use crate::xml::{ElementModel, NodeModel, Pair};
use vstd::prelude::*;

verus! {

/// Whether the use of a prefix calls for a declaration. The prefix is used, and
/// either it stands for the namespace in the scope and no ancestor rendered the
/// declaration; or the declaration is the empty default, no default namespace is
/// in scope, and ancestors rendered one.
pub open spec fn calls_for(
    used: Seq<Seq<char>>,
    scope: Seq<Pair>,
    rendered: Seq<Pair>,
    declaration: Pair,
) -> bool {
    &&& used.contains(declaration.0)
    &&& if declaration.0.len() == 0 && declaration.1.len() == 0 {
        stands_for_none(declaration.0, scope) && default_rendered(rendered)
    } else {
        namespace_of(scope, declaration.0) == Some(declaration.1) && !rendered.contains(declaration)
    }
}

/// The declarations the use of prefixes calls for are all there, and no others.
proof fn lemma_called_for(
    used: Seq<Seq<char>>,
    scope: Seq<Pair>,
    rendered: Seq<Pair>,
    declaration: Pair,
)
    ensures
        called_for(used, scope, rendered).contains(declaration) <==> calls_for(
            used,
            scope,
            rendered,
            declaration,
        ),
    decreases used.len(),
{
    let all = called_for(used, scope, rendered);
    if used.len() > 0 {
        let rest = used.drop_last();
        let before = called_for(rest, scope, rendered);
        let prefix = used.last();
        lemma_called_for(rest, scope, rendered, declaration);
        assert(used.contains(prefix));
        assert(used.contains(declaration.0) <==> rest.contains(declaration.0) || declaration.0
            == prefix) by {
            if rest.contains(declaration.0) {
                let i = choose|i: int| 0 <= i < rest.len() && rest[i] == declaration.0;
                assert(used[i] == declaration.0);
            }
            if used.contains(declaration.0) && declaration.0 != prefix {
                let i = choose|i: int| 0 <= i < used.len() && used[i] == declaration.0;
                assert(rest[i] == declaration.0);
            }
        }
        if let Some(own) = called_for_by(prefix, scope, rendered) {
            assert(own.0 == prefix);
            assert(declaration == own <==> calls_for(used, scope, rendered, declaration)
                && declaration.0 == prefix) by {
                if prefix.len() == 0 && declaration.0 == prefix && declaration.1.len() == 0 {
                    assert(declaration.1 =~= Seq::empty());
                }
            }
            if names(before, prefix) {
                let i = choose|i: int| 0 <= i < before.len() && (#[trigger] before[i]).0 == prefix;
                lemma_called_for(rest, scope, rendered, before[i]);
                assert(before.contains(before[i]));
                if before[i].1.len() == 0 {
                    assert(before[i].1 =~= Seq::empty());
                }
                assert(before[i] == own);
            } else {
                assert(all[before.len() as int] == own);
                if before.contains(declaration) {
                    let i = choose|i: int| 0 <= i < before.len() && before[i] == declaration;
                    assert(all[i] == declaration);
                }
            }
        }
    }
}

/// No prefix is declared twice.
proof fn lemma_called_for_once(used: Seq<Seq<char>>, scope: Seq<Pair>, rendered: Seq<Pair>)
    ensures
        keys_distinct(called_for(used, scope, rendered), by_prefix()),
    decreases used.len(),
{
    if used.len() > 0 {
        let before = called_for(used.drop_last(), scope, rendered);
        let all = called_for(used, scope, rendered);
        lemma_called_for_once(used.drop_last(), scope, rendered);
        assert forall|i: int, j: int| 0 <= i < j < all.len() implies by_prefix()(#[trigger] all[i])
            != by_prefix()(#[trigger] all[j]) by {
            if j < before.len() {
                assert(by_prefix()(before[i]) != by_prefix()(before[j]));
            } else {
                assert(all[i] == before[i]);
                assert(before[i].0 != all[j].0);
            }
        }
    }
}

/// Arranging keeps which pairs there are.
pub proof fn lemma_arranged_contains(pairs: Seq<Pair>, key: spec_fn(Pair) -> Pair, pair: Pair)
    ensures
        arranged(pairs, key).contains(pair) <==> pairs.contains(pair),
{
    broadcast use vstd::seq_lib::group_to_multiset_ensures;

    arranged_keeps_every_pair(pairs, key);
    vstd::seq_lib::to_multiset_contains(pairs, pair);
    vstd::seq_lib::to_multiset_contains(arranged(pairs, key), pair);
}

/// An element renders exactly the declarations its visible use calls for: of the
/// prefixes it uses, those that stand for a namespace, unless an ancestor
/// rendered the same; and the empty default where it uses that and an ancestor
/// rendered another.
pub proof fn only_used_namespaces_are_declared(
    element: ElementModel,
    inherited: Seq<Pair>,
    rendered: Seq<Pair>,
    declaration: Pair,
)
    ensures
        rendered_declarations(element, inherited, rendered).contains(declaration) <==> calls_for(
            used_prefixes(element),
            declare_all(inherited, element.namespaces),
            rendered,
            declaration,
        ),
{
    let scope = declare_all(inherited, element.namespaces);
    lemma_called_for(used_prefixes(element), scope, rendered, declaration);
    lemma_arranged_contains(
        called_for(used_prefixes(element), scope, rendered),
        by_prefix(),
        declaration,
    );
}

/// The declarations an element renders stand in the order of their prefixes, no
/// prefix twice.
pub proof fn declarations_are_in_order(
    element: ElementModel,
    inherited: Seq<Pair>,
    rendered: Seq<Pair>,
)
    ensures
        in_order(rendered_declarations(element, inherited, rendered), by_prefix()),
        keys_distinct(rendered_declarations(element, inherited, rendered), by_prefix()),
{
    let scope = declare_all(inherited, element.namespaces);
    let all = called_for(used_prefixes(element), scope, rendered);
    lemma_called_for_once(used_prefixes(element), scope, rendered);
    arranged_is_in_order(all, by_prefix());
    lemma_distinct_arranged(all, by_prefix());
}

/// Taking a prefix out of a scope leaves every other prefix as it was.
proof fn lemma_namespace_filtered(scope: Seq<Pair>, gone: Seq<char>, prefix: Seq<char>)
    ensures
        namespace_of(scope.filter(|known: Pair| known.0 != gone), prefix) == if prefix == gone {
            None
        } else {
            namespace_of(scope, prefix)
        },
    decreases scope.len(),
{
    reveal(Seq::filter);
    let p = |known: Pair| known.0 != gone;
    if scope.len() > 0 {
        lemma_namespace_filtered(scope.drop_last(), gone, prefix);
        if p(scope.last()) {
            let before = scope.drop_last().filter(p);
            assert(before.push(scope.last()).drop_last() =~= before);
        }
    }
}

/// A declaration is what its prefix stands for, and leaves every other prefix as
/// it was.
pub proof fn a_declaration_is_what_its_prefix_stands_for(
    scope: Seq<Pair>,
    declaration: Pair,
    prefix: Seq<char>,
)
    ensures
        namespace_of(declare(scope, declaration), prefix) == if prefix == declaration.0 {
            Some(declaration.1)
        } else {
            namespace_of(scope, prefix)
        },
{
    let gone = declaration.0;
    lemma_namespace_filtered(scope, gone, prefix);
    assert((|known: Pair| known.0 != gone) =~= (|known: Pair| known.0 != declaration.0));
    let kept = scope.filter(|known: Pair| known.0 != declaration.0);
    assert(kept.push(declaration).drop_last() =~= kept);
}

/// Of declarations, the last of a prefix is what it stands for; a prefix none of
/// them declares stands for what it did.
pub proof fn the_last_declaration_counts(
    scope: Seq<Pair>,
    declarations: Seq<Pair>,
    prefix: Seq<char>,
)
    ensures
        namespace_of(declare_all(scope, declarations), prefix) == match namespace_of(
            declarations,
            prefix,
        ) {
            Some(uri) => Some(uri),
            None => namespace_of(scope, prefix),
        },
    decreases declarations.len(),
{
    if declarations.len() > 0 {
        the_last_declaration_counts(scope, declarations.drop_last(), prefix);
        a_declaration_is_what_its_prefix_stands_for(
            declare_all(scope, declarations.drop_last()),
            declarations.last(),
            prefix,
        );
    }
}

/// Whether an element or one below it visibly uses the prefix.
pub open spec fn uses(element: ElementModel, prefix: Seq<char>) -> bool
    decreases element,
{
    used_prefixes(element).contains(prefix) || uses_among(element.children, prefix)
}

/// Whether one of these children or one below them visibly uses the prefix.
pub open spec fn uses_among(nodes: Seq<NodeModel>, prefix: Seq<char>) -> bool
    decreases nodes,
{
    if nodes.len() == 0 {
        false
    } else {
        uses_among(nodes.drop_last(), prefix) || match nodes.last() {
            NodeModel::Element(element) => uses(element, prefix),
            NodeModel::Text(_) => false,
        }
    }
}

/// Scopes that agree on the prefixes used call for the same declarations.
proof fn lemma_called_for_agrees(
    used: Seq<Seq<char>>,
    one: Seq<Pair>,
    other: Seq<Pair>,
    rendered: Seq<Pair>,
)
    requires
        forall|i: int|
            0 <= i < used.len() ==> namespace_of(one, #[trigger] used[i]) == namespace_of(
                other,
                used[i],
            ),
    ensures
        called_for(used, one, rendered) == called_for(used, other, rendered),
    decreases used.len(),
{
    if used.len() > 0 {
        let rest = used.drop_last();
        assert forall|i: int| 0 <= i < rest.len() implies namespace_of(one, #[trigger] rest[i])
            == namespace_of(other, rest[i]) by {
            assert(rest[i] == used[i]);
        }
        lemma_called_for_agrees(rest, one, other, rendered);
        assert(used.last() == used[used.len() - 1]);
    }
}

/// Keys that agree on the pairs arrange them alike.
pub proof fn lemma_arranged_agrees(
    pairs: Seq<Pair>,
    one: spec_fn(Pair) -> Pair,
    other: spec_fn(Pair) -> Pair,
)
    requires
        forall|i: int| 0 <= i < pairs.len() ==> one(#[trigger] pairs[i]) == other(pairs[i]),
    ensures
        arranged(pairs, one) == arranged(pairs, other),
    decreases pairs.len(),
{
    if pairs.len() > 0 {
        let before = pairs.drop_last();
        assert forall|i: int| 0 <= i < before.len() implies one(#[trigger] before[i]) == other(
            before[i],
        ) by {
            assert(before[i] == pairs[i]);
        }
        lemma_arranged_agrees(before, one, other);
        let sorted = arranged(before, one);
        assert forall|i: int| 0 <= i < sorted.len() implies one(#[trigger] sorted[i]) == other(
            sorted[i],
        ) by {
            assert(sorted.contains(sorted[i]));
            lemma_arranged_contains(before, one, sorted[i]);
            let k = choose|k: int| 0 <= k < before.len() && before[k] == sorted[i];
            assert(one(before[k]) == other(before[k]));
        }
        assert(one(pairs[pairs.len() - 1]) == other(pairs[pairs.len() - 1]));
        lemma_placed_agrees(sorted, pairs.last(), one, other);
    }
}

/// Keys that agree on the pairs place one alike.
proof fn lemma_placed_agrees(
    sorted: Seq<Pair>,
    pair: Pair,
    one: spec_fn(Pair) -> Pair,
    other: spec_fn(Pair) -> Pair,
)
    requires
        one(pair) == other(pair),
        forall|i: int| 0 <= i < sorted.len() ==> one(#[trigger] sorted[i]) == other(sorted[i]),
    ensures
        placed(sorted, pair, one) == placed(sorted, pair, other),
    decreases sorted.len(),
{
    if sorted.len() > 0 {
        assert(one(sorted[sorted.len() - 1]) == other(sorted[sorted.len() - 1]));
        let before = sorted.drop_last();
        assert forall|i: int| 0 <= i < before.len() implies one(#[trigger] before[i]) == other(
            before[i],
        ) by {
            assert(before[i] == sorted[i]);
        }
        lemma_placed_agrees(before, pair, one, other);
    }
}

/// The prefix of an attribute is among those its element uses.
pub proof fn lemma_attribute_prefix_used(attributes: Seq<Pair>, i: int)
    requires
        0 <= i < attributes.len(),
    ensures
        split_once(attributes[i].0, ':') matches Some((prefix, _)) ==> attribute_prefixes(
            attributes,
        ).contains(prefix),
    decreases attributes.len(),
{
    let before = attribute_prefixes(attributes.drop_last());
    let all = attribute_prefixes(attributes);
    if i < attributes.len() - 1 {
        lemma_attribute_prefix_used(attributes.drop_last(), i);
        if let Some((prefix, _)) = split_once(attributes[i].0, ':') {
            let k = choose|k: int| 0 <= k < before.len() && before[k] == prefix;
            assert(all[k] == prefix);
        }
    } else {
        if let Some((prefix, _)) = split_once(attributes[i].0, ':') {
            assert(all[before.len() as int] == prefix);
        }
    }
}

/// Attributes are arranged alike in scopes that agree on the prefixes used.
proof fn lemma_attributes_agree(element: ElementModel, one: Seq<Pair>, other: Seq<Pair>)
    requires
        forall|prefix: Seq<char>|
            used_prefixes(element).contains(prefix) ==> namespace_of(one, prefix) == namespace_of(
                other,
                prefix,
            ),
    ensures
        arranged(element.attributes, by_namespace(one)) == arranged(
            element.attributes,
            by_namespace(other),
        ),
{
    let attributes = element.attributes;
    assert forall|i: int| 0 <= i < attributes.len() implies by_namespace(one)(
        #[trigger] attributes[i],
    ) == by_namespace(other)(attributes[i]) by {
        lemma_attribute_prefix_used(attributes, i);
        if let Some((prefix, _)) = split_once(attributes[i].0, ':') {
            let others = attribute_prefixes(attributes);
            let k = choose|k: int| 0 <= k < others.len() && others[k] == prefix;
            assert(used_prefixes(element)[k + 1] == prefix);
        }
    }
    lemma_arranged_agrees(attributes, by_namespace(one), by_namespace(other));
}

/// The canonical form is exclusive: scopes that agree on the prefixes visibly
/// used in an element, or below it, give it the same form, whatever else they
/// declare.
pub proof fn unused_namespaces_make_no_difference(
    element: ElementModel,
    one: Seq<Pair>,
    other: Seq<Pair>,
    rendered: Seq<Pair>,
)
    requires
        forall|prefix: Seq<char>| #[trigger]
            uses(element, prefix) ==> namespace_of(one, prefix) == namespace_of(other, prefix),
    ensures
        element_text(element, one, rendered) == element_text(element, other, rendered),
    decreases element,
{
    let first = declare_all(one, element.namespaces);
    let second = declare_all(other, element.namespaces);
    let used = used_prefixes(element);
    assert forall|prefix: Seq<char>| #[trigger] uses(element, prefix) implies namespace_of(
        first,
        prefix,
    ) == namespace_of(second, prefix) by {
        the_last_declaration_counts(one, element.namespaces, prefix);
        the_last_declaration_counts(other, element.namespaces, prefix);
    }
    assert forall|prefix: Seq<char>| used.contains(prefix) implies namespace_of(first, prefix)
        == namespace_of(second, prefix) by {
        assert(uses(element, prefix));
    }
    assert forall|i: int| 0 <= i < used.len() implies namespace_of(first, #[trigger] used[i])
        == namespace_of(second, used[i]) by {
        assert(used.contains(used[i]));
    }
    lemma_called_for_agrees(used, first, second, rendered);
    lemma_attributes_agree(element, first, second);
    let shown = declare_all(rendered, rendered_declarations(element, one, rendered));
    assert forall|prefix: Seq<char>| #[trigger] uses_among(
        element.children,
        prefix,
    ) implies namespace_of(first, prefix) == namespace_of(second, prefix) by {
        assert(uses(element, prefix));
    }
    lemma_children_agree(element.children, first, second, shown);
}

/// Children have the same form in scopes that agree on the prefixes used in them.
proof fn lemma_children_agree(
    nodes: Seq<NodeModel>,
    one: Seq<Pair>,
    other: Seq<Pair>,
    rendered: Seq<Pair>,
)
    requires
        forall|prefix: Seq<char>| #[trigger]
            uses_among(nodes, prefix) ==> namespace_of(one, prefix) == namespace_of(other, prefix),
    ensures
        children_text(nodes, one, rendered) == children_text(nodes, other, rendered),
    decreases nodes,
{
    if nodes.len() > 0 {
        assert forall|prefix: Seq<char>| #[trigger] uses_among(
            nodes.drop_last(),
            prefix,
        ) implies namespace_of(one, prefix) == namespace_of(other, prefix) by {
            assert(uses_among(nodes, prefix));
        }
        lemma_children_agree(nodes.drop_last(), one, other, rendered);
        if let NodeModel::Element(element) = nodes.last() {
            assert forall|prefix: Seq<char>| #[trigger] uses(element, prefix) implies namespace_of(
                one,
                prefix,
            ) == namespace_of(other, prefix) by {
                assert(uses_among(nodes, prefix));
            }
            unused_namespaces_make_no_difference(element, one, other, rendered);
        }
    }
}

/// Whether two scopes agree on what every prefix stands for.
pub open spec fn same_scope(one: Seq<Pair>, other: Seq<Pair>) -> bool {
    forall|prefix: Seq<char>| #[trigger]
        namespace_of(one, prefix) == namespace_of(other, prefix)
}

/// Whether two runs of pairs are the same, or the same in another order, with no
/// two of the same key.
pub open spec fn reordered(a: Seq<Pair>, b: Seq<Pair>, key: spec_fn(Pair) -> Pair) -> bool {
    a == b || (a.to_multiset() == b.to_multiset() && keys_distinct(a, key))
}

/// Whether two elements differ in nothing but the order of their declarations
/// and of their attributes, and so below them: where declarations stand in
/// another order no prefix is declared twice, and where attributes do no two are
/// the same name in the same namespace.
pub open spec fn alike(a: ElementModel, b: ElementModel, inherited: Seq<Pair>) -> bool
    decreases a,
{
    let scope = declare_all(inherited, a.namespaces);
    &&& a.name == b.name
    &&& reordered(a.namespaces, b.namespaces, by_prefix())
    &&& reordered(a.attributes, b.attributes, by_namespace(scope))
    &&& alike_among(a.children, b.children, scope)
}

/// Whether two runs of children are the same, or differ in nothing but those
/// orders.
pub open spec fn alike_among(a: Seq<NodeModel>, b: Seq<NodeModel>, inherited: Seq<Pair>) -> bool
    decreases a,
{
    if a == b {
        true
    } else if a.len() == 0 {
        false
    } else {
        &&& b.len() > 0
        &&& alike_among(a.drop_last(), b.drop_last(), inherited)
        &&& match (a.last(), b.last()) {
            (NodeModel::Element(one), NodeModel::Element(other)) => one == other || alike(
                one,
                other,
                inherited,
            ),
            (NodeModel::Text(one), NodeModel::Text(other)) => one == other,
            _ => false,
        }
    }
}

/// Where no prefix is declared twice, what one stands for is the declaration of
/// it.
pub proof fn lemma_namespace_is_member(declarations: Seq<Pair>, prefix: Seq<char>, uri: Seq<char>)
    requires
        keys_distinct(declarations, by_prefix()),
    ensures
        namespace_of(declarations, prefix) == Some(uri) <==> declarations.contains((prefix, uri)),
    decreases declarations.len(),
{
    if declarations.len() > 0 {
        let before = declarations.drop_last();
        let last = declarations.last();
        assert forall|i: int, j: int| 0 <= i < j < before.len() implies by_prefix()(
            #[trigger] before[i],
        ) != by_prefix()(#[trigger] before[j]) by {
            assert(by_prefix()(declarations[i]) != by_prefix()(declarations[j]));
        }
        lemma_namespace_is_member(before, prefix, uri);
        if declarations.contains((prefix, uri)) {
            let k = choose|k: int| 0 <= k < declarations.len() && declarations[k] == (prefix, uri);
            if k < before.len() {
                assert(before[k] == (prefix, uri));
                assert(by_prefix()(declarations[k]) != by_prefix()(
                    declarations[declarations.len() - 1],
                ));
            }
        }
        if before.contains((prefix, uri)) {
            let k = choose|k: int| 0 <= k < before.len() && before[k] == (prefix, uri);
            assert(declarations[k] == (prefix, uri));
        }
        if last == (prefix, uri) {
            assert(declarations[declarations.len() - 1] == (prefix, uri));
        }
    }
}

/// Of the same pairs in another order, no two have the same key either.
pub proof fn lemma_distinct_reordered(a: Seq<Pair>, b: Seq<Pair>, key: spec_fn(Pair) -> Pair)
    requires
        a.to_multiset() == b.to_multiset(),
        keys_distinct(a, key),
    ensures
        keys_distinct(b, key),
{
    broadcast use vstd::seq_lib::group_to_multiset_ensures;

    assert forall|i: int, j: int| 0 <= i < j < b.len() implies key(#[trigger] b[i]) != key(
        #[trigger] b[j],
    ) by {
        vstd::seq_lib::to_multiset_contains(a, b[i]);
        vstd::seq_lib::to_multiset_contains(a, b[j]);
        vstd::seq_lib::to_multiset_contains(b, b[i]);
        vstd::seq_lib::to_multiset_contains(b, b[j]);
        assert(b.contains(b[i]) && b.contains(b[j]));
        let k = choose|k: int| 0 <= k < a.len() && a[k] == b[i];
        let l = choose|l: int| 0 <= l < a.len() && a[l] == b[j];
        if k == l {
            lemma_counted_twice(b, i, j);
            lemma_counted_once(a, k, key);
        } else if k < l {
            assert(key(a[k]) != key(a[l]));
        } else {
            assert(key(a[l]) != key(a[k]));
        }
    }
}

/// A pair that stands at two places is counted twice.
proof fn lemma_counted_twice(pairs: Seq<Pair>, i: int, j: int)
    requires
        0 <= i < j < pairs.len(),
        pairs[i] == pairs[j],
    ensures
        pairs.to_multiset().count(pairs[i]) >= 2,
{
    let rest = pairs.remove(j);
    vstd::seq_lib::to_multiset_remove(pairs, j);
    assert(rest[i] == pairs[i]);
    assert(rest.contains(pairs[i]));
    vstd::seq_lib::to_multiset_contains(rest, pairs[i]);
}

/// A pair whose key no other has is counted once.
proof fn lemma_counted_once(pairs: Seq<Pair>, at: int, key: spec_fn(Pair) -> Pair)
    requires
        0 <= at < pairs.len(),
        keys_distinct(pairs, key),
    ensures
        pairs.to_multiset().count(pairs[at]) <= 1,
{
    let rest = pairs.remove(at);
    vstd::seq_lib::to_multiset_remove(pairs, at);
    vstd::seq_lib::to_multiset_contains(rest, pairs[at]);
    vstd::seq_lib::to_multiset_contains(pairs, pairs[at]);
    if rest.contains(pairs[at]) {
        let k = choose|k: int| 0 <= k < rest.len() && rest[k] == pairs[at];
        if k < at {
            assert(key(pairs[k]) != key(pairs[at]));
        } else {
            assert(key(pairs[at]) != key(pairs[k + 1]));
        }
    }
}

/// Declarations make the same scope in any order.
proof fn lemma_same_scope(one: Seq<Pair>, other: Seq<Pair>, a: Seq<Pair>, b: Seq<Pair>)
    requires
        same_scope(one, other),
        reordered(a, b, by_prefix()),
    ensures
        same_scope(declare_all(one, a), declare_all(other, b)),
{
    if a != b {
        lemma_distinct_reordered(a, b, by_prefix());
    }
    assert forall|prefix: Seq<char>| #[trigger]
        namespace_of(declare_all(one, a), prefix) == namespace_of(
            declare_all(other, b),
            prefix,
        ) by {
        the_last_declaration_counts(one, a, prefix);
        the_last_declaration_counts(other, b, prefix);
        if a == b {
        } else if let Some(uri) = namespace_of(a, prefix) {
            lemma_namespace_is_member(a, prefix, uri);
            lemma_namespace_is_member(b, prefix, uri);
            vstd::seq_lib::to_multiset_contains(a, (prefix, uri));
            vstd::seq_lib::to_multiset_contains(b, (prefix, uri));
        } else if let Some(uri) = namespace_of(b, prefix) {
            lemma_namespace_is_member(a, prefix, uri);
            lemma_namespace_is_member(b, prefix, uri);
            vstd::seq_lib::to_multiset_contains(a, (prefix, uri));
            vstd::seq_lib::to_multiset_contains(b, (prefix, uri));
        }
        assert(namespace_of(one, prefix) == namespace_of(other, prefix));
    }
}

/// A prefix that attributes use is that of one of them.
pub proof fn lemma_prefix_of_attribute(attributes: Seq<Pair>, prefix: Seq<char>) -> (at: int)
    requires
        attribute_prefixes(attributes).contains(prefix),
    ensures
        0 <= at < attributes.len(),
        split_once(attributes[at].0, ':') matches Some((own, _)) && own == prefix,
    decreases attributes.len(),
{
    let all = attribute_prefixes(attributes);
    assert(attributes.len() > 0);
    let before = attribute_prefixes(attributes.drop_last());
    if before.contains(prefix) {
        lemma_prefix_of_attribute(attributes.drop_last(), prefix)
    } else {
        let k = choose|k: int| 0 <= k < all.len() && all[k] == prefix;
        if k < before.len() {
            assert(before[k] == prefix);
        }
        attributes.len() - 1
    }
}

/// Elements of one name, with the same attributes in any order, use the same
/// prefixes.
pub proof fn lemma_same_prefixes_used(a: ElementModel, b: ElementModel, prefix: Seq<char>)
    requires
        a.name == b.name,
        a.attributes.to_multiset() == b.attributes.to_multiset(),
        used_prefixes(a).contains(prefix),
    ensures
        used_prefixes(b).contains(prefix),
{
    let own = used_prefixes(a)[0];
    let others = attribute_prefixes(a.attributes);
    if prefix == own {
        assert(used_prefixes(b)[0] == prefix);
    } else {
        let k = choose|k: int| 0 <= k < used_prefixes(a).len() && used_prefixes(a)[k] == prefix;
        assert(others[k - 1] == prefix);
        let at = lemma_prefix_of_attribute(a.attributes, prefix);
        let attribute = a.attributes[at];
        assert(a.attributes.contains(attribute));
        vstd::seq_lib::to_multiset_contains(a.attributes, attribute);
        vstd::seq_lib::to_multiset_contains(b.attributes, attribute);
        let i = choose|i: int| 0 <= i < b.attributes.len() && b.attributes[i] == attribute;
        lemma_attribute_prefix_used(b.attributes, i);
        let found = attribute_prefixes(b.attributes);
        let l = choose|l: int| 0 <= l < found.len() && found[l] == prefix;
        assert(used_prefixes(b)[l + 1] == prefix);
    }
}

/// The order in which declarations and attributes stand makes no difference to
/// the canonical form.
pub proof fn the_order_of_attributes_makes_no_difference(
    a: ElementModel,
    b: ElementModel,
    one: Seq<Pair>,
    other: Seq<Pair>,
    rendered: Seq<Pair>,
)
    requires
        alike(a, b, one),
        same_scope(one, other),
    ensures
        element_text(a, one, rendered) == element_text(b, other, rendered),
    decreases a,
{
    let first = declare_all(one, a.namespaces);
    let second = declare_all(other, b.namespaces);
    lemma_same_scope(one, other, a.namespaces, b.namespaces);
    let left = rendered_declarations(a, one, rendered);
    let right = rendered_declarations(b, other, rendered);
    assert forall|declaration: Pair| left.contains(declaration) <==> right.contains(
        declaration,
    ) by {
        only_used_namespaces_are_declared(a, one, rendered, declaration);
        only_used_namespaces_are_declared(b, other, rendered, declaration);
        if used_prefixes(a).contains(declaration.0) {
            lemma_same_prefixes_used(a, b, declaration.0);
        }
        if used_prefixes(b).contains(declaration.0) {
            lemma_same_prefixes_used(b, a, declaration.0);
        }
        assert(namespace_of(first, declaration.0) == namespace_of(second, declaration.0));
    }
    declarations_are_in_order(a, one, rendered);
    declarations_are_in_order(b, other, rendered);
    lemma_order_by_members(left, right, by_prefix());
    assert forall|name: Seq<char>| #[trigger]
        attribute_key(name, first) == attribute_key(name, second) by {
        if let Some((prefix, _)) = split_once(name, ':') {
            assert(namespace_of(first, prefix) == namespace_of(second, prefix));
        }
    }
    assert(by_namespace(first) =~= by_namespace(second));
    if a.attributes != b.attributes {
        arranging_forgets_the_order(a.attributes, b.attributes, by_namespace(first));
    }
    lemma_children_alike(
        a.children,
        b.children,
        first,
        second,
        declare_all(rendered, left),
    );
}

/// Children that are alike have the same form.
proof fn lemma_children_alike(
    a: Seq<NodeModel>,
    b: Seq<NodeModel>,
    one: Seq<Pair>,
    other: Seq<Pair>,
    rendered: Seq<Pair>,
)
    requires
        alike_among(a, b, one),
        same_scope(one, other),
    ensures
        children_text(a, one, rendered) == children_text(b, other, rendered),
    decreases a,
{
    if a == b {
        assert forall|prefix: Seq<char>| #[trigger] uses_among(a, prefix) implies namespace_of(
            one,
            prefix,
        ) == namespace_of(other, prefix) by {
        }
        lemma_children_agree(a, one, other, rendered);
    } else {
        lemma_children_alike(a.drop_last(), b.drop_last(), one, other, rendered);
        if let NodeModel::Element(left) = a.last() {
            if let NodeModel::Element(right) = b.last() {
                if left == right {
                    assert forall|prefix: Seq<char>| #[trigger] uses(
                        left,
                        prefix,
                    ) implies namespace_of(one, prefix) == namespace_of(other, prefix) by {
                    }
                    unused_namespaces_make_no_difference(left, one, other, rendered);
                } else {
                    the_order_of_attributes_makes_no_difference(left, right, one, other, rendered);
                }
            }
        }
    }
}

} // verus!
