//! Laws of places in the tree: which element is found, how many there are, and
//! which namespaces are in scope where one is located.

use crate::c14n::{declare_all, namespace_of};
use crate::laws::canonical::the_last_declaration_counts;
use crate::laws::signing::located_is_found;
use crate::laws::tree::found_has_the_name;
use crate::signature::{located, located_among};
use crate::xml::{
    count_among, count_named, first_among, first_named, local_of, Element, ElementModel, NodeModel,
    Pair,
};
use vstd::prelude::*;

verus! {

/// The element a path leads to: each step is the place of an element among the
/// children of the one before.
pub open spec fn reached(element: ElementModel, path: Seq<int>) -> Option<ElementModel>
    decreases path.len(),
{
    if path.len() == 0 {
        Some(element)
    } else if 0 <= path[0] < element.children.len() && element.children[path[0]] is Element {
        reached(element.children[path[0]]->Element_0, path.drop_first())
    } else {
        None
    }
}

/// Whether one path leads to a place before another in the document: to an
/// ancestor, or aside at a place that comes first.
pub open spec fn earlier(p: Seq<int>, q: Seq<int>) -> bool {
    exists|k: int|
        0 <= k <= p.len() && k < q.len() && #[trigger] p.take(k) == q.take(k) && (k == p.len()
            || p[k] < q[k])
}

/// Whether a path leads to an element of this local name.
pub open spec fn bears(element: ElementModel, path: Seq<int>, local: Seq<char>) -> bool {
    reached(element, path) matches Some(there) && local_of(there.name) == local
}

/// Whether a path leads to the first element of this local name in the document.
pub open spec fn is_first(element: ElementModel, path: Seq<int>, local: Seq<char>) -> bool {
    bears(element, path, local) && forall|other: Seq<int>| #[trigger]
        earlier(other, path) ==> !bears(element, other, local)
}

/// Of two different paths, one leads to a place before the other.
proof fn lemma_one_is_earlier(p: Seq<int>, q: Seq<int>)
    requires
        p != q,
    ensures
        earlier(p, q) || earlier(q, p),
    decreases p.len(),
{
    if p.len() == 0 {
        if q.len() == 0 {
            assert(p =~= q);
        }
        assert(p.take(0) =~= q.take(0));
    } else if q.len() == 0 {
        assert(q.take(0) =~= p.take(0));
    } else if p[0] != q[0] {
        assert(p.take(0) =~= q.take(0));
        assert(q.take(0) =~= p.take(0));
    } else {
        let a = p.drop_first();
        let b = q.drop_first();
        if a == b {
            assert(p =~= seq![p[0]] + a);
            assert(q =~= seq![q[0]] + b);
        }
        lemma_one_is_earlier(a, b);
        if earlier(a, b) {
            lemma_earlier_below(p, q);
        } else {
            lemma_earlier_below(q, p);
        }
    }
}

/// Below one child, what is earlier there is earlier.
proof fn lemma_earlier_below(p: Seq<int>, q: Seq<int>)
    requires
        p.len() > 0,
        q.len() > 0,
        p[0] == q[0],
        earlier(p.drop_first(), q.drop_first()),
    ensures
        earlier(p, q),
{
    let a = p.drop_first();
    let b = q.drop_first();
    let k = choose|k: int|
        0 <= k <= a.len() && k < b.len() && #[trigger] a.take(k) == b.take(k) && (k == a.len()
            || a[k] < b[k]);
    assert forall|i: int| 0 <= i < k + 1 implies #[trigger] p[i] == q[i] by {
        if i > 0 {
            assert(a.take(k)[i - 1] == b.take(k)[i - 1]);
        }
    }
    assert(p.take(k + 1) =~= q.take(k + 1));
}

/// Where nothing of a name is found, no path leads to one.
proof fn lemma_nowhere(element: ElementModel, path: Seq<int>, local: Seq<char>)
    requires
        first_named(element, local) is None,
    ensures
        !bears(element, path, local),
    decreases path.len(),
{
    if path.len() > 0 && reached(element, path) is Some {
        lemma_none_among(element.children, path[0], local);
        lemma_nowhere(element.children[path[0]]->Element_0, path.drop_first(), local);
    }
}

/// Where nothing of a name is found among children, it is not found in one.
proof fn lemma_none_among(nodes: Seq<NodeModel>, at: int, local: Seq<char>)
    requires
        first_among(nodes, local) is None,
        0 <= at < nodes.len(),
    ensures
        nodes[at] matches NodeModel::Element(child) ==> first_named(child, local) is None,
    decreases at,
{
    if at > 0 {
        lemma_none_among(nodes.drop_first(), at - 1, local);
    }
}

/// The path to the element that is found.
proof fn lemma_path_found(element: ElementModel, local: Seq<char>) -> (path: Seq<int>)
    requires
        first_named(element, local) is Some,
    ensures
        is_first(element, path, local),
        reached(element, path) == first_named(element, local),
    decreases element,
{
    if local_of(element.name) == local {
        Seq::empty()
    } else {
        let (at, below) = lemma_path_among(element.children, local);
        let child = element.children[at]->Element_0;
        let path = seq![at] + below;
        assert(path.drop_first() =~= below);
        assert forall|other: Seq<int>| #[trigger] earlier(other, path) implies !bears(
            element,
            other,
            local,
        ) by {
            lemma_not_before(element, at, below, other, local);
        }
        path
    }
}

/// No path before this one leads to an element of the name.
proof fn lemma_not_before(
    element: ElementModel,
    at: int,
    below: Seq<int>,
    other: Seq<int>,
    local: Seq<char>,
)
    requires
        local_of(element.name) != local,
        0 <= at < element.children.len(),
        element.children[at] matches NodeModel::Element(child) && is_first(child, below, local),
        forall|i: int| 0 <= i < at ==> (#[trigger] element.children[i] matches NodeModel::Element(
            child,
        ) ==> first_named(child, local) is None),
        earlier(other, seq![at] + below),
    ensures
        !bears(element, other, local),
{
    let path = seq![at] + below;
    let child = element.children[at]->Element_0;
    let k = choose|k: int|
        0 <= k <= other.len() && k < path.len() && #[trigger] other.take(k) == path.take(k) && (k
            == other.len() || other[k] < path[k]);
    if other.len() > 0 && reached(element, other) is Some {
        let rest = other.drop_first();
        if k == 0 {
            assert(other[0] < at);
            lemma_nowhere(element.children[other[0]]->Element_0, rest, local);
        } else {
            assert(other.take(k)[0] == path.take(k)[0]);
            assert(other[0] == at);
            assert(path.drop_first() =~= below);
            assert forall|i: int| 0 <= i < k - 1 implies #[trigger] rest[i] == below[i] by {
                assert(other.take(k)[i + 1] == path.take(k)[i + 1]);
            }
            assert(rest.take(k - 1) =~= below.take(k - 1));
            assert(earlier(rest, below));
            assert(!bears(child, rest, local));
        }
    }
}

/// The place of the child in which an element is found, and the path from there.
proof fn lemma_path_among(nodes: Seq<NodeModel>, local: Seq<char>) -> (r: (int, Seq<int>))
    requires
        first_among(nodes, local) is Some,
    ensures
        0 <= r.0 < nodes.len(),
        nodes[r.0] matches NodeModel::Element(child) && is_first(child, r.1, local) && reached(
            child,
            r.1,
        ) == first_among(nodes, local),
        forall|i: int| 0 <= i < r.0 ==> (#[trigger] nodes[i] matches NodeModel::Element(child)
            ==> first_named(child, local) is None),
    decreases nodes,
{
    let rest = nodes.drop_first();
    if nodes[0] is Element && first_named(nodes[0]->Element_0, local) is Some {
        (0, lemma_path_found(nodes[0]->Element_0, local))
    } else {
        let (at, below) = lemma_path_among(rest, local);
        assert(rest[at] == nodes[at + 1]);
        assert forall|i: int| 0 <= i < at + 1 implies (#[trigger] nodes[i] matches NodeModel::Element(
            child,
        ) ==> first_named(child, local) is None) by {
            if i > 0 {
                assert(nodes[i] == rest[i - 1]);
            }
        }
        (at + 1, below)
    }
}

/// There is one first place at most.
proof fn lemma_one_first(element: ElementModel, p: Seq<int>, q: Seq<int>, local: Seq<char>)
    requires
        is_first(element, p, local),
        is_first(element, q, local),
    ensures
        p == q,
{
    if p != q {
        lemma_one_is_earlier(p, q);
    }
}

/// The element that is found is the one at the first place in the document where
/// an element of that local name stands; none is found only where there is no
/// such place.
pub proof fn found_is_the_first(element: ElementModel, local: Seq<char>)
    ensures
        forall|path: Seq<int>| #[trigger]
            is_first(element, path, local) ==> first_named(element, local) == reached(
                element,
                path,
            ),
        first_named(element, local) is Some ==> exists|path: Seq<int>| #[trigger]
            is_first(element, path, local),
        first_named(element, local) is None ==> forall|path: Seq<int>| !#[trigger]
            bears(element, path, local),
{
    if first_named(element, local) is Some {
        let found = lemma_path_found(element, local);
        assert forall|path: Seq<int>| #[trigger]
            is_first(element, path, local) implies first_named(element, local) == reached(
            element,
            path,
        ) by {
            lemma_one_first(element, path, found, local);
        }
    } else {
        assert forall|path: Seq<int>| !#[trigger] bears(element, path, local) by {
            lemma_nowhere(element, path, local);
        }
    }
}

/// What `find` gives is the element at the first place where one of that local
/// name stands.
pub proof fn finding_gives_the_first(
    element: &Element,
    local: &str,
    r: Option<&Element>,
    path: Seq<int>,
)
    requires
        call_ensures(Element::find, (element, local), r),
    ensures
        is_first(element@, path, local@) ==> (r matches Some(found) && reached(element@, path)
            == Some(found@)),
        r is None ==> !bears(element@, path, local@),
{
    found_is_the_first(element@, local@);
}

/// A child counts no more than all of them.
proof fn lemma_child_counts(nodes: Seq<NodeModel>, at: int, local: Seq<char>)
    requires
        0 <= at < nodes.len(),
        nodes[at] is Element,
    ensures
        count_among(nodes, local) >= count_named(nodes[at]->Element_0, local),
    decreases nodes,
{
    if at > 0 {
        lemma_child_counts(nodes.drop_first(), at - 1, local);
    }
}

/// Two children count no more than all of them.
proof fn lemma_two_children_count(nodes: Seq<NodeModel>, i: int, j: int, local: Seq<char>)
    requires
        0 <= i < j < nodes.len(),
        nodes[i] is Element,
        nodes[j] is Element,
    ensures
        count_among(nodes, local) >= count_named(nodes[i]->Element_0, local) + count_named(
            nodes[j]->Element_0,
            local,
        ),
    decreases nodes,
{
    let rest = nodes.drop_first();
    if i > 0 {
        lemma_two_children_count(rest, i - 1, j - 1, local);
    } else {
        lemma_child_counts(rest, j - 1, local);
    }
}

/// Where a path leads to an element of a name, one is counted.
proof fn lemma_borne_counts(element: ElementModel, path: Seq<int>, local: Seq<char>)
    requires
        bears(element, path, local),
    ensures
        count_named(element, local) >= 1,
    decreases path.len(),
{
    if path.len() > 0 {
        lemma_borne_counts(element.children[path[0]]->Element_0, path.drop_first(), local);
        lemma_child_counts(element.children, path[0], local);
    }
}

/// Where one is counted, paths that lead to one are the same.
proof fn lemma_one_path(element: ElementModel, p: Seq<int>, q: Seq<int>, local: Seq<char>)
    requires
        count_named(element, local) == 1,
        bears(element, p, local),
        bears(element, q, local),
    ensures
        p == q,
    decreases p.len(),
{
    if p.len() > 0 {
        let child = element.children[p[0]]->Element_0;
        lemma_borne_counts(child, p.drop_first(), local);
        lemma_child_counts(element.children, p[0], local);
        if q.len() > 0 {
            let other = element.children[q[0]]->Element_0;
            lemma_borne_counts(other, q.drop_first(), local);
            if p[0] < q[0] {
                lemma_two_children_count(element.children, p[0], q[0], local);
            } else if q[0] < p[0] {
                lemma_two_children_count(element.children, q[0], p[0], local);
            }
            lemma_one_path(child, p.drop_first(), q.drop_first(), local);
            assert(p =~= seq![p[0]] + p.drop_first());
            assert(q =~= seq![q[0]] + q.drop_first());
        }
    } else if q.len() > 0 {
        lemma_borne_counts(element.children[q[0]]->Element_0, q.drop_first(), local);
        lemma_child_counts(element.children, q[0], local);
    } else {
        assert(p =~= q);
    }
}

/// Where two or more are counted, two paths lead to them.
proof fn lemma_two_paths(element: ElementModel, local: Seq<char>) -> (r: (Seq<int>, Seq<int>))
    requires
        count_named(element, local) >= 2,
    ensures
        bears(element, r.0, local),
        bears(element, r.1, local),
        r.0 != r.1,
    decreases element,
{
    if local_of(element.name) == local {
        let (at, below) = lemma_counted_among(element.children, local);
        let path = seq![at] + below;
        assert(path.drop_first() =~= below);
        assert(path.len() > 0);
        (Seq::empty(), path)
    } else {
        let (i, p, j, q) = lemma_two_among(element.children, local);
        let a = seq![i] + p;
        let b = seq![j] + q;
        assert(a.drop_first() =~= p);
        assert(b.drop_first() =~= q);
        assert(a[0] == i && b[0] == j);
        (a, b)
    }
}

/// Where one is counted among children, a path below one leads to it.
proof fn lemma_counted_among(nodes: Seq<NodeModel>, local: Seq<char>) -> (r: (int, Seq<int>))
    requires
        count_among(nodes, local) >= 1,
    ensures
        0 <= r.0 < nodes.len(),
        nodes[r.0] matches NodeModel::Element(child) && bears(child, r.1, local),
    decreases nodes,
{
    if nodes[0] is Element && count_named(nodes[0]->Element_0, local) >= 1 {
        let child = nodes[0]->Element_0;
        found_has_the_name(child, local);
        (0, lemma_path_found(child, local))
    } else {
        let (at, below) = lemma_counted_among(nodes.drop_first(), local);
        (at + 1, below)
    }
}

/// Where two or more are counted among children, two paths lead to them.
proof fn lemma_two_among(nodes: Seq<NodeModel>, local: Seq<char>) -> (r: (
    int,
    Seq<int>,
    int,
    Seq<int>,
))
    requires
        count_among(nodes, local) >= 2,
    ensures
        0 <= r.0 < nodes.len(),
        0 <= r.2 < nodes.len(),
        nodes[r.0] matches NodeModel::Element(child) && bears(child, r.1, local),
        nodes[r.2] matches NodeModel::Element(child) && bears(child, r.3, local),
        r.0 != r.2 || r.1 != r.3,
    decreases nodes,
{
    let rest = nodes.drop_first();
    if nodes[0] is Element && count_named(nodes[0]->Element_0, local) >= 2 {
        let (p, q) = lemma_two_paths(nodes[0]->Element_0, local);
        (0, p, 0, q)
    } else if nodes[0] is Element && count_named(nodes[0]->Element_0, local) == 1 {
        let child = nodes[0]->Element_0;
        found_has_the_name(child, local);
        let (at, below) = lemma_counted_among(rest, local);
        (0, lemma_path_found(child, local), at + 1, below)
    } else {
        let (i, p, j, q) = lemma_two_among(rest, local);
        (i + 1, p, j + 1, q)
    }
}

/// One element of a local name is counted exactly where one path, and no other,
/// leads to such an element.
pub proof fn one_is_counted_where_one_stands(element: ElementModel, local: Seq<char>)
    ensures
        count_named(element, local) == 1 <==> exists|path: Seq<int>| #[trigger]
            bears(element, path, local) && forall|other: Seq<int>| #[trigger]
                bears(element, other, local) ==> other == path,
{
    if count_named(element, local) == 1 {
        found_has_the_name(element, local);
        let path = lemma_path_found(element, local);
        assert forall|other: Seq<int>| #[trigger] bears(element, other, local) implies other
            == path by {
            lemma_one_path(element, path, other, local);
        }
    } else if count_named(element, local) >= 2 {
        let (p, q) = lemma_two_paths(element, local);
        assert(bears(element, p, local) && bears(element, q, local));
    } else {
        assert forall|path: Seq<int>| !#[trigger] bears(element, path, local) by {
            if bears(element, path, local) {
                lemma_borne_counts(element, path, local);
            }
        }
    }
}

/// Whether these pairs declare the prefix, and this last of all for it.
pub open spec fn declares(pairs: Seq<Pair>, prefix: Seq<char>, uri: Seq<char>) -> bool {
    exists|i: int|
        0 <= i < pairs.len() && #[trigger] pairs[i] == (prefix, uri) && forall|j: int|
            i < j < pairs.len() ==> (#[trigger] pairs[j]).0 != prefix
}

/// Whether these pairs do not declare the prefix.
pub open spec fn silent(pairs: Seq<Pair>, prefix: Seq<char>) -> bool {
    forall|i: int| 0 <= i < pairs.len() ==> (#[trigger] pairs[i]).0 != prefix
}

/// What a prefix stands for is what was declared of it last.
pub proof fn a_prefix_stands_for_its_last_declaration(pairs: Seq<Pair>, prefix: Seq<char>)
    ensures
        match namespace_of(pairs, prefix) {
            Some(uri) => declares(pairs, prefix, uri),
            None => silent(pairs, prefix),
        },
        forall|uri: Seq<char>| #[trigger]
            declares(pairs, prefix, uri) ==> namespace_of(pairs, prefix) == Some(uri),
    decreases pairs.len(),
{
    if pairs.len() > 0 {
        let before = pairs.drop_last();
        let last = pairs.len() - 1;
        a_prefix_stands_for_its_last_declaration(before, prefix);
        if pairs[last].0 == prefix {
            assert(pairs[last] == (prefix, pairs[last].1));
        } else if let Some(uri) = namespace_of(before, prefix) {
            let i = choose|i: int|
                0 <= i < before.len() && #[trigger] before[i] == (prefix, uri) && forall|j: int|
                    i < j < before.len() ==> (#[trigger] before[j]).0 != prefix;
            assert(pairs[i] == (prefix, uri));
            assert forall|j: int| i < j < pairs.len() implies (#[trigger] pairs[j]).0 != prefix by {
                if j < last {
                    assert(before[j] == pairs[j]);
                }
            }
        } else {
            assert forall|j: int| 0 <= j < pairs.len() implies (#[trigger] pairs[j]).0 != prefix by {
                if j < last {
                    assert(before[j] == pairs[j]);
                }
            }
        }
        assert forall|uri: Seq<char>| #[trigger]
            declares(pairs, prefix, uri) implies namespace_of(pairs, prefix) == Some(uri) by {
            let i = choose|i: int|
                0 <= i < pairs.len() && #[trigger] pairs[i] == (prefix, uri) && forall|j: int|
                    i < j < pairs.len() ==> (#[trigger] pairs[j]).0 != prefix;
            if i < last {
                assert(pairs[last].0 != prefix);
                assert(before[i] == (prefix, uri));
                assert forall|j: int| i < j < before.len() implies (#[trigger] before[j]).0
                    != prefix by {
                    assert(before[j] == pairs[j]);
                }
                assert(declares(before, prefix, uri));
            }
        }
    }
}

/// Whether a prefix stands for this where a path leads: for what the innermost
/// ancestor that declares it gives it, or, where none does, for what it stood for
/// outside.
pub open spec fn stands_for(
    element: ElementModel,
    path: Seq<int>,
    outside: Option<Seq<char>>,
    prefix: Seq<char>,
    meaning: Option<Seq<char>>,
) -> bool {
    ||| meaning matches Some(uri) && exists|k: int|
        0 <= k < path.len() && declares(
            (#[trigger] reached(element, path.take(k)))->Some_0.namespaces,
            prefix,
            uri,
        ) && forall|l: int|
            k < l < path.len() ==> silent(
                (#[trigger] reached(element, path.take(l)))->Some_0.namespaces,
                prefix,
            )
    ||| meaning == outside && forall|k: int|
        0 <= k < path.len() ==> silent(
            (#[trigger] reached(element, path.take(k)))->Some_0.namespaces,
            prefix,
        )
}

/// What is located among children is located in the first of them that has it.
proof fn lemma_located_in(nodes: Seq<NodeModel>, at: int, scope: Seq<Pair>, local: Seq<char>)
    requires
        0 <= at < nodes.len(),
        nodes[at] matches NodeModel::Element(child) && located(child, scope, local) is Some,
        forall|i: int| 0 <= i < at ==> (#[trigger] nodes[i] matches NodeModel::Element(child)
            ==> located(child, scope, local) is None),
    ensures
        nodes[at] matches NodeModel::Element(child) && located_among(nodes, scope, local)
            == located(child, scope, local),
    decreases at,
{
    if at > 0 {
        let rest = nodes.drop_first();
        assert(nodes[0] is Element ==> located(nodes[0]->Element_0, scope, local) is None);
        assert forall|i: int| 0 <= i < at - 1 implies (#[trigger] rest[i] matches NodeModel::Element(
            child,
        ) ==> located(child, scope, local) is None) by {
            assert(rest[i] == nodes[i + 1]);
        }
        lemma_located_in(rest, at - 1, scope, local);
    }
}

/// The element located is the one at the first place of that local name, and the
/// namespaces in scope there are those of all its ancestors, the nearest first:
/// a prefix stands for what the innermost ancestor that declares it gives it, and
/// for what it stood for outside where none does.
pub proof fn the_scope_is_that_of_the_ancestors(
    element: ElementModel,
    inherited: Seq<Pair>,
    local: Seq<char>,
    path: Seq<int>,
    prefix: Seq<char>,
)
    requires
        is_first(element, path, local),
    ensures
        located(element, inherited, local) matches Some((found, scope)) && reached(element, path)
            == Some(found) && stands_for(
            element,
            path,
            namespace_of(inherited, prefix),
            prefix,
            namespace_of(scope, prefix),
        ),
    decreases path.len(),
{
    if path.len() > 0 {
        let none = Seq::<int>::empty();
        assert(none.take(0) =~= path.take(0));
        assert(earlier(none, path));
        assert(!bears(element, none, local));
        let at = path[0];
        let below = path.drop_first();
        let child = element.children[at]->Element_0;
        let scope = declare_all(inherited, element.namespaces);
        assert(is_first(child, below, local)) by {
            assert forall|other: Seq<int>| #[trigger] earlier(other, below) implies !bears(
                child,
                other,
                local,
            ) by {
                let whole = seq![at] + other;
                assert(whole.drop_first() =~= other);
                lemma_earlier_below(whole, path);
                assert(!bears(element, whole, local));
            }
        }
        assert forall|i: int| 0 <= i < at implies (#[trigger] element.children[i] matches NodeModel::Element(
            sibling,
        ) ==> located(sibling, scope, local) is None) by {
            if let NodeModel::Element(sibling) = element.children[i] {
                located_is_found(sibling, scope, local);
                if first_named(sibling, local) is Some {
                    let there = lemma_path_found(sibling, local);
                    let whole = seq![i] + there;
                    assert(whole.drop_first() =~= there);
                    assert(whole.take(0) =~= path.take(0));
                    assert(earlier(whole, path));
                    assert(!bears(element, whole, local));
                }
            }
        }
        the_scope_is_that_of_the_ancestors(child, scope, local, below, prefix);
        lemma_located_in(element.children, at, scope, local);
        the_last_declaration_counts(inherited, element.namespaces, prefix);
        a_prefix_stands_for_its_last_declaration(element.namespaces, prefix);
        let (_, given) = located(element, inherited, local)->Some_0;
        let meaning = namespace_of(given, prefix);
        assert forall|k: int| 0 <= k < below.len() implies #[trigger] reached(
            element,
            path.take(k + 1),
        ) == reached(child, below.take(k)) by {
            assert(path.take(k + 1).drop_first() =~= below.take(k));
        }
        assert(reached(element, path.take(0)) == Some(element));
        lemma_from_below(
            element,
            path,
            namespace_of(inherited, prefix),
            namespace_of(scope, prefix),
            prefix,
            meaning,
        );
    }
}

/// What a prefix stands for below a child, it stands for below its parent.
proof fn lemma_from_below(
    element: ElementModel,
    path: Seq<int>,
    outside: Option<Seq<char>>,
    between: Option<Seq<char>>,
    prefix: Seq<char>,
    meaning: Option<Seq<char>>,
)
    requires
        path.len() > 0,
        reached(element, path) is Some,
        stands_for(
            element.children[path[0]]->Element_0,
            path.drop_first(),
            between,
            prefix,
            meaning,
        ),
        between matches Some(uri) ==> declares(element.namespaces, prefix, uri) || (silent(
            element.namespaces,
            prefix,
        ) && outside == Some(uri)),
        between is None ==> silent(element.namespaces, prefix) && outside is None,
    ensures
        stands_for(element, path, outside, prefix, meaning),
{
    let child = element.children[path[0]]->Element_0;
    let below = path.drop_first();
    assert forall|k: int| 1 <= k < path.len() implies #[trigger] reached(element, path.take(k))
        == reached(child, below.take(k - 1)) by {
        assert(path.take(k).drop_first() =~= below.take(k - 1));
    }
    assert(reached(element, path.take(0)) == Some(element));
    if meaning is Some && exists|k: int|
        0 <= k < below.len() && declares(
            (#[trigger] reached(child, below.take(k)))->Some_0.namespaces,
            prefix,
            meaning->0,
        ) && forall|l: int|
            k < l < below.len() ==> silent(
                (#[trigger] reached(child, below.take(l)))->Some_0.namespaces,
                prefix,
            ) {
        let k = choose|k: int|
            0 <= k < below.len() && declares(
                (#[trigger] reached(child, below.take(k)))->Some_0.namespaces,
                prefix,
                meaning->0,
            ) && forall|l: int|
                k < l < below.len() ==> silent(
                    (#[trigger] reached(child, below.take(l)))->Some_0.namespaces,
                    prefix,
                );
        assert(reached(element, path.take(k + 1)) == reached(child, below.take(k)));
        assert forall|l: int| k + 1 < l < path.len() implies silent(
            (#[trigger] reached(element, path.take(l)))->Some_0.namespaces,
            prefix,
        ) by {
            assert(reached(child, below.take(l - 1)) == reached(element, path.take(l)));
        }
    } else {
        assert forall|l: int| 1 <= l < path.len() implies silent(
            (#[trigger] reached(element, path.take(l)))->Some_0.namespaces,
            prefix,
        ) by {
            assert(reached(child, below.take(l - 1)) == reached(element, path.take(l)));
        }
        if silent(element.namespaces, prefix) {
            assert forall|l: int| 0 <= l < path.len() implies silent(
                (#[trigger] reached(element, path.take(l)))->Some_0.namespaces,
                prefix,
            ) by {
            }
            if let Some(uri) = between {
                if declares(element.namespaces, prefix, uri) {
                    let i = choose|i: int|
                        0 <= i < element.namespaces.len() && #[trigger] element.namespaces[i] == (
                        prefix,
                        uri,
                        );
                    assert(element.namespaces[i].0 != prefix);
                }
            }
        } else {
            let k = 0int;
            assert(declares(reached(element, path.take(k))->Some_0.namespaces, prefix, meaning->0));
        }
    }
}

} // verus!
