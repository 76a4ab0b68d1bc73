//! Laws of the tree: what finding, counting and taking out come to.

use crate::text::{lemma_position_of, position_of};
use crate::xml::{
    child_position, count_among, count_named, first_among, first_named, local_of, prefix_of,
    without_first, without_first_below, ElementModel, NodeModel,
};
use vstd::prelude::*;

verus! {

/// An element found has the local name asked for, and none is found only where
/// there is none.
pub proof fn found_has_the_name(element: ElementModel, local: Seq<char>)
    ensures
        match first_named(element, local) {
            Some(found) => local_of(found.name) == local && count_named(element, local) > 0,
            None => count_named(element, local) == 0,
        },
    decreases element,
{
    if local_of(element.name) != local {
        found_among_has_the_name(element.children, local);
    }
}

/// So it is among children.
proof fn found_among_has_the_name(nodes: Seq<NodeModel>, local: Seq<char>)
    ensures
        match first_among(nodes, local) {
            Some(found) => local_of(found.name) == local && count_among(nodes, local) > 0,
            None => count_among(nodes, local) == 0,
        },
    decreases nodes,
{
    if nodes.len() > 0 {
        if let NodeModel::Element(element) = nodes[0] {
            found_has_the_name(element, local);
        }
        found_among_has_the_name(nodes.drop_first(), local);
    }
}

/// The predicate that an element has this local name.
pub open spec fn named(local: Seq<char>) -> spec_fn(ElementModel) -> bool {
    |element: ElementModel| local_of(element.name) == local
}

/// The first descendant that meets `p`, in the order in which one is taken out:
/// the first such child, or else the first such descendant of the first child
/// that has one.
pub open spec fn first_taken(
    element: ElementModel,
    p: spec_fn(ElementModel) -> bool,
) -> Option<ElementModel>
    decreases element,
{
    match child_position(element.children, p) {
        Some(at) => match element.children[at] {
            NodeModel::Element(taken) => Some(taken),
            NodeModel::Text(_) => None,
        },
        None => first_taken_below(element.children, p),
    }
}

/// The first descendant of these children that meets `p`, in that order.
pub open spec fn first_taken_below(
    nodes: Seq<NodeModel>,
    p: spec_fn(ElementModel) -> bool,
) -> Option<ElementModel>
    decreases nodes,
{
    if nodes.len() == 0 {
        None
    } else {
        let here = match nodes[0] {
            NodeModel::Element(element) => first_taken(element, p),
            NodeModel::Text(_) => None,
        };
        match here {
            Some(taken) => Some(taken),
            None => first_taken_below(nodes.drop_first(), p),
        }
    }
}

/// The child found is one that meets the predicate, and none is found only where
/// none meets it.
pub proof fn child_position_bound(nodes: Seq<NodeModel>, p: spec_fn(ElementModel) -> bool)
    ensures
        match child_position(nodes, p) {
            Some(at) => 0 <= at < nodes.len() && (nodes[at] matches NodeModel::Element(element)
                && p(element)),
            None => forall|i: int| #![trigger nodes[i]]
                0 <= i < nodes.len() ==> (nodes[i] matches NodeModel::Element(element)
                    ==> !p(element)),
        },
    decreases nodes.len(),
{
    if nodes.len() > 0 {
        let rest = nodes.drop_first();
        child_position_bound(rest, p);
        if child_position(nodes, p) is None {
            assert forall|i: int| #![trigger nodes[i]] 0 <= i < nodes.len() implies (
            nodes[i] matches NodeModel::Element(element) ==> !p(element)) by {
                if i > 0 {
                    assert(nodes[i] == rest[i - 1]);
                }
            }
        }
    }
}

/// Without a child, there are as many fewer as it counts for.
proof fn count_without_child(nodes: Seq<NodeModel>, at: int, local: Seq<char>)
    requires
        0 <= at < nodes.len(),
    ensures
        count_among(nodes, local) == count_among(nodes.remove(at), local) + match nodes[at] {
            NodeModel::Element(element) => count_named(element, local),
            NodeModel::Text(_) => 0nat,
        },
    decreases nodes,
{
    let rest = nodes.drop_first();
    if at == 0 {
        assert(nodes.remove(0) =~= rest);
    } else {
        count_without_child(rest, at - 1, local);
        assert(nodes.remove(at).drop_first() =~= rest.remove(at - 1));
        assert(nodes.remove(at)[0] == nodes[0]);
    }
}

/// Taking out the first descendant of a local name takes out one of that name
/// with everything below it, and leaves the rest; where nothing is taken out
/// there was none of that name.
pub proof fn taking_out_takes_one(element: ElementModel, local: Seq<char>)
    ensures
        match without_first(element, named(local)) {
            Some(rest) => first_taken(element, named(local)) matches Some(taken) && local_of(
                taken.name,
            ) == local && count_named(element, local) == count_named(rest, local) + count_named(
                taken,
                local,
            ) && rest.name == element.name && rest.namespaces == element.namespaces
                && rest.attributes == element.attributes,
            None => first_taken(element, named(local)) is None && count_among(
                element.children,
                local,
            ) == 0,
        },
    decreases element,
{
    let p = named(local);
    child_position_bound(element.children, p);
    match child_position(element.children, p) {
        Some(at) => {
            count_without_child(element.children, at, local);
        },
        None => {
            taking_out_below_takes_one(element.children, local);
        },
    }
}

/// So it is below children none of which has the name.
proof fn taking_out_below_takes_one(nodes: Seq<NodeModel>, local: Seq<char>)
    requires
        child_position(nodes, named(local)) is None,
    ensures
        match without_first_below(nodes, named(local)) {
            Some(rest) => first_taken_below(nodes, named(local)) matches Some(taken) && local_of(
                taken.name,
            ) == local && count_among(nodes, local) == count_among(rest, local) + count_named(
                taken,
                local,
            ),
            None => first_taken_below(nodes, named(local)) is None && count_among(nodes, local)
                == 0,
        },
    decreases nodes,
{
    let p = named(local);
    if nodes.len() > 0 {
        let rest = nodes.drop_first();
        taking_out_below_takes_one(rest, local);
        if let NodeModel::Element(element) = nodes[0] {
            taking_out_takes_one(element, local);
            assert(!p(element));
            match without_first(element, p) {
                Some(left) => {
                    let updated = nodes.update(0, NodeModel::Element(left));
                    assert(updated.drop_first() =~= rest);
                    assert(count_among(updated, local) == count_among(rest, local) + count_named(
                        left,
                        local,
                    ));
                },
                None => {
                    assert(count_named(element, local) == 0);
                },
            }
        }
        if let Some(left) = without_first_below(rest, p) {
            let joined = seq![nodes[0]] + left;
            assert(joined.drop_first() =~= left);
            assert(joined[0] == nodes[0]);
        }
    }
}

/// Where one element alone has a local name, taking out the first of that name
/// takes out the one that is found, and leaves none.
pub proof fn taking_out_the_only_one(element: ElementModel, local: Seq<char>)
    requires
        local_of(element.name) != local,
        count_named(element, local) == 1,
    ensures
        without_first(element, named(local)) matches Some(rest) && count_named(rest, local) == 0,
        first_taken(element, named(local)) == first_named(element, local),
        first_named(element, local) is Some,
{
    taking_out_takes_one(element, local);
    found_has_the_name(element, local);
    the_only_one_is_found(element, local);
    if let Some(taken) = first_taken(element, named(local)) {
        assert(count_named(taken, local) >= 1);
    }
}

/// The only one of a name is the one that would be taken out.
proof fn the_only_one_is_found(element: ElementModel, local: Seq<char>)
    requires
        local_of(element.name) != local,
        count_named(element, local) == 1,
    ensures
        first_taken(element, named(local)) == first_named(element, local),
    decreases element,
{
    let p = named(local);
    child_position_bound(element.children, p);
    match child_position(element.children, p) {
        Some(at) => {
            the_only_one_is_this_child(element.children, at, local);
        },
        None => {
            the_only_one_below_is_found(element.children, local);
        },
    }
}

/// Where it is a child, it is that child.
proof fn the_only_one_is_this_child(nodes: Seq<NodeModel>, at: int, local: Seq<char>)
    requires
        0 <= at < nodes.len(),
        count_among(nodes, local) == 1,
        nodes[at] matches NodeModel::Element(element) && local_of(element.name) == local,
    ensures
        nodes[at] matches NodeModel::Element(element) && first_among(nodes, local) == Some(element),
    decreases nodes,
{
    let rest = nodes.drop_first();
    if at > 0 {
        count_without_child(nodes, at, local);
        let others = nodes.remove(at);
        assert(others[0] == nodes[0]);
        assert(count_among(others, local) == 0);
        assert(count_among(nodes, local) == count_among(rest, local));
        if let NodeModel::Element(first) = nodes[0] {
            found_has_the_name(first, local);
        }
        the_only_one_is_this_child(rest, at - 1, local);
    } else if let NodeModel::Element(first) = nodes[0] {
        assert(first_named(first, local) == Some(first));
    }
}

/// Where it is below a child, it is the one below that child.
proof fn the_only_one_below_is_found(nodes: Seq<NodeModel>, local: Seq<char>)
    requires
        child_position(nodes, named(local)) is None,
        count_among(nodes, local) == 1,
    ensures
        first_taken_below(nodes, named(local)) == first_among(nodes, local),
    decreases nodes,
{
    let p = named(local);
    if nodes.len() > 0 {
        let rest = nodes.drop_first();
        if let NodeModel::Element(element) = nodes[0] {
            assert(!p(element));
            found_has_the_name(element, local);
            taking_out_takes_one(element, local);
            if count_named(element, local) == 1 {
                the_only_one_is_found(element, local);
            } else {
                the_only_one_below_is_found(rest, local);
            }
        } else {
            the_only_one_below_is_found(rest, local);
        }
    }
}

/// A qualified name with a colon is its prefix, the colon and its local part;
/// one without is its local part, and has no prefix.
pub proof fn a_name_is_its_parts(name: Seq<char>)
    ensures
        name.contains(':') ==> name == prefix_of(name).push(':') + local_of(name),
        !name.contains(':') ==> prefix_of(name).len() == 0 && local_of(name) == name,
        !prefix_of(name).contains(':'),
{
    lemma_position_of(name, ':');
    match position_of(name, ':') {
        Some(at) => {
            assert(name[at as int] == ':');
            assert(name =~= prefix_of(name).push(':') + local_of(name));
        },
        None => {},
    }
}

} // verus!
