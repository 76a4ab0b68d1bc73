//! Laws of taking out: which element is taken out, and what is left.

use crate::laws::covering::pruned;
use crate::laws::paths::{bears, one_is_counted_where_one_stands, reached};
use crate::laws::tree::child_position_bound;
use crate::xml::{
    child_position, without_first, without_first_below, Element, ElementModel, NodeModel,
};
use vstd::prelude::*;

verus! {

/// Whether nothing below an element meets `p`.
pub open spec fn nothing_below(element: ElementModel, p: spec_fn(ElementModel) -> bool) -> bool {
    forall|path: Seq<int>|
        path.len() > 0 ==> (#[trigger] reached(element, path) matches Some(there) ==> !p(there))
}

/// Whether no element among the children before a place meets `p`.
pub open spec fn none_before(
    nodes: Seq<NodeModel>,
    place: int,
    p: spec_fn(ElementModel) -> bool,
) -> bool {
    forall|i: int|
        0 <= i < place && i < nodes.len() ==> (#[trigger] nodes[i] matches NodeModel::Element(child)
            ==> !p(child))
}

/// Whether nothing below the children before a place meets `p`.
pub open spec fn none_below_before(
    nodes: Seq<NodeModel>,
    place: int,
    p: spec_fn(ElementModel) -> bool,
) -> bool {
    forall|i: int|
        0 <= i < place && i < nodes.len() ==> (#[trigger] nodes[i] matches NodeModel::Element(child)
            ==> nothing_below(child, p))
}

/// Whether a path leads to the first descendant that meets `p`, in the order in
/// which one is taken out: where the path ends, no child before meets it; where
/// it goes on, no child at all meets it, and nothing below the children before.
pub open spec fn taken_first(
    element: ElementModel,
    path: Seq<int>,
    p: spec_fn(ElementModel) -> bool,
) -> bool
    decreases path.len(),
{
    &&& path.len() > 0
    &&& reached(element, path) is Some
    &&& if path.len() == 1 {
        p(reached(element, path)->Some_0) && none_before(element.children, path[0], p)
    } else {
        none_before(element.children, element.children.len() as int, p) && none_below_before(
            element.children,
            path[0],
            p,
        ) && taken_first(element.children[path[0]]->Element_0, path.drop_first(), p)
    }
}

/// Taking out takes out the first descendant that meets `p` and nothing else, and
/// nothing where none meets it.
pub proof fn taking_out_prunes_the_first(element: ElementModel, p: spec_fn(ElementModel) -> bool)
    ensures
        match without_first(element, p) {
            Some(rest) => exists|path: Seq<int>| #[trigger]
                taken_first(element, path, p) && rest == pruned(element, path),
            None => nothing_below(element, p),
        },
    decreases element,
{
    let nodes = element.children;
    child_position_bound(nodes, p);
    match child_position(nodes, p) {
        Some(at) => {
            let path = seq![at];
            let child = nodes[at]->Element_0;
            assert(path.drop_first().len() == 0);
            assert(reached(child, path.drop_first()) == Some(child));
            lemma_position_is_first(nodes, p);
            assert(taken_first(element, path, p));
        },
        None => {
            lemma_taking_out_below(nodes, p);
            match without_first_below(nodes, p) {
                Some(left) => {
                    let (at, below) = choose|at: int, below: Seq<int>|
                        0 <= at < nodes.len() && nodes[at] is Element && #[trigger] taken_first(
                            nodes[at]->Element_0,
                            below,
                            p,
                        ) && none_below_before(nodes, at, p) && left == nodes.update(
                            at,
                            NodeModel::Element(pruned(nodes[at]->Element_0, below)),
                        );
                    let path = seq![at] + below;
                    assert(path.drop_first() =~= below);
                    assert(path[0] == at);
                    assert(taken_first(element, path, p));
                    assert(pruned(element, path).children =~= left);
                },
                None => {
                    assert forall|path: Seq<int>| path.len() > 0 implies (#[trigger] reached(
                        element,
                        path,
                    ) matches Some(there) ==> !p(there)) by {
                        if reached(element, path) is Some {
                            let child = nodes[path[0]]->Element_0;
                            let below = path.drop_first();
                            assert(nothing_below(child, p));
                            if below.len() == 0 {
                                assert(reached(child, below) == Some(child));
                            } else {
                                assert(reached(child, below) is Some);
                            }
                        }
                    }
                },
            }
        },
    }
}

/// The child found is the first that meets `p`.
proof fn lemma_position_is_first(nodes: Seq<NodeModel>, p: spec_fn(ElementModel) -> bool)
    ensures
        child_position(nodes, p) matches Some(at) ==> none_before(nodes, at, p),
    decreases nodes.len(),
{
    if nodes.len() > 0 {
        let rest = nodes.drop_first();
        lemma_position_is_first(rest, p);
        if let Some(at) = child_position(nodes, p) {
            assert forall|i: int| 0 <= i < at && i < nodes.len() implies (#[trigger] nodes[i] matches NodeModel::Element(
                child,
            ) ==> !p(child)) by {
                if i > 0 {
                    assert(nodes[i] == rest[i - 1]);
                }
            }
        }
    }
}

/// Below children, it is taken out of the first that has one below it.
proof fn lemma_taking_out_below(nodes: Seq<NodeModel>, p: spec_fn(ElementModel) -> bool)
    ensures
        match without_first_below(nodes, p) {
            Some(left) => exists|at: int, below: Seq<int>|
                0 <= at < nodes.len() && nodes[at] is Element && #[trigger] taken_first(
                    nodes[at]->Element_0,
                    below,
                    p,
                ) && none_below_before(nodes, at, p) && left == nodes.update(
                    at,
                    NodeModel::Element(pruned(nodes[at]->Element_0, below)),
                ),
            None => none_below_before(nodes, nodes.len() as int, p),
        },
    decreases nodes,
{
    if nodes.len() > 0 {
        let rest = nodes.drop_first();
        if nodes[0] is Element {
            taking_out_prunes_the_first(nodes[0]->Element_0, p);
        }
        lemma_taking_out_below(rest, p);
        if nodes[0] is Element && without_first(nodes[0]->Element_0, p) is Some {
            let child = nodes[0]->Element_0;
            let below = choose|below: Seq<int>| #[trigger]
                taken_first(child, below, p) && without_first(child, p)->Some_0 == pruned(
                    child,
                    below,
                );
            let at = 0int;
            assert(taken_first(nodes[at]->Element_0, below, p));
            assert(none_below_before(nodes, at, p));
        } else {
            match without_first_below(rest, p) {
                Some(left) => {
                    let (at, below) = choose|at: int, below: Seq<int>|
                        0 <= at < rest.len() && rest[at] is Element && #[trigger] taken_first(
                            rest[at]->Element_0,
                            below,
                            p,
                        ) && none_below_before(rest, at, p) && left == rest.update(
                            at,
                            NodeModel::Element(pruned(rest[at]->Element_0, below)),
                        );
                    let next = at + 1;
                    assert(nodes[next] == rest[at]);
                    assert(taken_first(nodes[next]->Element_0, below, p));
                    assert(none_below_before(nodes, next, p)) by {
                        assert forall|i: int| 0 <= i < next && i < nodes.len() implies (
                        #[trigger] nodes[i] matches NodeModel::Element(child) ==> nothing_below(
                            child,
                            p,
                        )) by {
                            if i > 0 {
                                assert(nodes[i] == rest[i - 1]);
                            }
                        }
                    }
                    assert(seq![nodes[0]] + left =~= nodes.update(
                        next,
                        NodeModel::Element(pruned(nodes[next]->Element_0, below)),
                    ));
                },
                None => {
                    assert forall|i: int| 0 <= i < nodes.len() implies (#[trigger] nodes[i] matches NodeModel::Element(
                        child,
                    ) ==> nothing_below(child, p)) by {
                        if i > 0 {
                            assert(nodes[i] == rest[i - 1]);
                        }
                    }
                },
            }
        }
    }
}

/// What `single` says is whether one path, and no other, leads to an element of
/// that local name.
pub proof fn a_single_one_stands_in_one_place(element: &Element, local: &str, r: bool)
    requires
        call_ensures(Element::single, (element, local), r),
    ensures
        r <==> exists|path: Seq<int>| #[trigger]
            bears(element@, path, local@) && forall|other: Seq<int>| #[trigger]
                bears(element@, other, local@) ==> other == path,
{
    one_is_counted_where_one_stands(element@, local@);
}

} // verus!
