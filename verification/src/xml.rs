//! The tree a document is: elements, their declarations and attributes, and text.

use crate::text::{same, split_once, split_str};
use vstd::prelude::*;

verus! {

/// A name and a value: an attribute, or a prefix and the namespace it declares.
pub type Pair = (Seq<char>, Seq<char>);

/// One element of the tree.
#[derive(Debug, Eq, PartialEq)]
pub struct Element {
    /// The qualified name, `saml:Assertion` or `Assertion`.
    pub name: String,
    /// The `xmlns` and `xmlns:*` declarations on this element, prefix then
    /// URI; the default namespace is the empty prefix.
    pub namespaces: Vec<(String, String)>,
    /// The other attributes, qualified name then unescaped value.
    pub attributes: Vec<(String, String)>,
    /// The element's children in order.
    pub children: Vec<Node>,
}

/// A child: an element or a run of text.
#[derive(Debug, Eq, PartialEq)]
pub enum Node {
    /// A nested element.
    Element(Element),
    /// Character data, unescaped.
    Text(String),
}

/// What an element is: its name, its declarations, its attributes and its
/// children, as mathematical sequences.
#[verifier::ext_equal]
pub struct ElementModel {
    pub name: Seq<char>,
    pub namespaces: Seq<Pair>,
    pub attributes: Seq<Pair>,
    pub children: Seq<NodeModel>,
}

/// What a child is.
#[verifier::ext_equal]
pub enum NodeModel {
    Element(ElementModel),
    Text(Seq<char>),
}

/// The pairs, as sequences of characters.
pub open spec fn pairs_view(pairs: Seq<(String, String)>) -> Seq<Pair> {
    Seq::new(pairs.len(), |i: int| (pairs[i].0@, pairs[i].1@))
}

/// The element's model.
pub open spec fn element_view(element: Element) -> ElementModel
    decreases element,
{
    ElementModel {
        name: element.name@,
        namespaces: pairs_view(element.namespaces@),
        attributes: pairs_view(element.attributes@),
        children: nodes_view(element.children@),
    }
}

/// The models of a run of children.
pub open spec fn nodes_view(nodes: Seq<Node>) -> Seq<NodeModel>
    decreases nodes,
{
    Seq::new(
        nodes.len(),
        |i: int|
            if 0 <= i < nodes.len() {
                node_view(nodes[i])
            } else {
                arbitrary()
            },
    )
}

/// The child's model.
pub open spec fn node_view(node: Node) -> NodeModel
    decreases node,
{
    match node {
        Node::Element(element) => NodeModel::Element(element_view(element)),
        Node::Text(text) => NodeModel::Text(text@),
    }
}

impl View for Element {
    type V = ElementModel;

    open spec fn view(&self) -> ElementModel {
        element_view(*self)
    }
}

impl View for Node {
    type V = NodeModel;

    open spec fn view(&self) -> NodeModel {
        node_view(*self)
    }
}

/// A copy of a list of pairs.
pub fn copy_pairs(pairs: &[(String, String)]) -> (r: Vec<(String, String)>)
    ensures
        pairs_view(r@) == pairs_view(pairs@),
{
    let mut out: Vec<(String, String)> = Vec::new();
    let mut i: usize = 0;
    while i < pairs.len()
        invariant
            i <= pairs.len(),
            out.len() == i,
            forall|j: int|
                0 <= j < i ==> out@[j].0@ == pairs@[j].0@ && out@[j].1@ == pairs@[j].1@,
        decreases pairs.len() - i,
    {
        out.push((pairs[i].0.clone(), pairs[i].1.clone()));
        i += 1;
    }
    assert(pairs_view(out@) =~= pairs_view(pairs@));
    out
}

impl Clone for Element {
    fn clone(&self) -> (r: Self)
        ensures
            r@ == self@,
        decreases self,
    {
        let mut children: Vec<Node> = Vec::new();
        let mut i: usize = 0;
        while i < self.children.len()
            invariant
                i <= self.children.len(),
                children.len() == i,
                forall|j: int| 0 <= j < i ==> node_view(#[trigger] children@[j]) == node_view(self.children@[j]),
            decreases self.children.len() - i,
        {
            let child = match &self.children[i] {
                Node::Element(element) => Node::Element(element.clone()),
                Node::Text(text) => Node::Text(text.clone()),
            };
            children.push(child);
            i += 1;
        }
        assert(nodes_view(children@) =~= nodes_view(self.children@));
        Element {
            name: self.name.clone(),
            namespaces: copy_pairs(self.namespaces.as_slice()),
            attributes: copy_pairs(self.attributes.as_slice()),
            children,
        }
    }
}

impl Clone for Node {
    fn clone(&self) -> (r: Self)
        ensures
            r@ == self@,
    {
        match self {
            Node::Element(element) => Node::Element(element.clone()),
            Node::Text(text) => Node::Text(text.clone()),
        }
    }
}

/// The prefix of a qualified name: what stands before its first colon, or
/// nothing.
pub open spec fn prefix_of(name: Seq<char>) -> Seq<char> {
    match split_once(name, ':') {
        Some((prefix, _)) => prefix,
        None => Seq::empty(),
    }
}

/// The local part of a qualified name: what stands after its first colon, or
/// the whole of it.
pub open spec fn local_of(name: Seq<char>) -> Seq<char> {
    match split_once(name, ':') {
        Some((_, local)) => local,
        None => name,
    }
}

/// The value of the first pair with this name.
pub open spec fn lookup(pairs: Seq<Pair>, name: Seq<char>) -> Option<Seq<char>>
    decreases pairs.len(),
{
    if pairs.len() == 0 {
        None
    } else if pairs[0].0 == name {
        Some(pairs[0].1)
    } else {
        lookup(pairs.drop_first(), name)
    }
}

/// An attribute's value, or nothing where there is no such attribute.
pub open spec fn attribute_or_empty(element: ElementModel, name: Seq<char>) -> Seq<char> {
    match lookup(element.attributes, name) {
        Some(value) => value,
        None => Seq::empty(),
    }
}

/// The elements among the children, in order.
pub open spec fn child_elements(nodes: Seq<NodeModel>) -> Seq<ElementModel>
    decreases nodes.len(),
{
    if nodes.len() == 0 {
        Seq::empty()
    } else {
        match nodes.last() {
            NodeModel::Element(element) => child_elements(nodes.drop_last()).push(element),
            NodeModel::Text(_) => child_elements(nodes.drop_last()),
        }
    }
}

/// The elements of this local name among these, in order.
pub open spec fn with_local(elements: Seq<ElementModel>, local: Seq<char>) -> Seq<ElementModel> {
    elements.filter(|element: ElementModel| local_of(element.name) == local)
}

/// The models of a list of elements.
pub open spec fn models(elements: Seq<&Element>) -> Seq<ElementModel> {
    Seq::new(elements.len(), |i: int| elements[i]@)
}

/// The text among the children, joined.
pub open spec fn text_of(nodes: Seq<NodeModel>) -> Seq<char>
    decreases nodes.len(),
{
    if nodes.len() == 0 {
        Seq::empty()
    } else {
        match nodes.last() {
            NodeModel::Element(_) => text_of(nodes.drop_last()),
            NodeModel::Text(text) => text_of(nodes.drop_last()) + text,
        }
    }
}

/// The first element with this local name, depth first, the element itself
/// included.
pub open spec fn first_named(element: ElementModel, local: Seq<char>) -> Option<ElementModel>
    decreases element,
{
    if local_of(element.name) == local {
        Some(element)
    } else {
        first_among(element.children, local)
    }
}

/// The first element with this local name among the children and below them,
/// depth first.
pub open spec fn first_among(nodes: Seq<NodeModel>, local: Seq<char>) -> Option<ElementModel>
    decreases nodes,
{
    if nodes.len() == 0 {
        None
    } else {
        let here = match nodes[0] {
            NodeModel::Element(element) => first_named(element, local),
            NodeModel::Text(_) => None,
        };
        match here {
            Some(found) => Some(found),
            None => first_among(nodes.drop_first(), local),
        }
    }
}

/// How many elements have this local name, the element itself included.
pub open spec fn count_named(element: ElementModel, local: Seq<char>) -> nat
    decreases element,
{
    count_among(element.children, local) + if local_of(element.name) == local {
        1nat
    } else {
        0nat
    }
}

/// How many elements have this local name among the children and below them.
pub open spec fn count_among(nodes: Seq<NodeModel>, local: Seq<char>) -> nat
    decreases nodes,
{
    if nodes.len() == 0 {
        0
    } else {
        count_among(nodes.drop_first(), local) + match nodes[0] {
            NodeModel::Element(element) => count_named(element, local),
            NodeModel::Text(_) => 0nat,
        }
    }
}

/// A count, or two where it is more.
spec fn up_to_two(count: nat) -> nat {
    if count > 2 {
        2
    } else {
        count
    }
}

/// Whether the predicate answers, on every element, what `p` says of its model.
pub open spec fn decides<F: Fn(&Element) -> bool>(
    predicate: F,
    p: spec_fn(ElementModel) -> bool,
) -> bool {
    forall|element: &Element, answer: bool|
        call_ensures(predicate, (element,), answer) ==> answer == p(element@)
}

/// Where the first child element that meets `p` stands among the children.
pub open spec fn child_position(nodes: Seq<NodeModel>, p: spec_fn(ElementModel) -> bool) -> Option<
    int,
>
    decreases nodes.len(),
{
    if nodes.len() == 0 {
        None
    } else if nodes[0] matches NodeModel::Element(element) && p(element) {
        Some(0)
    } else {
        match child_position(nodes.drop_first(), p) {
            Some(at) => Some(at + 1),
            None => None,
        }
    }
}

/// The element with the first descendant that meets `p` taken out: its first
/// such child, or else the first such descendant of the first child that has
/// one. None where no descendant meets `p`.
pub open spec fn without_first(
    element: ElementModel,
    p: spec_fn(ElementModel) -> bool,
) -> Option<ElementModel>
    decreases element,
{
    match child_position(element.children, p) {
        Some(at) => Some(ElementModel { children: element.children.remove(at), ..element }),
        None => match without_first_below(element.children, p) {
            Some(children) => Some(ElementModel { children, ..element }),
            None => None,
        },
    }
}

/// The children with the first descendant that meets `p` taken out of the first
/// child that has one.
pub open spec fn without_first_below(
    nodes: Seq<NodeModel>,
    p: spec_fn(ElementModel) -> bool,
) -> Option<Seq<NodeModel>>
    decreases nodes,
{
    if nodes.len() == 0 {
        None
    } else {
        let here = match nodes[0] {
            NodeModel::Element(element) => without_first(element, p),
            NodeModel::Text(_) => None,
        };
        match here {
            Some(element) => Some(nodes.update(0, NodeModel::Element(element))),
            None => match without_first_below(nodes.drop_first(), p) {
                Some(rest) => Some(seq![nodes[0]] + rest),
                None => None,
            },
        }
    }
}

impl Element {
    /// This element's prefix, `saml` in `saml:Assertion`, or the empty
    /// string for a default-namespace or unprefixed name.
    #[must_use]
    pub fn prefix(&self) -> (r: &str)
        ensures
            r@ == prefix_of(self@.name),
    {
        match split_str(self.name.as_str(), ':') {
            Some((prefix, _)) => prefix,
            None => {
                let empty = "";
                proof {
                    reveal_strlit("");
                }
                assert(empty@ =~= Seq::<char>::empty());
                empty
            },
        }
    }

    /// The local name, `Assertion` in `saml:Assertion`.
    #[must_use]
    pub fn local(&self) -> (r: &str)
        ensures
            r@ == local_of(self@.name),
    {
        match split_str(self.name.as_str(), ':') {
            Some((_, local)) => local,
            None => self.name.as_str(),
        }
    }

    /// One attribute's value by qualified name.
    #[must_use]
    pub fn attribute(&self, name: &str) -> (r: Option<&str>)
        ensures
            match r {
                Some(value) => lookup(self@.attributes, name@) == Some(value@),
                None => lookup(self@.attributes, name@) is None,
            },
    {
        let ghost pairs = self@.attributes;
        let mut i: usize = 0;
        assert(pairs.skip(0) =~= pairs);
        while i < self.attributes.len()
            invariant
                i <= self.attributes.len(),
                pairs == pairs_view(self.attributes@),
                lookup(pairs.skip(i as int), name@) == lookup(pairs, name@),
            decreases self.attributes.len() - i,
        {
            if same(self.attributes[i].0.as_str(), name) {
                return Some(self.attributes[i].1.as_str());
            }
            assert(pairs.skip(i as int).drop_first() =~= pairs.skip(i + 1));
            i += 1;
        }
        None
    }

    /// An attribute's value, or nothing where there is no such attribute.
    pub fn attribute_text(&self, name: &str) -> (r: String)
        ensures
            r@ == attribute_or_empty(self@, name@),
    {
        match self.attribute(name) {
            Some(value) => value.to_owned(),
            None => String::new(),
        }
    }

    /// The child elements, text passed over.
    pub fn elements(&self) -> (r: Vec<&Element>)
        ensures
            r@.len() == child_elements(self@.children).len(),
            forall|i: int| 0 <= i < r@.len() ==> (#[trigger] r@[i])@ == child_elements(self@.children)[i],
    {
        let ghost nodes = self@.children;
        let mut out: Vec<&Element> = Vec::new();
        let mut i: usize = 0;
        while i < self.children.len()
            invariant
                i <= self.children.len(),
                nodes == nodes_view(self.children@),
                out.len() == child_elements(nodes.take(i as int)).len(),
                forall|j: int| 0 <= j < out.len() ==> (#[trigger] out@[j])@ == child_elements(nodes.take(i as int))[j],
            decreases self.children.len() - i,
        {
            assert(nodes.take(i + 1).drop_last() =~= nodes.take(i as int));
            assert(nodes[i as int] == node_view(self.children@[i as int]));
            if let Node::Element(element) = &self.children[i] {
                out.push(element);
            }
            i += 1;
        }
        assert(nodes.take(i as int) =~= nodes);
        out
    }

    /// The child elements of this local name, in order.
    pub fn children_named(&self, local: &str) -> (r: Vec<&Element>)
        ensures
            models(r@) == with_local(child_elements(self@.children), local@),
    {
        let ghost wanted = |child: ElementModel| local_of(child.name) == local@;
        let ghost all = child_elements(self@.children);
        let elements = self.elements();
        let mut out: Vec<&Element> = Vec::new();
        let mut i: usize = 0;
        assert(models(out@) =~= all.take(0).filter(wanted)) by {
            reveal(Seq::filter);
        }
        while i < elements.len()
            invariant
                i <= elements.len(),
                wanted == (|child: ElementModel| local_of(child.name) == local@),
                elements@.len() == all.len(),
                forall|j: int| 0 <= j < elements@.len() ==> (#[trigger] elements@[j])@ == all[j],
                models(out@) == all.take(i as int).filter(wanted),
            decreases elements.len() - i,
        {
            let ghost before = models(out@);
            proof {
                reveal(Seq::filter);
                assert(all.take(i + 1).drop_last() =~= all.take(i as int));
            }
            let child = elements[i];
            if same(child.local(), local) {
                out.push(child);
                assert(models(out@) =~= before.push(all[i as int]));
            }
            i += 1;
        }
        assert(all.take(i as int) =~= all);
        out
    }

    /// The first descendant with this local name, self included, depth first.
    #[must_use]
    pub fn find(&self, local: &str) -> (r: Option<&Element>)
        ensures
            match r {
                Some(found) => first_named(self@, local@) == Some(found@),
                None => first_named(self@, local@) is None,
            },
        decreases self,
    {
        if same(self.local(), local) {
            return Some(self);
        }
        let ghost nodes = self@.children;
        let mut i: usize = 0;
        assert(nodes.skip(0) =~= nodes);
        while i < self.children.len()
            invariant
                i <= self.children.len(),
                nodes == nodes_view(self.children@),
                first_among(nodes.skip(i as int), local@) == first_named(self@, local@),
            decreases self.children.len() - i,
        {
            assert(nodes.skip(i as int).drop_first() =~= nodes.skip(i + 1));
            assert(nodes.skip(i as int)[0] == node_view(self.children@[i as int]));
            if let Node::Element(element) = &self.children[i] {
                let found = element.find(local);
                if found.is_some() {
                    return found;
                }
            }
            i += 1;
        }
        None
    }

    /// Whether just one element has this local name, self included.
    #[must_use]
    pub fn single(&self, local: &str) -> (r: bool)
        ensures
            r == (count_named(self@, local@) == 1),
    {
        self.tally(local) == 1
    }

    /// How many elements have this local name, self included, counted up to two.
    fn tally(&self, local: &str) -> (r: u8)
        ensures
            r == up_to_two(count_named(self@, local@)),
        decreases self,
    {
        let ghost nodes = self@.children;
        let ghost all = count_named(self@, local@);
        let mut found: u8 = if same(self.local(), local) {
            1
        } else {
            0
        };
        let mut i: usize = 0;
        assert(nodes.skip(0) =~= nodes);
        while i < self.children.len()
            invariant
                i <= self.children.len(),
                nodes == nodes_view(self.children@),
                all == count_named(self@, local@),
                found <= 2,
                up_to_two(count_among(nodes.skip(i as int), local@) + found as nat) == up_to_two(all),
            decreases self.children.len() - i,
        {
            assert(nodes.skip(i as int).drop_first() =~= nodes.skip(i + 1));
            assert(nodes.skip(i as int)[0] == node_view(self.children@[i as int]));
            if let Node::Element(element) = &self.children[i] {
                let below = element.tally(local);
                found = if found + below > 2 {
                    2
                } else {
                    found + below
                };
            }
            i += 1;
        }
        found
    }

    /// The concatenated text directly inside this element.
    #[must_use]
    pub fn text(&self) -> (r: String)
        ensures
            r@ == text_of(self@.children),
    {
        let ghost nodes = self@.children;
        let mut out = String::new();
        let mut i: usize = 0;
        while i < self.children.len()
            invariant
                i <= self.children.len(),
                nodes == nodes_view(self.children@),
                out@ == text_of(nodes.take(i as int)),
            decreases self.children.len() - i,
        {
            assert(nodes.take(i + 1).drop_last() =~= nodes.take(i as int));
            assert(nodes[i as int] == node_view(self.children@[i as int]));
            if let Node::Text(text) = &self.children[i] {
                out.append(text.as_str());
            }
            i += 1;
        }
        assert(nodes.take(i as int) =~= nodes);
        out
    }

    /// Remove the first descendant element for which `predicate` holds; the
    /// enveloped-signature transform removes the `Signature`.
    pub fn remove_first(&mut self, predicate: &impl Fn(&Element) -> bool) -> (r: bool)
        requires
            forall|element: &Element| call_requires(*predicate, (element,)),
        ensures
            !r ==> final(self)@ == old(self)@,
            forall|p: spec_fn(ElementModel) -> bool|
                decides(*predicate, p) ==> match #[trigger] without_first(old(self)@, p) {
                    Some(rest) => r && final(self)@ == rest,
                    None => !r && final(self)@ == old(self)@,
                },
        decreases *old(self),
    {
        let ghost nodes = self@.children;
        let mut i: usize = 0;
        assert(nodes.skip(0) =~= nodes);
        while i < self.children.len()
            invariant
                i <= self.children.len(),
                *self == *old(self),
                nodes == nodes_view(self.children@),
                forall|element: &Element| call_requires(*predicate, (element,)),
                forall|p: spec_fn(ElementModel) -> bool|
                    decides(*predicate, p) ==> match child_position(nodes.skip(i as int), p) {
                        Some(at) => #[trigger] child_position(nodes, p) == Some(at + i),
                        None => child_position(nodes, p) is None,
                    },
            decreases self.children.len() - i,
        {
            assert(nodes.skip(i as int).drop_first() =~= nodes.skip(i + 1));
            assert(nodes.skip(i as int)[0] == node_view(self.children@[i as int]));
            if let Node::Element(element) = &self.children[i] {
                if predicate(element) {
                    self.children.remove(i);
                    assert(self@.children =~= nodes.remove(i as int));
                    return true;
                }
            }
            i += 1;
        }
        i = 0;
        while i < self.children.len()
            invariant
                i <= self.children.len(),
                self.children.len() == old(self).children.len(),
                self.name == old(self).name,
                self.namespaces == old(self).namespaces,
                self.attributes == old(self).attributes,
                nodes == old(self)@.children,
                nodes == nodes_view(self.children@),
                forall|j: int|
                    i <= j < self.children.len() ==> self.children@[j] == old(self).children@[j],
                forall|element: &Element| call_requires(*predicate, (element,)),
                forall|p: spec_fn(ElementModel) -> bool|
                    decides(*predicate, p) ==> #[trigger] child_position(nodes, p) is None,
                forall|p: spec_fn(ElementModel) -> bool|
                    decides(*predicate, p) ==> match without_first_below(nodes.skip(i as int), p) {
                        Some(rest) => #[trigger] without_first_below(nodes, p) == Some(
                            nodes.take(i as int) + rest,
                        ),
                        None => without_first_below(nodes, p) is None,
                    },
            decreases self.children.len() - i,
        {
            let ghost rest = nodes.skip(i as int);
            assert(rest.drop_first() =~= nodes.skip(i + 1));
            assert(rest[0] == node_view(self.children@[i as int]));
            let ghost before = self.children@;
            if let Node::Element(element) = &mut self.children[i] {
                if element.remove_first(predicate) {
                    proof {
                        assert forall|p: spec_fn(ElementModel) -> bool|
                            decides(*predicate, p) implies match #[trigger] without_first(
                            old(self)@,
                            p,
                        ) {
                            Some(left) => self@ == left,
                            None => false,
                        } by {
                            assert(without_first(element_view(before[i as int]->Element_0), p) is Some);
                            assert(child_position(nodes, p) is None);
                            assert(without_first_below(rest, p) is Some);
                            assert(self@.children =~= nodes.take(i as int) + without_first_below(
                                rest,
                                p,
                            )->0);
                            assert(without_first_below(nodes, p) == Some(self@.children));
                            assert(self@ =~= (ElementModel {
                                children: self@.children,
                                ..old(self)@
                            }));
                        }
                    }
                    return true;
                }
            }
            assert(nodes_view(self.children@) =~= nodes);
            proof {
                assert forall|p: spec_fn(ElementModel) -> bool|
                    decides(*predicate, p) implies match without_first_below(
                    nodes.skip(i + 1),
                    p,
                ) {
                    Some(left) => #[trigger] without_first_below(nodes, p) == Some(
                        nodes.take(i + 1) + left,
                    ),
                    None => without_first_below(nodes, p) is None,
                } by {
                    if let NodeModel::Element(element) = rest[0] {
                        assert(without_first(element, p) is None);
                    }
                    if let Some(left) = without_first_below(nodes.skip(i + 1), p) {
                        assert(nodes.take(i as int) + (seq![rest[0]] + left) =~= nodes.take(i + 1)
                            + left);
                    }
                }
            }
            i += 1;
        }
        assert(nodes.skip(i as int).len() == 0);
        proof {
            assert forall|p: spec_fn(ElementModel) -> bool|
                decides(*predicate, p) implies #[trigger] without_first(old(self)@, p) is None by {
                assert(child_position(nodes, p) is None);
                assert(without_first_below(nodes, p) is None);
            }
        }
        false
    }
}

} // verus!
