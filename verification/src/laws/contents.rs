//! Laws of what an element holds: its attributes by name, the elements among its
//! children, and its text.

use crate::xml::{
    attribute_or_empty, child_elements, local_of, lookup, models, text_of, with_local, Element,
    ElementModel, NodeModel, Pair,
};
use vstd::prelude::*;

verus! {

/// Whether this is the value of the first pair of that name.
pub open spec fn first_value(pairs: Seq<Pair>, name: Seq<char>, value: Seq<char>) -> bool {
    exists|i: int|
        0 <= i < pairs.len() && #[trigger] pairs[i] == (name, value) && forall|j: int|
            0 <= j < i ==> (#[trigger] pairs[j]).0 != name
}

/// Whether no pair has that name.
pub open spec fn absent(pairs: Seq<Pair>, name: Seq<char>) -> bool {
    forall|i: int| 0 <= i < pairs.len() ==> (#[trigger] pairs[i]).0 != name
}

/// Looking up a name gives the value of the first pair of that name, and none
/// only where no pair has it.
pub proof fn looking_up_gives_the_first(pairs: Seq<Pair>, name: Seq<char>)
    ensures
        match lookup(pairs, name) {
            Some(value) => first_value(pairs, name, value),
            None => absent(pairs, name),
        },
        forall|value: Seq<char>| #[trigger]
            first_value(pairs, name, value) ==> lookup(pairs, name) == Some(value),
        absent(pairs, name) ==> lookup(pairs, name) is None,
    decreases pairs.len(),
{
    if pairs.len() > 0 {
        let rest = pairs.drop_first();
        looking_up_gives_the_first(rest, name);
        if pairs[0].0 == name {
            assert(pairs[0] == (name, pairs[0].1));
        } else {
            match lookup(rest, name) {
                Some(value) => {
                    let i = choose|i: int|
                        0 <= i < rest.len() && #[trigger] rest[i] == (name, value) && forall|j: int|
                            0 <= j < i ==> (#[trigger] rest[j]).0 != name;
                    assert(pairs[i + 1] == (name, value));
                    assert forall|j: int| 0 <= j < i + 1 implies (#[trigger] pairs[j]).0 != name by {
                        if j > 0 {
                            assert(rest[j - 1] == pairs[j]);
                        }
                    }
                },
                None => {
                    assert forall|j: int| 0 <= j < pairs.len() implies (#[trigger] pairs[j]).0
                        != name by {
                        if j > 0 {
                            assert(rest[j - 1] == pairs[j]);
                        }
                    }
                },
            }
        }
        assert forall|value: Seq<char>| #[trigger]
            first_value(pairs, name, value) implies lookup(pairs, name) == Some(value) by {
            let i = choose|i: int|
                0 <= i < pairs.len() && #[trigger] pairs[i] == (name, value) && forall|j: int|
                    0 <= j < i ==> (#[trigger] pairs[j]).0 != name;
            if i > 0 {
                assert(pairs[0].0 != name);
                assert(rest[i - 1] == (name, value));
                assert forall|j: int| 0 <= j < i - 1 implies (#[trigger] rest[j]).0 != name by {
                    assert(pairs[j + 1] == rest[j]);
                }
                assert(first_value(rest, name, value));
            }
        }
        if absent(pairs, name) {
            assert(pairs[0].0 != name);
            assert forall|j: int| 0 <= j < rest.len() implies (#[trigger] rest[j]).0 != name by {
                assert(pairs[j + 1] == rest[j]);
            }
        }
    }
}

/// What `attribute` gives is the value of the first attribute of that name.
pub proof fn an_attribute_is_the_first_of_its_name(
    element: &Element,
    name: &str,
    r: Option<&str>,
    value: Seq<char>,
)
    requires
        call_ensures(Element::attribute, (element, name), r),
    ensures
        first_value(element@.attributes, name@, value) ==> (r matches Some(given) && given@
            == value),
        absent(element@.attributes, name@) ==> r is None,
        r is None ==> absent(element@.attributes, name@),
{
    looking_up_gives_the_first(element@.attributes, name@);
}

/// What `attribute_text` gives is that value, or nothing where there is none.
pub proof fn the_text_of_an_attribute_is_its_value(
    element: &Element,
    name: &str,
    r: String,
    value: Seq<char>,
)
    requires
        call_ensures(Element::attribute_text, (element, name), r),
    ensures
        first_value(element@.attributes, name@, value) ==> r@ == value,
        absent(element@.attributes, name@) ==> r@.len() == 0,
{
    looking_up_gives_the_first(element@.attributes, name@);
    assert(r@ == attribute_or_empty(element@, name@));
}

/// The elements among children are those of the first part, then those of the
/// second; a run of text is none, and an element is one.
pub proof fn elements_keep_their_order(a: Seq<NodeModel>, b: Seq<NodeModel>)
    ensures
        child_elements(a + b) == child_elements(a) + child_elements(b),
        a.len() == 1 ==> child_elements(a) == match a[0] {
            NodeModel::Element(element) => seq![element],
            NodeModel::Text(_) => Seq::empty(),
        },
    decreases b.len(),
{
    if b.len() == 0 {
        assert(a + b =~= a);
        assert(child_elements(a) + child_elements(b) =~= child_elements(a));
    } else {
        elements_keep_their_order(a, b.drop_last());
        assert((a + b).drop_last() =~= a + b.drop_last());
        assert((a + b).last() == b.last());
        assert(child_elements(a + b) =~= child_elements(a) + child_elements(b));
    }
    if a.len() == 1 {
        assert(a.drop_last() =~= Seq::empty());
        assert(child_elements(Seq::<NodeModel>::empty()) =~= Seq::empty());
        if let NodeModel::Element(element) = a[0] {
            assert(child_elements(a) =~= seq![element]);
        }
    }
}

/// The text of children is that of the first part, then that of the second; a
/// run of text is itself, and an element has none in it.
pub proof fn text_is_joined_in_order(a: Seq<NodeModel>, b: Seq<NodeModel>)
    ensures
        text_of(a + b) == text_of(a) + text_of(b),
        a.len() == 1 ==> text_of(a) == match a[0] {
            NodeModel::Element(_) => Seq::empty(),
            NodeModel::Text(text) => text,
        },
    decreases b.len(),
{
    if b.len() == 0 {
        assert(a + b =~= a);
        assert(text_of(a) + text_of(b) =~= text_of(a));
    } else {
        text_is_joined_in_order(a, b.drop_last());
        assert((a + b).drop_last() =~= a + b.drop_last());
        assert((a + b).last() == b.last());
        assert(text_of(a + b) =~= text_of(a) + text_of(b));
    }
    if a.len() == 1 {
        assert(a.drop_last() =~= Seq::empty());
        assert(text_of(Seq::<NodeModel>::empty()) =~= Seq::empty());
        if let NodeModel::Text(text) = a[0] {
            assert(text_of(a) =~= text);
        }
    }
}

/// The text of an element without text is empty, and that of one whose children
/// are one run of text is that run.
pub proof fn the_text_of_an_element(element: &Element, r: String, a: Seq<NodeModel>, b: Seq<NodeModel>)
    requires
        call_ensures(Element::text, (element,), r),
        element@.children == a + b,
    ensures
        r@ == text_of(a) + text_of(b),
        a.len() == 0 && b.len() == 0 ==> r@.len() == 0,
        a.len() == 1 && b.len() == 0 && a[0] is Text ==> r@ == a[0]->Text_0,
{
    text_is_joined_in_order(a, b);
    if b.len() == 0 {
        assert(text_of(a) + text_of(b) =~= text_of(a));
    }
}

/// The elements of a local name are those of the first part, then those of the
/// second; of one element, it where it has the name.
pub proof fn a_local_name_keeps_the_order(
    a: Seq<ElementModel>,
    b: Seq<ElementModel>,
    local: Seq<char>,
)
    ensures
        with_local(a + b, local) == with_local(a, local) + with_local(b, local),
        a.len() == 1 ==> with_local(a, local) == if local_of(a[0].name) == local {
            a
        } else {
            Seq::empty()
        },
        with_local(Seq::empty(), local).len() == 0,
    decreases b.len(),
{
    reveal(Seq::filter);
    let p = |element: ElementModel| local_of(element.name) == local;
    if b.len() == 0 {
        assert(a + b =~= a);
        assert(with_local(a, local) + with_local(b, local) =~= with_local(a, local));
    } else {
        a_local_name_keeps_the_order(a, b.drop_last(), local);
        assert((a + b).drop_last() =~= a + b.drop_last());
        assert((a + b).last() == b.last());
        assert((a + b).filter(p) =~= a.filter(p) + b.filter(p));
    }
    if a.len() == 1 {
        assert(a.drop_last() =~= Seq::empty());
        assert(a.drop_last().filter(p) =~= Seq::empty());
        if p(a[0]) {
            assert(a.filter(p) =~= a);
        }
    }
}

/// The elements of a local name among the children of an element are, wherever
/// its children are parted, those before, then those after; a child that has the
/// name stands between.
pub proof fn children_of_a_name_stand_in_order(
    before: Seq<NodeModel>,
    child: ElementModel,
    after: Seq<NodeModel>,
    local: Seq<char>,
)
    ensures
        with_local(child_elements(before + seq![NodeModel::Element(child)] + after), local)
            == with_local(child_elements(before), local) + (if local_of(child.name) == local {
            seq![child]
        } else {
            Seq::empty()
        }) + with_local(child_elements(after), local),
{
    let one = seq![NodeModel::Element(child)];
    elements_keep_their_order(before + one, after);
    elements_keep_their_order(before, one);
    elements_keep_their_order(one, after);
    a_local_name_keeps_the_order(
        child_elements(before) + seq![child],
        child_elements(after),
        local,
    );
    a_local_name_keeps_the_order(child_elements(before), seq![child], local);
    a_local_name_keeps_the_order(seq![child], child_elements(after), local);
}

/// What `elements` and `children_named` give are the elements among the children
/// and those of the local name, in order, wherever the children are parted.
pub proof fn children_are_given_in_order(
    element: &Element,
    all: Vec<&Element>,
    named: Vec<&Element>,
    local: &str,
    before: Seq<NodeModel>,
    child: ElementModel,
    after: Seq<NodeModel>,
)
    requires
        call_ensures(Element::elements, (element,), all),
        call_ensures(Element::children_named, (element, local), named),
        element@.children == before + seq![NodeModel::Element(child)] + after,
    ensures
        models(all@) == child_elements(before) + seq![child] + child_elements(after),
        models(named@) == with_local(child_elements(before), local@) + (if local_of(child.name)
            == local@ {
            seq![child]
        } else {
            Seq::empty()
        }) + with_local(child_elements(after), local@),
{
    let one = seq![NodeModel::Element(child)];
    elements_keep_their_order(before + one, after);
    elements_keep_their_order(before, one);
    elements_keep_their_order(one, after);
    children_of_a_name_stand_in_order(before, child, after, local@);
}

} // verus!
