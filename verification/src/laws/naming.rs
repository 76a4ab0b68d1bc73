//! Laws of the account: which names are asked of, what the account is read from,
//! and when it is the one expected.

use crate::conditions::{name_id_of, text_or_empty, text_view};
use crate::error::{meets, AuthenticateError};
use crate::laws::checking::{lemma_subject, names_subject};
use crate::laws::contents::{
    a_local_name_keeps_the_order, absent, children_of_a_name_stand_in_order,
    elements_keep_their_order, first_value, looking_up_gives_the_first,
};
use crate::laws::paths::{bears, found_is_the_first, is_first, reached};
use crate::principal::{
    account_read, attribute_names, attributes_of, check_principal, chosen_value, compares,
    decide_principal, first_said, format_of, names_of_attributes, principal_checked,
    principal_verdict, reads, says, slice_view, value_of_attribute,
};
use crate::text::strings_view;
use crate::xml::{
    attribute_or_empty, child_elements, first_named, local_of, lookup, text_of, with_local, Element,
    ElementModel, NodeModel, Pair,
};
use vstd::prelude::*;

verus! {

/// Whether this is the value of the first pair of that name, and nothing where no
/// pair has it.
pub open spec fn value_or_nothing(pairs: Seq<Pair>, name: Seq<char>, value: Seq<char>) -> bool {
    first_value(pairs, name, value) || (absent(pairs, name) && value.len() == 0)
}

/// Whether this is the text of the first element of a local name in another, or
/// none where there is none.
pub open spec fn text_if_any(
    element: ElementModel,
    local: Seq<char>,
    text: Option<Seq<char>>,
) -> bool {
    ||| exists|path: Seq<int>| #[trigger] is_first(element, path, local) && text == Some(
        text_of(reached(element, path)->Some_0.children),
    )
    ||| text is None && forall|path: Seq<int>| !#[trigger] bears(element, path, local)
}

/// A value or nothing is what is looked up.
pub proof fn lemma_value(element: ElementModel, name: Seq<char>, value: Seq<char>)
    ensures
        value_or_nothing(element.attributes, name, value) <==> value == attribute_or_empty(
            element,
            name,
        ),
{
    looking_up_gives_the_first(element.attributes, name);
    if value.len() == 0 {
        assert(value =~= Seq::empty());
    }
    if first_value(element.attributes, name, value) && absent(element.attributes, name) {
        assert(lookup(element.attributes, name) is None);
    }
}

/// The text if any is that of what is found.
pub proof fn lemma_text_if_any(element: ElementModel, local: Seq<char>, text: Option<Seq<char>>)
    ensures
        text_if_any(element, local, text) <==> text == match first_named(element, local) {
            Some(found) => Some(text_of(found.children)),
            None => None,
        },
{
    found_is_the_first(element, local);
    if first_named(element, local) is Some {
        let path = choose|path: Seq<int>| #[trigger] is_first(element, path, local);
        assert(bears(element, path, local));
    } else {
        assert forall|path: Seq<int>| !#[trigger] is_first(element, path, local) by {
            assert(!bears(element, path, local));
        }
    }
}

/// Of the first `AttributeStatement` of an assertion, every `Attribute` among its
/// children is asked of in its turn, by the value of its attribute `Name` and by
/// nothing else of it.
pub proof fn attributes_are_asked_of_by_their_names(
    assertion: &Element,
    r: Vec<String>,
    path: Seq<int>,
    before: Seq<NodeModel>,
    attribute: ElementModel,
    later: Seq<NodeModel>,
    name: Seq<char>,
)
    requires
        call_ensures(names_of_attributes, (assertion,), r),
        is_first(assertion@, path, "AttributeStatement"@),
        reached(assertion@, path)->Some_0.children == before + seq![NodeModel::Element(attribute)]
            + later,
        local_of(attribute.name) == "Attribute"@,
        value_or_nothing(attribute.attributes, "Name"@, name),
    ensures
        ({
            let place = with_local(child_elements(before), "Attribute"@).len();
            r@.len() == place + 1 + with_local(child_elements(later), "Attribute"@).len()
                && r@[place as int]@ == name
        }),
{
    lemma_place(assertion@, path, before, attribute, later);
    lemma_value(attribute, "Name"@, name);
    let place = with_local(child_elements(before), "Attribute"@).len();
    assert(strings_view(r@).len() == attributes_of(assertion@).len());
    assert(strings_view(r@)[place as int] == name);
}

/// An assertion without an `AttributeStatement` has no attributes to ask of.
pub proof fn without_a_statement_nothing_is_asked(assertion: &Element, r: Vec<String>)
    requires
        call_ensures(names_of_attributes, (assertion,), r),
        forall|path: Seq<int>| !#[trigger] bears(assertion@, path, "AttributeStatement"@),
    ensures
        r@.len() == 0,
{
    lemma_no_statement(assertion@);
    assert(strings_view(r@).len() == 0);
}

/// Without a statement there are no attributes.
proof fn lemma_no_statement(assertion: ElementModel)
    requires
        forall|path: Seq<int>| !#[trigger] bears(assertion, path, "AttributeStatement"@),
    ensures
        attributes_of(assertion).len() == 0,
{
    found_is_the_first(assertion, "AttributeStatement"@);
    if first_named(assertion, "AttributeStatement"@) is Some {
        let path = choose|path: Seq<int>| #[trigger]
            is_first(assertion, path, "AttributeStatement"@);
        assert(bears(assertion, path, "AttributeStatement"@));
    }
}

/// An attribute stands after as many as come before it.
proof fn lemma_place(
    assertion: ElementModel,
    path: Seq<int>,
    before: Seq<NodeModel>,
    attribute: ElementModel,
    later: Seq<NodeModel>,
)
    requires
        is_first(assertion, path, "AttributeStatement"@),
        reached(assertion, path)->Some_0.children == before + seq![NodeModel::Element(attribute)]
            + later,
        local_of(attribute.name) == "Attribute"@,
    ensures
        ({
            let place = with_local(child_elements(before), "Attribute"@).len();
            attributes_of(assertion).len() == place + 1 + with_local(
                child_elements(later),
                "Attribute"@,
            ).len() && attributes_of(assertion)[place as int] == attribute && attributes_of(
                assertion,
            ).take(place as int) == with_local(child_elements(before), "Attribute"@)
        }),
{
    found_is_the_first(assertion, "AttributeStatement"@);
    assert(bears(assertion, path, "AttributeStatement"@));
    children_of_a_name_stand_in_order(before, attribute, later, "Attribute"@);
    let first = with_local(child_elements(before), "Attribute"@);
    assert(attributes_of(assertion).take(first.len() as int) =~= first);
}

/// The value of an attribute is the text of its first `AttributeValue`.
pub proof fn the_value_of_an_attribute_is_its_first(
    assertion: &Element,
    chosen: usize,
    r: Option<String>,
    path: Seq<int>,
    before: Seq<NodeModel>,
    attribute: ElementModel,
    later: Seq<NodeModel>,
    value: Option<Seq<char>>,
)
    requires
        call_ensures(value_of_attribute, (assertion, Some(chosen)), r),
        is_first(assertion@, path, "AttributeStatement"@),
        reached(assertion@, path)->Some_0.children == before + seq![NodeModel::Element(attribute)]
            + later,
        local_of(attribute.name) == "Attribute"@,
        chosen == with_local(child_elements(before), "Attribute"@).len(),
        text_if_any(attribute, "AttributeValue"@, value),
    ensures
        text_view(r) == value,
{
    lemma_place(assertion@, path, before, attribute, later);
    lemma_text_if_any(attribute, "AttributeValue"@, value);
}

/// Whether the predicate was asked of this text and answered so.
pub open spec fn answered<F: Fn(&str) -> bool>(
    predicate: F,
    text: Seq<char>,
    answer: bool,
) -> bool {
    exists|asked: &str| asked@ == text && #[trigger] call_ensures(predicate, (asked,), answer)
}

/// Whether the predicate answered this of the name of an attribute.
pub open spec fn answered_of<F: Fn(&str) -> bool>(
    predicate: F,
    attribute: ElementModel,
    answer: bool,
) -> bool {
    exists|name: Seq<char>| #[trigger]
        value_or_nothing(attribute.attributes, "Name"@, name) && answered(predicate, name, answer)
}

/// Whether the predicate said no to every attribute among these children.
pub open spec fn all_denied<F: Fn(&str) -> bool>(predicate: F, nodes: Seq<NodeModel>) -> bool {
    forall|i: int|
        0 <= i < nodes.len() ==> (#[trigger] nodes[i] matches NodeModel::Element(attribute) ==> (
        local_of(attribute.name) == "Attribute"@ ==> answered_of(predicate, attribute, false)))
}

/// Whether this is the user principal name among the attributes of an assertion:
/// the text of the first value of the first attribute in its statement to whose
/// name the predicate said yes, and none where it said yes to none.
pub open spec fn carries_upn<F: Fn(&str) -> bool>(
    assertion: ElementModel,
    predicate: F,
    upn: Option<Seq<char>>,
) -> bool {
    ||| exists|
        path: Seq<int>,
        before: Seq<NodeModel>,
        attribute: ElementModel,
        later: Seq<NodeModel>,
    |
        is_first(assertion, path, "AttributeStatement"@) && #[trigger] reached(
            assertion,
            path,
        )->Some_0.children == #[trigger] (before + seq![NodeModel::Element(attribute)] + later)
            && local_of(attribute.name) == "Attribute"@ && answered_of(predicate, attribute, true)
            && all_denied(predicate, before) && text_if_any(attribute, "AttributeValue"@, upn)
    ||| upn is None && exists|path: Seq<int>| #[trigger]
        is_first(assertion, path, "AttributeStatement"@) && all_denied(
            predicate,
            reached(assertion, path)->Some_0.children,
        )
    ||| upn is None && forall|path: Seq<int>| !#[trigger]
        bears(assertion, path, "AttributeStatement"@)
}

/// Whether this is the format an assertion gives of its subject: the attribute
/// `Format` of the first `NameID` in its first `Subject`.
pub open spec fn gives_format(assertion: ElementModel, format: Option<Seq<char>>) -> bool {
    ||| exists|path: Seq<int>, below: Seq<int>|
        #![trigger is_first(assertion, path, "Subject"@), is_first(reached(assertion, path)->Some_0, below, "NameID"@)]
        is_first(assertion, path, "Subject"@) && is_first(
            reached(assertion, path)->Some_0,
            below,
            "NameID"@,
        ) && match format {
            Some(value) => first_value(
                reached(reached(assertion, path)->Some_0, below)->Some_0.attributes,
                "Format"@,
                value,
            ),
            None => absent(
                reached(reached(assertion, path)->Some_0, below)->Some_0.attributes,
                "Format"@,
            ),
        }
    ||| format is None && exists|path: Seq<int>| #[trigger]
        is_first(assertion, path, "Subject"@) && forall|below: Seq<int>| !#[trigger]
            bears(reached(assertion, path)->Some_0, below, "NameID"@)
    ||| format is None && forall|path: Seq<int>| !#[trigger] bears(assertion, path, "Subject"@)
}

/// The format given is that of the `NameID` that is looked for.
proof fn lemma_format(assertion: ElementModel)
    ensures
        gives_format(assertion, format_of(assertion)),
{
    found_is_the_first(assertion, "Subject"@);
    if let Some(subject) = first_named(assertion, "Subject"@) {
        let path = choose|path: Seq<int>| #[trigger] is_first(assertion, path, "Subject"@);
        assert(bears(assertion, path, "Subject"@));
        assert(reached(assertion, path) == Some(subject));
        found_is_the_first(subject, "NameID"@);
        if let Some(id) = first_named(subject, "NameID"@) {
            let below = choose|below: Seq<int>| #[trigger] is_first(subject, below, "NameID"@);
            assert(bears(subject, below, "NameID"@));
            looking_up_gives_the_first(id.attributes, "Format"@);
            assert(is_first(reached(assertion, path)->Some_0, below, "NameID"@));
        } else {
            assert(is_first(assertion, path, "Subject"@));
        }
    }
}

/// The predicate answered of an attribute what it said of its name.
proof fn lemma_answered<F: Fn(&str) -> bool>(predicate: F, attribute: ElementModel, answer: bool)
    requires
        says(predicate, attribute_or_empty(attribute, "Name"@), answer),
    ensures
        answered_of(predicate, attribute, answer),
{
    let name = attribute_or_empty(attribute, "Name"@);
    lemma_value(attribute, "Name"@, name);
    assert(value_or_nothing(attribute.attributes, "Name"@, name));
    assert(answered(predicate, name, answer));
}

/// Where the predicate said no to all of some children's attributes, it denied
/// them.
proof fn lemma_denied<F: Fn(&str) -> bool>(predicate: F, nodes: Seq<NodeModel>)
    requires
        forall|k: int|
            0 <= k < with_local(child_elements(nodes), "Attribute"@).len() ==> says(
                predicate,
                attribute_or_empty(
                    #[trigger] with_local(child_elements(nodes), "Attribute"@)[k],
                    "Name"@,
                ),
                false,
            ),
    ensures
        all_denied(predicate, nodes),
{
    assert forall|i: int| 0 <= i < nodes.len() implies (#[trigger] nodes[i] matches NodeModel::Element(
        attribute,
    ) ==> (local_of(attribute.name) == "Attribute"@ ==> answered_of(
        predicate,
        attribute,
        false,
    ))) by {
        if let NodeModel::Element(attribute) = nodes[i] {
            if local_of(attribute.name) == "Attribute"@ {
                let before = nodes.take(i);
                let later = nodes.skip(i + 1);
                assert(nodes =~= before + seq![NodeModel::Element(attribute)] + later);
                children_of_a_name_stand_in_order(before, attribute, later, "Attribute"@);
                let k = with_local(child_elements(before), "Attribute"@).len() as int;
                assert(with_local(child_elements(nodes), "Attribute"@)[k] == attribute);
                lemma_answered(predicate, attribute, false);
            }
        }
    }
}

/// Where the attribute of a place among the children's stands.
proof fn lemma_where(nodes: Seq<NodeModel>, place: int) -> (at: int)
    requires
        0 <= place < with_local(child_elements(nodes), "Attribute"@).len(),
    ensures
        0 <= at < nodes.len(),
        nodes[at] matches NodeModel::Element(attribute) && local_of(attribute.name)
            == "Attribute"@ && with_local(child_elements(nodes), "Attribute"@)[place]
            == attribute && with_local(child_elements(nodes.take(at)), "Attribute"@)
            == with_local(child_elements(nodes), "Attribute"@).take(place),
    decreases nodes.len(),
{
    if nodes.len() == 0 {
        a_local_name_keeps_the_order(Seq::empty(), Seq::empty(), "Attribute"@);
        assert(child_elements(nodes) =~= Seq::empty());
        0
    } else {
        let before = nodes.drop_last();
        let last = seq![nodes.last()];
        let first = with_local(child_elements(before), "Attribute"@);
        assert(nodes =~= before + last);
        elements_keep_their_order(before, last);
        elements_keep_their_order(last, Seq::empty());
        a_local_name_keeps_the_order(child_elements(before), child_elements(last), "Attribute"@);
        a_local_name_keeps_the_order(child_elements(last), Seq::empty(), "Attribute"@);
        let all = with_local(child_elements(nodes), "Attribute"@);
        if child_elements(last).len() == 0 {
            assert(child_elements(last) =~= Seq::empty());
        }
        if place < first.len() {
            let at = lemma_where(before, place);
            assert(before.take(at) =~= nodes.take(at));
            assert(first.take(place) =~= all.take(place));
            at
        } else {
            assert(nodes.take(nodes.len() - 1) =~= before);
            assert(all.take(place) =~= first);
            nodes.len() - 1
        }
    }
}

/// The value chosen is the user principal name the assertion carries.
proof fn lemma_carries<F: Fn(&str) -> bool>(
    assertion: ElementModel,
    predicate: F,
    chosen: Option<int>,
)
    requires
        first_said(predicate, attribute_names(assertion), chosen),
    ensures
        carries_upn(assertion, predicate, chosen_value(assertion, chosen)),
{
    found_is_the_first(assertion, "AttributeStatement"@);
    let all = attributes_of(assertion);
    let names = attribute_names(assertion);
    assert forall|k: int| 0 <= k < all.len() implies #[trigger] names[k] == attribute_or_empty(
        all[k],
        "Name"@,
    ) by {
    }
    if let Some(statement) = first_named(assertion, "AttributeStatement"@) {
        let path = choose|path: Seq<int>| #[trigger]
            is_first(assertion, path, "AttributeStatement"@);
        assert(bears(assertion, path, "AttributeStatement"@));
        assert(reached(assertion, path) == Some(statement));
        let nodes = statement.children;
        match chosen {
            Some(place) => {
                let at = lemma_where(nodes, place);
                let attribute = nodes[at]->Element_0;
                let before = nodes.take(at);
                let later = nodes.skip(at + 1);
                assert(nodes =~= before + seq![NodeModel::Element(attribute)] + later);
                assert(names[place] == attribute_or_empty(attribute, "Name"@));
                lemma_answered(predicate, attribute, true);
                assert forall|k: int|
                    0 <= k < with_local(child_elements(before), "Attribute"@).len() implies says(
                    predicate,
                    attribute_or_empty(
                        #[trigger] with_local(child_elements(before), "Attribute"@)[k],
                        "Name"@,
                    ),
                    false,
                ) by {
                    assert(all[k] == all.take(place)[k]);
                    assert(says(predicate, names[k], false));
                }
                lemma_denied(predicate, before);
                lemma_text_if_any(
                    attribute,
                    "AttributeValue"@,
                    chosen_value(assertion, chosen),
                );
                assert(reached(assertion, path)->Some_0.children == before + seq![
                    NodeModel::Element(attribute),
                ] + later);
            },
            None => {
                assert forall|k: int|
                    0 <= k < with_local(child_elements(nodes), "Attribute"@).len() implies says(
                    predicate,
                    attribute_or_empty(
                        #[trigger] with_local(child_elements(nodes), "Attribute"@)[k],
                        "Name"@,
                    ),
                    false,
                ) by {
                    assert(says(predicate, names[k], false));
                }
                lemma_denied(predicate, nodes);
                assert(is_first(assertion, path, "AttributeStatement"@));
            },
        }
    }
}

/// Whether an optional text is this.
pub open spec fn is_text(text: Option<&str>, is: Option<Seq<char>>) -> bool {
    match (text, is) {
        (Some(text), Some(is)) => text@ == is,
        (None, None) => true,
        _ => false,
    }
}

/// Whether this is what was answered of the account of an assertion. It was read
/// from the subject the assertion names, the format it gives of that, and the
/// user principal name it carries; and what was read, if anything was, was
/// compared with the account expected.
pub open spec fn account_asked<
    U: Fn(&str) -> bool,
    P: Fn(&str, Option<&str>, Option<&str>) -> Option<String>,
    S: Fn(&str, &str) -> bool,
>(
    assertion: ElementModel,
    expected: Seq<char>,
    is_upn: U,
    user_principal: P,
    same_account: S,
    named: Option<Seq<char>>,
    agrees: bool,
) -> bool {
    &&& exists|
        subject: &str,
        format: Option<&str>,
        upn: Option<&str>,
        answer: Option<String>,
        stated: Option<Seq<char>>,
        carried: Option<Seq<char>>,
    |
        names_subject(assertion, subject@) && #[trigger] gives_format(assertion, stated) && is_text(
            format,
            stated,
        ) && #[trigger] carries_upn(assertion, is_upn, carried) && is_text(upn, carried)
            && #[trigger] call_ensures(user_principal, (subject, format, upn), answer) && match (
        answer, named) {
            (Some(answer), Some(named)) => answer@ == named,
            (None, None) => true,
            _ => false,
        }
    &&& named matches Some(spelling) ==> exists|a: &str, b: &str|
        a@ == spelling && b@ == expected && #[trigger] call_ensures(same_account, (a, b), agrees)
}

/// What was answered of an account was asked of what the assertion says.
pub proof fn the_account_is_read_from_the_assertion<
    U: Fn(&str) -> bool,
    P: Fn(&str, Option<&str>, Option<&str>) -> Option<String>,
    S: Fn(&str, &str) -> bool,
>(
    assertion: ElementModel,
    expected: Seq<char>,
    is_upn: U,
    user_principal: P,
    same_account: S,
    named: Option<Seq<char>>,
    agrees: bool,
)
    requires
        account_read(assertion, expected, is_upn, user_principal, same_account, named, agrees),
    ensures
        account_asked(assertion, expected, is_upn, user_principal, same_account, named, agrees),
{
    let chosen = choose|chosen: Option<int>|
        first_said(is_upn, attribute_names(assertion), chosen) && reads(
            user_principal,
            text_or_empty(name_id_of(assertion)),
            format_of(assertion),
            #[trigger] chosen_value(assertion, chosen),
            named,
        ) && compares(same_account, named, expected, agrees);
    lemma_carries(assertion, is_upn, chosen);
    lemma_format(assertion);
    lemma_subject(assertion, text_or_empty(name_id_of(assertion)));
    let (a, b, c, answer) = choose|a: &str, b: Option<&str>, c: Option<&str>, answer: Option<String>|
        a@ == text_or_empty(name_id_of(assertion)) && slice_view(b) == format_of(
            assertion,
        ) && slice_view(c) == chosen_value(assertion, chosen)
            && #[trigger] call_ensures(user_principal, (a, b, c), answer) && text_view(answer)
            == named;
    assert(is_text(b, format_of(assertion)));
    assert(is_text(c, chosen_value(assertion, chosen)));
    assert(gives_format(assertion, format_of(assertion)));
    assert(carries_upn(assertion, is_upn, chosen_value(assertion, chosen)));
    assert(call_ensures(user_principal, (a, b, c), answer));
}

/// Where no account is expected none is asked for, and any assertion passes.
/// Where one is, an assertion passes exactly where the account read from it was
/// said to be the one expected; one that names another, or none, is refused in
/// words that name what is expected.
pub proof fn the_account_is_the_one_expected<
    U: Fn(&str) -> bool,
    P: Fn(&str, Option<&str>, Option<&str>) -> Option<String>,
    S: Fn(&str, &str) -> bool,
>(
    assertion: ElementModel,
    expected: Option<Seq<char>>,
    is_upn: U,
    user_principal: P,
    same_account: S,
    r: Result<(), AuthenticateError>,
)
    requires
        principal_checked(assertion, expected, is_upn, user_principal, same_account, r),
    ensures
        expected is None ==> r is Ok,
        expected matches Some(account) ==> exists|named: Option<Seq<char>>, agrees: bool|
            #[trigger] account_asked(
                assertion,
                account,
                is_upn,
                user_principal,
                same_account,
                named,
                agrees,
            ) && (r is Ok <==> named is Some && agrees) && (r matches Err(refusal)
                ==> refusal.message@ == match named {
                Some(spelling) => "the assertion names '"@ + spelling
                    + "' and this node expects '"@ + account + "'"@,
                None =>
                    "the assertion carries no user principal name, as its NameID or as a upn attribute, and this node expects '"@
                    + account + "'"@,
            }),
{
    if let Some(account) = expected {
        let (named, agrees) = choose|named: Option<Seq<char>>, agrees: bool|
            account_read(
                assertion,
                account,
                is_upn,
                user_principal,
                same_account,
                named,
                agrees,
            ) && meets(r, #[trigger] principal_verdict(account, named, agrees));
        the_account_is_read_from_the_assertion(
            assertion,
            account,
            is_upn,
            user_principal,
            same_account,
            named,
            agrees,
        );
        assert(account_asked(
            assertion,
            account,
            is_upn,
            user_principal,
            same_account,
            named,
            agrees,
        ));
    }
}

/// So it is where an assertion is checked.
pub proof fn checking_the_account_asks_for_the_one_expected<
    U: Fn(&str) -> bool,
    P: Fn(&str, Option<&str>, Option<&str>) -> Option<String>,
    S: Fn(&str, &str) -> bool,
>(
    assertion: &Element,
    expected: &Option<String>,
    is_upn: &U,
    user_principal: &P,
    same_account: &S,
    r: Result<(), AuthenticateError>,
)
    requires
        call_ensures(
            check_principal,
            (assertion, expected, is_upn, user_principal, same_account),
            r,
        ),
    ensures
        expected is None ==> r is Ok,
        expected matches Some(account) ==> exists|named: Option<Seq<char>>, agrees: bool|
            #[trigger] account_asked(
                assertion@,
                account@,
                *is_upn,
                *user_principal,
                *same_account,
                named,
                agrees,
            ) && (r is Ok <==> named is Some && agrees),
{
    the_account_is_the_one_expected(
        assertion@,
        text_view(*expected),
        *is_upn,
        *user_principal,
        *same_account,
        r,
    );
}

/// An account is accepted exactly where one was read and it is the one expected.
pub proof fn an_account_is_decided_on(
    expected: &str,
    named: &Option<String>,
    agrees: bool,
    r: Result<(), AuthenticateError>,
)
    requires
        call_ensures(decide_principal, (expected, named, agrees), r),
    ensures
        r is Ok <==> named is Some && agrees,
        r matches Err(refusal) ==> refusal.message@ == match named {
            Some(spelling) => "the assertion names '"@ + spelling@ + "' and this node expects '"@
                + expected@ + "'"@,
            None =>
                "the assertion carries no user principal name, as its NameID or as a upn attribute, and this node expects '"@
                + expected@ + "'"@,
        },
{
}

} // verus!
