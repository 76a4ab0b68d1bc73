//! Laws of the checks on an assertion: whom it names, who issued it, when it
//! holds, and for whom.

use crate::conditions::{
    check_parties, check_window, issuer_of, issuer_verdict, name_id, name_id_of, saturated,
    subject_verdict, text_or_empty, text_view, window_verdict,
};
use crate::error::{after, AuthenticateError};
use crate::instant::instant_of;
use crate::laws::clockwork::lemma_instant_bound;
use crate::laws::contents::{
    absent, children_of_a_name_stand_in_order, elements_keep_their_order, first_value,
    a_local_name_keeps_the_order, looking_up_gives_the_first,
};
use crate::laws::paths::{bears, found_is_the_first, is_first, reached};
use crate::text::decimal;
use crate::xml::{
    child_elements, first_among, first_named, local_of, lookup, text_of, with_local, Element,
    ElementModel, NodeModel, Pair,
};
use vstd::prelude::*;

verus! {

/// Whether this is the text of the first element of a local name in another;
/// nothing where there is none.
pub open spec fn first_text(element: ElementModel, local: Seq<char>, text: Seq<char>) -> bool {
    ||| exists|path: Seq<int>| #[trigger] is_first(element, path, local) && text == text_of(
        reached(element, path)->Some_0.children,
    )
    ||| text.len() == 0 && forall|path: Seq<int>| !#[trigger] bears(element, path, local)
}

/// Whether this is the subject an assertion names: the text of the first `NameID`
/// in its first `Subject`, and nothing where there is none.
pub open spec fn names_subject(assertion: ElementModel, text: Seq<char>) -> bool {
    ||| exists|path: Seq<int>| #[trigger] is_first(assertion, path, "Subject"@) && first_text(
        reached(assertion, path)->Some_0,
        "NameID"@,
        text,
    )
    ||| text.len() == 0 && forall|path: Seq<int>| !#[trigger] bears(assertion, path, "Subject"@)
}

/// Whether no element among the children has this local name.
pub open spec fn no_child(nodes: Seq<NodeModel>, local: Seq<char>) -> bool {
    forall|i: int|
        0 <= i < nodes.len() ==> (#[trigger] nodes[i] matches NodeModel::Element(child)
            ==> local_of(child.name) != local)
}

/// Whether this is who issued an assertion: the text of the first `Issuer` among
/// its children, and nothing where there is none.
pub open spec fn issued_by(assertion: ElementModel, text: Seq<char>) -> bool {
    ||| exists|before: Seq<NodeModel>, issuer: ElementModel, later: Seq<NodeModel>|
        assertion.children == #[trigger] (before + seq![NodeModel::Element(issuer)] + later)
            && local_of(issuer.name) == "Issuer"@ && no_child(before, "Issuer"@) && text == text_of(
            issuer.children,
        )
    ||| text.len() == 0 && no_child(assertion.children, "Issuer"@)
}

/// The text of what is found is the text of the first of that name.
pub proof fn lemma_first_text(element: ElementModel, local: Seq<char>, text: Seq<char>)
    ensures
        first_text(element, local, text) <==> text == text_or_empty(first_named(element, local)),
{
    found_is_the_first(element, local);
    if first_named(element, local) is Some {
        let path = choose|path: Seq<int>| #[trigger] is_first(element, path, local);
        assert(bears(element, path, local));
    } else {
        if text.len() == 0 {
            assert(text =~= Seq::empty());
        }
        assert forall|path: Seq<int>| !#[trigger] is_first(element, path, local) by {
            assert(!bears(element, path, local));
        }
    }
}

/// The subject is the text of the `NameID` that is looked for.
pub proof fn lemma_subject(assertion: ElementModel, text: Seq<char>)
    ensures
        names_subject(assertion, text) <==> text == text_or_empty(name_id_of(assertion)),
{
    found_is_the_first(assertion, "Subject"@);
    if let Some(subject) = first_named(assertion, "Subject"@) {
        let path = choose|path: Seq<int>| #[trigger] is_first(assertion, path, "Subject"@);
        assert(bears(assertion, path, "Subject"@));
        assert(reached(assertion, path) == Some(subject));
        lemma_first_text(subject, "NameID"@, text);
    } else {
        if text.len() == 0 {
            assert(text =~= Seq::empty());
        }
        assert forall|path: Seq<int>| !#[trigger] is_first(assertion, path, "Subject"@) by {
            assert(!bears(assertion, path, "Subject"@));
        }
    }
}

/// Children without an element of a name have none of it.
proof fn lemma_no_child(nodes: Seq<NodeModel>, local: Seq<char>)
    ensures
        no_child(nodes, local) <==> with_local(child_elements(nodes), local).len() == 0,
    decreases nodes.len(),
{
    if nodes.len() == 0 {
        assert(child_elements(nodes) =~= Seq::empty());
        a_local_name_keeps_the_order(Seq::empty(), Seq::empty(), local);
    } else {
        let before = nodes.drop_last();
        let last = seq![nodes.last()];
        lemma_no_child(before, local);
        assert(nodes =~= before + last);
        elements_keep_their_order(before, last);
        elements_keep_their_order(last, Seq::empty());
        a_local_name_keeps_the_order(child_elements(before), child_elements(last), local);
        a_local_name_keeps_the_order(child_elements(last), Seq::empty(), local);
        a_local_name_keeps_the_order(Seq::empty(), Seq::empty(), local);
        if child_elements(last).len() == 0 {
            assert(child_elements(last) =~= Seq::empty());
        }
        assert(with_local(child_elements(nodes), local).len() == with_local(
            child_elements(before),
            local,
        ).len() + with_local(child_elements(last), local).len());
        assert(no_child(nodes, local) <==> no_child(before, local) && (
        nodes.last() matches NodeModel::Element(child) ==> local_of(child.name) != local)) by {
            if no_child(nodes, local) {
                assert forall|i: int| 0 <= i < before.len() implies (#[trigger] before[i] matches NodeModel::Element(
                    child,
                ) ==> local_of(child.name) != local) by {
                    assert(before[i] == nodes[i]);
                }
                assert(nodes[nodes.len() - 1] == nodes.last());
            }
            if no_child(before, local) && (nodes.last() matches NodeModel::Element(child)
                ==> local_of(child.name) != local) {
                assert forall|i: int| 0 <= i < nodes.len() implies (#[trigger] nodes[i] matches NodeModel::Element(
                    child,
                ) ==> local_of(child.name) != local) by {
                    if i < before.len() {
                        assert(before[i] == nodes[i]);
                    }
                }
            }
        }
    }
}

/// Where a child has the name, the first such parts the children.
proof fn lemma_first_child(nodes: Seq<NodeModel>, local: Seq<char>) -> (at: int)
    requires
        !no_child(nodes, local),
    ensures
        0 <= at < nodes.len(),
        nodes[at] matches NodeModel::Element(child) && local_of(child.name) == local,
        no_child(nodes.take(at), local),
    decreases nodes.len(),
{
    let before = nodes.drop_last();
    if no_child(before, local) {
        assert(nodes.take(nodes.len() - 1) =~= before);
        let i = choose|i: int|
            0 <= i < nodes.len() && !(#[trigger] nodes[i] matches NodeModel::Element(child)
                ==> local_of(child.name) != local);
        if i < before.len() {
            assert(before[i] == nodes[i]);
        }
        nodes.len() - 1
    } else {
        let at = lemma_first_child(before, local);
        assert(before.take(at) =~= nodes.take(at));
        at
    }
}

/// Who issued an assertion is the first `Issuer` among its children.
proof fn lemma_issuer(assertion: ElementModel, text: Seq<char>)
    ensures
        issued_by(assertion, text) <==> text == text_or_empty(issuer_of(assertion)),
{
    let nodes = assertion.children;
    lemma_no_child(nodes, "Issuer"@);
    assert forall|before: Seq<NodeModel>, issuer: ElementModel, later: Seq<NodeModel>|
        nodes == #[trigger] (before + seq![NodeModel::Element(issuer)] + later) && local_of(
            issuer.name,
        ) == "Issuer"@ && no_child(before, "Issuer"@) implies issuer_of(assertion) == Some(
        issuer,
    ) by {
        lemma_no_child(before, "Issuer"@);
        children_of_a_name_stand_in_order(before, issuer, later, "Issuer"@);
        let all = with_local(child_elements(nodes), "Issuer"@);
        assert(all[0] == issuer);
    }
    if no_child(nodes, "Issuer"@) {
        if text.len() == 0 {
            assert(text =~= Seq::empty());
        }
    } else {
        let at = lemma_first_child(nodes, "Issuer"@);
        let issuer = nodes[at]->Element_0;
        assert(nodes =~= nodes.take(at) + seq![NodeModel::Element(issuer)] + nodes.skip(at + 1));
    }
}

/// Every assertion names one subject, and was issued by one, if only by nothing.
pub proof fn every_assertion_names_one_subject_and_one_issuer(assertion: ElementModel)
    ensures
        exists|text: Seq<char>| #[trigger] names_subject(assertion, text),
        exists|text: Seq<char>| #[trigger] issued_by(assertion, text),
        forall|a: Seq<char>, b: Seq<char>| #[trigger]
            names_subject(assertion, a) && #[trigger] names_subject(assertion, b) ==> a == b,
        forall|a: Seq<char>, b: Seq<char>| #[trigger]
            issued_by(assertion, a) && #[trigger] issued_by(assertion, b) ==> a == b,
{
    lemma_subject(assertion, text_or_empty(name_id_of(assertion)));
    lemma_issuer(assertion, text_or_empty(issuer_of(assertion)));
    assert forall|a: Seq<char>, b: Seq<char>| #[trigger]
        names_subject(assertion, a) && #[trigger] names_subject(assertion, b) implies a == b by {
        lemma_subject(assertion, a);
        lemma_subject(assertion, b);
    }
    assert forall|a: Seq<char>, b: Seq<char>| #[trigger]
        issued_by(assertion, a) && #[trigger] issued_by(assertion, b) implies a == b by {
        lemma_issuer(assertion, a);
        lemma_issuer(assertion, b);
    }
}

/// An assertion is by and about whom it should be exactly where the subject it
/// names is the one claimed and, if an issuer is expected, that issued it. Another
/// issuer is refused by name, whatever the subject; another subject is refused
/// where the issuer is right.
pub proof fn the_parties_are_those_named(
    assertion: &Element,
    issuer: &Option<String>,
    subject: &str,
    r: Result<(), AuthenticateError>,
    named: Seq<char>,
    issued: Seq<char>,
)
    requires
        call_ensures(check_parties, (assertion, issuer, subject), r),
        names_subject(assertion@, named),
        issued_by(assertion@, issued),
    ensures
        r is Ok <==> subject@ == named && (issuer matches Some(expected) ==> expected@ == issued),
        issuer matches Some(expected) ==> (expected@ != issued ==> (r matches Err(refusal)
            && refusal.message@ == "the assertion's issuer is not '"@ + expected@ + "'"@)),
        (issuer matches Some(expected) ==> expected@ == issued) && subject@ != named ==> (
        r matches Err(refusal) && refusal.message@
            == "the assertion's subject is not the claimed value"@),
{
    lemma_parties(assertion@, text_view(*issuer), subject@, named, issued);
}

/// So it is with the verdicts.
pub proof fn lemma_parties(
    assertion: ElementModel,
    issuer: Option<Seq<char>>,
    subject: Seq<char>,
    named: Seq<char>,
    issued: Seq<char>,
)
    requires
        names_subject(assertion, named),
        issued_by(assertion, issued),
    ensures
        ({
            let verdict = after(
                issuer_verdict(assertion, issuer),
                subject_verdict(assertion, subject),
            );
            &&& verdict is Ok <==> subject == named && (issuer matches Some(expected) ==> expected
                == issued)
            &&& issuer matches Some(expected) ==> (expected != issued ==> verdict == Err::<
                (),
                Seq<char>,
            >("the assertion's issuer is not '"@ + expected + "'"@))
            &&& (issuer matches Some(expected) ==> expected == issued) && subject != named
                ==> verdict == Err::<(), Seq<char>>(
                "the assertion's subject is not the claimed value"@,
            )
        }),
{
    lemma_subject(assertion, named);
    lemma_issuer(assertion, issued);
}

/// Where a `Subject` has a `NameID` with none before it, the subject is the text
/// of that, whatever follows it there.
pub proof fn what_follows_the_name_id_makes_no_difference(
    assertion: ElementModel,
    subject: ElementModel,
    before: Seq<NodeModel>,
    id: ElementModel,
    later: Seq<NodeModel>,
)
    requires
        first_named(assertion, "Subject"@) == Some(subject),
        subject.children == before + seq![NodeModel::Element(id)] + later,
        local_of(id.name) == "NameID"@,
        first_among(before, "NameID"@) is None,
    ensures
        names_subject(assertion, text_of(id.children)),
        name_id_of(assertion) == Some(id),
{
    reveal_strlit("Subject");
    reveal_strlit("NameID");
    assert("Subject"@.len() != "NameID"@.len());
    found_is_the_first(assertion, "Subject"@);
    let path = choose|path: Seq<int>| #[trigger] is_first(assertion, path, "Subject"@);
    assert(bears(assertion, path, "Subject"@));
    lemma_first_after(before, id, later, "NameID"@);
    lemma_subject(assertion, text_of(id.children));
}

/// The first of a name stands where none is before it.
pub proof fn lemma_first_after(
    before: Seq<NodeModel>,
    element: ElementModel,
    later: Seq<NodeModel>,
    local: Seq<char>,
)
    requires
        first_among(before, local) is None,
        local_of(element.name) == local,
    ensures
        first_among(before + seq![NodeModel::Element(element)] + later, local) == Some(element),
    decreases before.len(),
{
    let all = before + seq![NodeModel::Element(element)] + later;
    if before.len() == 0 {
        assert(all[0] == NodeModel::Element(element));
        assert(first_named(element, local) == Some(element));
    } else {
        lemma_first_after(before.drop_first(), element, later, local);
        assert(all[0] == before[0]);
        assert(all.drop_first() =~= before.drop_first() + seq![NodeModel::Element(element)]
            + later);
    }
}

/// What `name_id` gives is the first `NameID` in the first `Subject`.
pub proof fn the_name_id_is_that_of_the_subject(
    assertion: &Element,
    r: Option<&Element>,
    path: Seq<int>,
    below: Seq<int>,
)
    requires
        call_ensures(name_id, (assertion,), r),
        is_first(assertion@, path, "Subject"@),
    ensures
        is_first(reached(assertion@, path)->Some_0, below, "NameID"@) ==> (r matches Some(found)
            && reached(reached(assertion@, path)->Some_0, below) == Some(found@)),
        r is None ==> !bears(reached(assertion@, path)->Some_0, below, "NameID"@),
{
    found_is_the_first(assertion@, "Subject"@);
    assert(bears(assertion@, path, "Subject"@));
    found_is_the_first(reached(assertion@, path)->Some_0, "NameID"@);
}

/// Whether conditions with these attributes have begun to hold at a time, with
/// this leeway: where they state when they begin, that is a time, and no more
/// than the leeway ahead.
pub open spec fn has_begun(attributes: Seq<Pair>, leeway: int, now: int) -> bool {
    forall|text: Seq<char>| #[trigger]
        first_value(attributes, "NotBefore"@, text) ==> (instant_of(text) matches Ok(at) && at
            <= now + leeway)
}

/// Whether conditions with these attributes still hold: where they state when
/// they cease, that is a time, and ahead, or no more than the leeway past.
pub open spec fn still_holds(attributes: Seq<Pair>, leeway: int, now: int) -> bool {
    forall|text: Seq<char>| #[trigger]
        first_value(attributes, "NotOnOrAfter"@, text) ==> (instant_of(text) matches Ok(at) && now
            - leeway < at)
}

/// A time is compared as if no number were too large.
proof fn lemma_compared(at: int, value: int)
    requires
        i64::MIN < at < i64::MAX,
    ensures
        saturated(value) >= at <==> value >= at,
        saturated(value) < at <==> value < at,
{
}

/// An assertion that has conditions holds at a time exactly where they have begun
/// and still hold, the leeway allowed on either side, and name the audience, if
/// one is expected. Where they state a time that is none, that is refused in
/// words that name it; before they hold, and after, the refusal names the bound
/// and the time.
pub proof fn an_assertion_holds_within_its_window(
    assertion: &Element,
    audience: &Option<String>,
    leeway: i64,
    now: i64,
    r: Result<(), AuthenticateError>,
    path: Seq<int>,
    named: Seq<char>,
)
    requires
        call_ensures(check_window, (assertion, audience, leeway, now), r),
        is_first(assertion@, path, "Conditions"@),
        first_text(reached(assertion@, path)->Some_0, "Audience"@, named),
    ensures
        ({
            let attributes = reached(assertion@, path)->Some_0.attributes;
            r is Ok <==> has_begun(attributes, leeway as int, now as int) && still_holds(
                attributes,
                leeway as int,
                now as int,
            ) && (audience matches Some(expected) ==> expected@ == named)
        }),
{
    lemma_window(assertion@, text_view(*audience), leeway, now, path, named);
}

/// So it is with the verdict.
pub proof fn lemma_window(
    assertion: ElementModel,
    audience: Option<Seq<char>>,
    leeway: i64,
    now: i64,
    path: Seq<int>,
    named: Seq<char>,
)
    requires
        is_first(assertion, path, "Conditions"@),
        first_text(reached(assertion, path)->Some_0, "Audience"@, named),
    ensures
        ({
            let attributes = reached(assertion, path)->Some_0.attributes;
            window_verdict(assertion, audience, leeway, now) is Ok <==> has_begun(
                attributes,
                leeway as int,
                now as int,
            ) && still_holds(attributes, leeway as int, now as int) && (
            audience matches Some(expected) ==> expected == named)
        }),
{
    found_is_the_first(assertion, "Conditions"@);
    assert(bears(assertion, path, "Conditions"@));
    let conditions = reached(assertion, path)->Some_0;
    let attributes = conditions.attributes;
    lemma_first_text(conditions, "Audience"@, named);
    looking_up_gives_the_first(attributes, "NotBefore"@);
    looking_up_gives_the_first(attributes, "NotOnOrAfter"@);
    lemma_no_value(attributes, "NotBefore"@);
    lemma_no_value(attributes, "NotOnOrAfter"@);
    if let Some(text) = lookup(attributes, "NotBefore"@) {
        lemma_instant_bound(text);
        if let Ok(at) = instant_of(text) {
            lemma_compared(at, now + leeway);
        }
        assert(first_value(attributes, "NotBefore"@, text));
    }
    if let Some(text) = lookup(attributes, "NotOnOrAfter"@) {
        lemma_instant_bound(text);
        if let Ok(at) = instant_of(text) {
            lemma_compared(at, now - leeway);
        }
        assert(first_value(attributes, "NotOnOrAfter"@, text));
    }
}

/// What is absent has no first value.
proof fn lemma_no_value(pairs: Seq<Pair>, name: Seq<char>)
    ensures
        absent(pairs, name) ==> forall|value: Seq<char>| !#[trigger]
            first_value(pairs, name, value),
{
    if absent(pairs, name) {
        assert forall|value: Seq<char>| !#[trigger] first_value(pairs, name, value) by {
            if first_value(pairs, name, value) {
                let i = choose|i: int|
                    0 <= i < pairs.len() && #[trigger] pairs[i] == (name, value);
                assert(pairs[i].0 != name);
            }
        }
    }
}

/// An assertion without conditions holds at any time, unless an audience is
/// expected.
pub proof fn without_conditions_no_audience_is_met(
    assertion: &Element,
    audience: &Option<String>,
    leeway: i64,
    now: i64,
    r: Result<(), AuthenticateError>,
)
    requires
        call_ensures(check_window, (assertion, audience, leeway, now), r),
        forall|path: Seq<int>| !#[trigger] bears(assertion@, path, "Conditions"@),
    ensures
        r is Ok <==> audience is None,
        r matches Err(refusal) ==> refusal.message@
            == "the assertion carries no Conditions and this node requires an audience"@,
{
    found_is_the_first(assertion@, "Conditions"@);
    if first_named(assertion@, "Conditions"@) is Some {
        let path = choose|path: Seq<int>| #[trigger] is_first(assertion@, path, "Conditions"@);
        assert(bears(assertion@, path, "Conditions"@));
    }
}

/// What is refused of conditions is the first that fails: when they begin, then
/// when they cease, then the audience. A bound that is no time is refused in words
/// that name it; one that is not met, in words that name it and the time.
pub proof fn conditions_are_refused_in_order(
    assertion: &Element,
    audience: &Option<String>,
    leeway: i64,
    now: i64,
    refusal: AuthenticateError,
    path: Seq<int>,
    bound: Seq<char>,
)
    requires
        call_ensures(
            check_window,
            (assertion, audience, leeway, now),
            Err::<(), AuthenticateError>(refusal),
        ),
        is_first(assertion@, path, "Conditions"@),
    ensures
        ({
            let attributes = reached(assertion@, path)->Some_0.attributes;
            let begun = has_begun(attributes, leeway as int, now as int);
            let lasts = still_holds(attributes, leeway as int, now as int);
            &&& !begun && first_value(attributes, "NotBefore"@, bound) ==> refusal.message@
                == if instant_of(bound) is Ok {
                "the assertion is not valid before "@ + bound + " and it is now "@ + decimal(
                    now as int,
                )
            } else {
                "'"@ + bound + "' is not a UTC SAML dateTime"@
            }
            &&& begun && !lasts && first_value(attributes, "NotOnOrAfter"@, bound)
                ==> refusal.message@ == if instant_of(bound) is Ok {
                "the assertion is not valid on or after "@ + bound + " and it is now "@ + decimal(
                    now as int,
                )
            } else {
                "'"@ + bound + "' is not a UTC SAML dateTime"@
            }
            &&& begun && lasts ==> (audience matches Some(expected) && refusal.message@
                == "the assertion's audience does not name '"@ + expected@ + "'"@)
        }),
{
    found_is_the_first(assertion@, "Conditions"@);
    assert(bears(assertion@, path, "Conditions"@));
    let conditions = reached(assertion@, path)->Some_0;
    let attributes = conditions.attributes;
    looking_up_gives_the_first(attributes, "NotBefore"@);
    looking_up_gives_the_first(attributes, "NotOnOrAfter"@);
    lemma_no_value(attributes, "NotBefore"@);
    lemma_no_value(attributes, "NotOnOrAfter"@);
    if let Some(text) = lookup(attributes, "NotBefore"@) {
        lemma_instant_bound(text);
        if let Ok(at) = instant_of(text) {
            lemma_compared(at, now + leeway);
        }
        assert(first_value(attributes, "NotBefore"@, text));
    }
    if let Some(text) = lookup(attributes, "NotOnOrAfter"@) {
        lemma_instant_bound(text);
        if let Ok(at) = instant_of(text) {
            lemma_compared(at, now - leeway);
        }
        assert(first_value(attributes, "NotOnOrAfter"@, text));
    }
}

} // verus!
