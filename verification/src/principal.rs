//! The account an assertion names, checked against the one expected.

use crate::conditions::{name_id, name_id_of, optional_text, text_or_empty, text_view};
use crate::error::{meets, unless, AuthenticateError};
use crate::text::strings_view;
use crate::xml::{
    attribute_or_empty, child_elements, first_named, lookup, models, text_of, with_local, Element,
    ElementModel,
};
use vstd::prelude::*;

verus! {

/// The attributes an assertion states.
pub open spec fn attributes_of(assertion: ElementModel) -> Seq<ElementModel> {
    match first_named(assertion, "AttributeStatement"@) {
        Some(statement) => with_local(child_elements(statement.children), "Attribute"@),
        None => Seq::empty(),
    }
}

/// The names of the attributes an assertion states, in order.
pub open spec fn attribute_names(assertion: ElementModel) -> Seq<Seq<char>> {
    attributes_of(assertion).map_values(
        |attribute: ElementModel| attribute_or_empty(attribute, "Name"@),
    )
}

/// The value of the attribute chosen, where one was and it has a value.
pub open spec fn chosen_value(assertion: ElementModel, chosen: Option<int>) -> Option<Seq<char>> {
    match chosen {
        Some(at) => match first_named(attributes_of(assertion)[at], "AttributeValue"@) {
            Some(value) => Some(text_of(value.children)),
            None => None,
        },
        None => None,
    }
}

/// The format of an assertion's `NameID`.
pub open spec fn format_of(assertion: ElementModel) -> Option<Seq<char>> {
    match name_id_of(assertion) {
        Some(name_id) => lookup(name_id.attributes, "Format"@),
        None => None,
    }
}

/// The account named is the one expected: `named` is how the assertion's account
/// is spelled, and `agrees` whether that is the account expected.
pub open spec fn principal_verdict(
    expected: Seq<char>,
    named: Option<Seq<char>>,
    agrees: bool,
) -> Result<(), Seq<char>> {
    match named {
        Some(spelling) => unless(
            agrees,
            "the assertion names '"@ + spelling + "' and this node expects '"@ + expected + "'"@,
        ),
        None => Err(
            "the assertion carries no user principal name, as its NameID or as a upn attribute, and this node expects '"@
                + expected + "'"@,
        ),
    }
}

/// Whether the predicate may say this of the text.
pub open spec fn says<F: Fn(&str) -> bool>(predicate: F, text: Seq<char>, answer: bool) -> bool {
    exists|asked: &str| asked@ == text && #[trigger] call_ensures(predicate, (asked,), answer)
}

/// Whether `chosen` is the first name the predicate says yes to, or none where
/// it says no to them all.
pub open spec fn first_said<F: Fn(&str) -> bool>(
    predicate: F,
    names: Seq<Seq<char>>,
    chosen: Option<int>,
) -> bool {
    match chosen {
        Some(at) => 0 <= at < names.len() && says(predicate, names[at], true) && forall|i: int|
            0 <= i < at ==> says(predicate, #[trigger] names[i], false),
        None => forall|i: int| 0 <= i < names.len() ==> says(predicate, #[trigger] names[i], false),
    }
}

/// The characters of an optional string slice.
pub open spec fn slice_view(text: Option<&str>) -> Option<Seq<char>> {
    match text {
        Some(text) => Some(text@),
        None => None,
    }
}

/// Whether `named` may be the account read from a `NameID`, its format and a upn
/// attribute.
pub open spec fn reads<F: Fn(&str, Option<&str>, Option<&str>) -> Option<String>>(
    user_principal: F,
    name: Seq<char>,
    format: Option<Seq<char>>,
    upn: Option<Seq<char>>,
    named: Option<Seq<char>>,
) -> bool {
    exists|a: &str, b: Option<&str>, c: Option<&str>, answer: Option<String>|
        a@ == name && slice_view(b) == format && slice_view(c) == upn && #[trigger] call_ensures(
            user_principal,
            (a, b, c),
            answer,
        ) && text_view(answer) == named
}

/// Whether the two spellings, where there are two, may be said to name one
/// account.
pub open spec fn compares<F: Fn(&str, &str) -> bool>(
    same_account: F,
    named: Option<Seq<char>>,
    expected: Seq<char>,
    agrees: bool,
) -> bool {
    match named {
        Some(spelling) => exists|a: &str, b: &str|
            a@ == spelling && b@ == expected && #[trigger] call_ensures(
                same_account,
                (a, b),
                agrees,
            ),
        None => true,
    }
}

/// Whether this is what was answered of the account an assertion names: how it
/// is spelled, read from its `NameID` and the first attribute that carries a
/// user principal name, and whether it is the account expected.
pub open spec fn account_read<
    U: Fn(&str) -> bool,
    P: Fn(&str, Option<&str>, Option<&str>) -> Option<String>,
    S: Fn(&str, &str) -> bool,
>(
    assertion: ElementModel,
    expected: Seq<char>,
    is_upn: U,
    user_principal: P,
    same_account: S,
    named: Option<Seq<char>>,
    agrees: bool,
) -> bool {
    exists|chosen: Option<int>|
        first_said(is_upn, attribute_names(assertion), chosen) && reads(
            user_principal,
            text_or_empty(name_id_of(assertion)),
            format_of(assertion),
            #[trigger] chosen_value(assertion, chosen),
            named,
        ) && compares(same_account, named, expected, agrees)
}

/// Whether this is a verdict on the account an assertion names, by what was
/// answered of it.
pub open spec fn principal_checked<
    U: Fn(&str) -> bool,
    P: Fn(&str, Option<&str>, Option<&str>) -> Option<String>,
    S: Fn(&str, &str) -> bool,
>(
    assertion: ElementModel,
    expected: Option<Seq<char>>,
    is_upn: U,
    user_principal: P,
    same_account: S,
    result: Result<(), AuthenticateError>,
) -> bool {
    match expected {
        None => result is Ok,
        Some(expected) => exists|named: Option<Seq<char>>, agrees: bool|
            account_read(
                assertion,
                expected,
                is_upn,
                user_principal,
                same_account,
                named,
                agrees,
            ) && meets(result, #[trigger] principal_verdict(expected, named, agrees)),
    }
}

/// The attributes an assertion states.
fn attributes(assertion: &Element) -> (r: Vec<&Element>)
    ensures
        models(r@) == attributes_of(assertion@),
{
    match assertion.find("AttributeStatement") {
        Some(statement) => statement.children_named("Attribute"),
        None => {
            let none: Vec<&Element> = Vec::new();
            assert(models(none@) =~= Seq::empty());
            none
        },
    }
}

/// The names of the attributes an assertion states, in order.
pub fn names_of_attributes(assertion: &Element) -> (r: Vec<String>)
    ensures
        strings_view(r@) == attribute_names(assertion@),
{
    let all = attributes(assertion);
    let ghost elements = models(all@);
    let mut out: Vec<String> = Vec::new();
    let mut i: usize = 0;
    while i < all.len()
        invariant
            i <= all.len(),
            out.len() == i,
            elements == models(all@),
            forall|j: int|
                0 <= j < i ==> (#[trigger] out@[j])@ == attribute_or_empty(elements[j], "Name"@),
        decreases all.len() - i,
    {
        assert(elements[i as int] == all@[i as int]@);
        out.push(all[i].attribute_text("Name"));
        i += 1;
    }
    assert(strings_view(out@) =~= attribute_names(assertion@));
    out
}

/// The value of the attribute chosen, where one was and it has a value.
pub fn value_of_attribute(assertion: &Element, chosen: Option<usize>) -> (r: Option<String>)
    requires
        chosen matches Some(at) ==> at < attributes_of(assertion@).len(),
    ensures
        text_view(r) == chosen_value(
            assertion@,
            match chosen {
                Some(at) => Some(at as int),
                None => None,
            },
        ),
{
    match chosen {
        Some(at) => {
            let all = attributes(assertion);
            assert(models(all@)[at as int] == all@[at as int]@);
            match all[at].find("AttributeValue") {
                Some(value) => Some(value.text()),
                None => None,
            }
        },
        None => None,
    }
}

/// The first of the names the predicate says yes to.
fn first_upn(names: &Vec<String>, is_upn: &impl Fn(&str) -> bool) -> (r: Option<usize>)
    requires
        forall|name: &str| call_requires(*is_upn, (name,)),
    ensures
        first_said(
            *is_upn,
            strings_view(names@),
            match r {
                Some(at) => Some(at as int),
                None => None,
            },
        ),
{
    let mut i: usize = 0;
    while i < names.len()
        invariant
            i <= names.len(),
            forall|name: &str| call_requires(*is_upn, (name,)),
            forall|j: int|
                0 <= j < i ==> says(*is_upn, #[trigger] strings_view(names@)[j], false),
        decreases names.len() - i,
    {
        if is_upn(names[i].as_str()) {
            return Some(i);
        }
        i += 1;
    }
    None
}

/// Decide on the account an assertion names, given how it is spelled, where it
/// names one, and whether it is the account expected.
///
/// # Errors
///
/// Where it names no account, or another.
pub fn decide_principal(expected: &str, named: &Option<String>, agrees: bool) -> (r: Result<
    (),
    AuthenticateError,
>)
    ensures
        meets(r, principal_verdict(expected@, text_view(*named), agrees)),
{
    match named {
        Some(spelling) => {
            if agrees {
                return Ok(());
            }
            let mut message = "the assertion names '".to_owned();
            message.append(spelling.as_str());
            message.append("' and this node expects '");
            message.append(expected);
            message.append("'");
            Err(AuthenticateError { message })
        },
        None => Err(
            AuthenticateError::naming(
                "the assertion carries no user principal name, as its NameID or as a upn attribute, and this node expects '",
                expected,
                "'",
            ),
        ),
    }
}

/// Where an account is expected, check that the assertion names it: in its
/// `NameID`, or else in the first attribute that carries a user principal name.
///
/// # Errors
///
/// Where an account is expected and the assertion names none, or another.
pub fn check_principal(
    assertion: &Element,
    expected: &Option<String>,
    is_upn: &impl Fn(&str) -> bool,
    user_principal: &impl Fn(&str, Option<&str>, Option<&str>) -> Option<String>,
    same_account: &impl Fn(&str, &str) -> bool,
) -> (r: Result<(), AuthenticateError>)
    requires
        forall|name: &str| call_requires(*is_upn, (name,)),
        forall|a: &str, b: Option<&str>, c: Option<&str>|
            call_requires(*user_principal, (a, b, c)),
        forall|a: &str, b: &str| call_requires(*same_account, (a, b)),
    ensures
        principal_checked(
            assertion@,
            text_view(*expected),
            *is_upn,
            *user_principal,
            *same_account,
            r,
        ),
{
    let expected = match expected {
        Some(expected) => expected,
        None => {
            return Ok(());
        },
    };
    let names = names_of_attributes(assertion);
    let chosen = first_upn(&names, is_upn);
    let ghost at = match chosen {
        Some(at) => Some(at as int),
        None => None,
    };
    assert(strings_view(names@).len() == attributes_of(assertion@).len());
    let upn = value_of_attribute(assertion, chosen);
    let name_id = name_id(assertion);
    let name = optional_text(name_id);
    let format = match name_id {
        Some(name_id) => name_id.attribute("Format"),
        None => None,
    };
    let upn_slice = match &upn {
        Some(upn) => Some(upn.as_str()),
        None => None,
    };
    let named = user_principal(name.as_str(), format, upn_slice);
    let agrees = match &named {
        Some(spelling) => same_account(spelling.as_str(), expected.as_str()),
        None => false,
    };
    assert(slice_view(format) == format_of(assertion@));
    assert(slice_view(upn_slice) == chosen_value(assertion@, at));
    assert(reads(
        *user_principal,
        text_or_empty(name_id_of(assertion@)),
        format_of(assertion@),
        chosen_value(assertion@, at),
        text_view(named),
    ));
    assert(compares(*same_account, text_view(named), expected@, agrees));
    decide_principal(expected.as_str(), &named, agrees)
}

} // verus!
