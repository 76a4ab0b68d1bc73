//! The conditions of an assertion, checked: who issued it and to whom, when it
//! holds, and whom it is meant for.

use crate::error::{after, ensure, meets, unless, AuthenticateError};
use crate::instant::{instant, instant_of};
use crate::text::{decimal, same, to_decimal};
use crate::xml::{
    child_elements, first_named, lookup, models, text_of, with_local, Element, ElementModel,
};
use vstd::prelude::*;

verus! {

pub const OTHER_SUBJECT: &'static str = "the assertion's subject is not the claimed value";

pub const NO_CONDITIONS: &'static str =
    "the assertion carries no Conditions and this node requires an audience";

/// The text of an element, and no text where there is none.
pub open spec fn text_or_empty(element: Option<ElementModel>) -> Seq<char> {
    match element {
        Some(element) => text_of(element.children),
        None => Seq::empty(),
    }
}

/// The `NameID` of an assertion's subject.
pub open spec fn name_id_of(assertion: ElementModel) -> Option<ElementModel> {
    match first_named(assertion, "Subject"@) {
        Some(subject) => first_named(subject, "NameID"@),
        None => None,
    }
}

/// The `Issuer` among an assertion's children.
pub open spec fn issuer_of(assertion: ElementModel) -> Option<ElementModel> {
    let issuers = with_local(child_elements(assertion.children), "Issuer"@);
    if issuers.len() > 0 {
        Some(issuers[0])
    } else {
        None
    }
}

/// Where an issuer is expected, it issued the assertion.
pub open spec fn issuer_verdict(assertion: ElementModel, issuer: Option<Seq<char>>) -> Result<
    (),
    Seq<char>,
> {
    match issuer {
        Some(expected) => unless(
            text_or_empty(issuer_of(assertion)) == expected,
            "the assertion's issuer is not '"@ + expected + "'"@,
        ),
        None => Ok(()),
    }
}

/// The assertion is about the subject claimed.
pub open spec fn subject_verdict(assertion: ElementModel, subject: Seq<char>) -> Result<
    (),
    Seq<char>,
> {
    unless(text_or_empty(name_id_of(assertion)) == subject, OTHER_SUBJECT@)
}

/// The nearest number that fits.
pub open spec fn saturated(value: int) -> i64 {
    if value > i64::MAX {
        i64::MAX
    } else if value < i64::MIN {
        i64::MIN
    } else {
        value as i64
    }
}

/// It is no longer, by more than the leeway, before the time the conditions
/// begin to hold.
pub open spec fn not_before_verdict(conditions: ElementModel, leeway: i64, now: i64) -> Result<
    (),
    Seq<char>,
> {
    match lookup(conditions.attributes, "NotBefore"@) {
        None => Ok(()),
        Some(text) => match instant_of(text) {
            Err(fault) => Err(fault),
            Ok(at) => unless(
                saturated(now + leeway) >= at,
                "the assertion is not valid before "@ + text + " and it is now "@ + decimal(
                    now as int,
                ),
            ),
        },
    }
}

/// It is not yet, by more than the leeway, the time the conditions cease to
/// hold.
pub open spec fn not_on_or_after_verdict(
    conditions: ElementModel,
    leeway: i64,
    now: i64,
) -> Result<(), Seq<char>> {
    match lookup(conditions.attributes, "NotOnOrAfter"@) {
        None => Ok(()),
        Some(text) => match instant_of(text) {
            Err(fault) => Err(fault),
            Ok(at) => unless(
                saturated(now - leeway) < at,
                "the assertion is not valid on or after "@ + text + " and it is now "@ + decimal(
                    now as int,
                ),
            ),
        },
    }
}

/// Where an audience is expected, the conditions name it.
pub open spec fn audience_verdict(
    conditions: ElementModel,
    audience: Option<Seq<char>>,
) -> Result<(), Seq<char>> {
    match audience {
        Some(expected) => unless(
            text_or_empty(first_named(conditions, "Audience"@)) == expected,
            "the assertion's audience does not name '"@ + expected + "'"@,
        ),
        None => Ok(()),
    }
}

/// The conditions hold at this time, and for this audience.
pub open spec fn window_verdict(
    assertion: ElementModel,
    audience: Option<Seq<char>>,
    leeway: i64,
    now: i64,
) -> Result<(), Seq<char>> {
    match first_named(assertion, "Conditions"@) {
        None => unless(audience is None, NO_CONDITIONS@),
        Some(conditions) => after(
            not_before_verdict(conditions, leeway, now),
            after(
                not_on_or_after_verdict(conditions, leeway, now),
                audience_verdict(conditions, audience),
            ),
        ),
    }
}

/// The characters of an optional string.
pub open spec fn text_view(text: Option<String>) -> Option<Seq<char>> {
    match text {
        Some(text) => Some(text@),
        None => None,
    }
}

/// The text of an element, and no text where there is none.
pub fn optional_text(element: Option<&Element>) -> (r: String)
    ensures
        r@ == match element {
            Some(element) => text_of(element@.children),
            None => Seq::empty(),
        },
{
    match element {
        Some(element) => element.text(),
        None => String::new(),
    }
}

/// The `NameID` of an assertion's subject.
pub fn name_id(assertion: &Element) -> (r: Option<&Element>)
    ensures
        match r {
            Some(found) => name_id_of(assertion@) == Some(found@),
            None => name_id_of(assertion@) is None,
        },
{
    assertion.find("Subject")?.find("NameID")
}

/// Check that the assertion was issued by whom it should be, about whom it
/// should be.
///
/// # Errors
///
/// Where an issuer is expected and another issued the assertion, or its subject
/// is not the one claimed.
pub fn check_parties(assertion: &Element, issuer: &Option<String>, subject: &str) -> (r: Result<
    (),
    AuthenticateError,
>)
    ensures
        meets(
            r,
            after(
                issuer_verdict(assertion@, text_view(*issuer)),
                subject_verdict(assertion@, subject@),
            ),
        ),
{
    if let Some(expected) = issuer {
        let issuers = assertion.children_named("Issuer");
        let ghost all = models(issuers@);
        let named = if issuers.len() > 0 {
            assert(all[0] == issuers@[0]@);
            issuers[0].text()
        } else {
            String::new()
        };
        if !same(named.as_str(), expected.as_str()) {
            return Err(
                AuthenticateError::naming("the assertion's issuer is not '", expected.as_str(), "'"),
            );
        }
    }
    ensure(same(optional_text(name_id(assertion)).as_str(), subject), OTHER_SUBJECT)
}

/// The nearest number that fits.
fn saturating(value: i128) -> (r: i64)
    ensures
        r == saturated(value as int),
{
    if value > i64::MAX as i128 {
        i64::MAX
    } else if value < i64::MIN as i128 {
        i64::MIN
    } else {
        value as i64
    }
}

/// A refusal that names a bound and the time.
fn outside_window(before: &str, bound: &str, now: i64) -> (r: AuthenticateError)
    ensures
        r.message@ == before@ + bound@ + " and it is now "@ + decimal(now as int),
{
    let mut message = before.to_owned();
    message.append(bound);
    message.append(" and it is now ");
    message.append(to_decimal(now).as_str());
    AuthenticateError { message }
}

/// Check that the conditions have begun to hold.
fn check_not_before(conditions: &Element, leeway: i64, now: i64) -> (r: Result<
    (),
    AuthenticateError,
>)
    ensures
        meets(r, not_before_verdict(conditions@, leeway, now)),
{
    if let Some(text) = conditions.attribute("NotBefore") {
        let at = instant(text)?;
        if saturating(now as i128 + leeway as i128) < at {
            return Err(outside_window("the assertion is not valid before ", text, now));
        }
    }
    Ok(())
}

/// Check that the conditions have not ceased to hold.
fn check_not_on_or_after(conditions: &Element, leeway: i64, now: i64) -> (r: Result<
    (),
    AuthenticateError,
>)
    ensures
        meets(r, not_on_or_after_verdict(conditions@, leeway, now)),
{
    if let Some(text) = conditions.attribute("NotOnOrAfter") {
        let at = instant(text)?;
        if saturating(now as i128 - leeway as i128) >= at {
            return Err(outside_window("the assertion is not valid on or after ", text, now));
        }
    }
    Ok(())
}

/// Check that the conditions hold at this time, and for this audience.
///
/// # Errors
///
/// Where they do not, or a time they state is no SAML `dateTime`, or an audience
/// is expected and there are no conditions.
pub fn check_window(
    assertion: &Element,
    audience: &Option<String>,
    leeway: i64,
    now: i64,
) -> (r: Result<(), AuthenticateError>)
    ensures
        meets(r, window_verdict(assertion@, text_view(*audience), leeway, now)),
{
    match assertion.find("Conditions") {
        None => ensure(audience.is_none(), NO_CONDITIONS),
        Some(conditions) => {
            check_not_before(conditions, leeway, now)?;
            check_not_on_or_after(conditions, leeway, now)?;
            if let Some(expected) = audience {
                let named = optional_text(conditions.find("Audience"));
                if !same(named.as_str(), expected.as_str()) {
                    return Err(
                        AuthenticateError::naming(
                            "the assertion's audience does not name '",
                            expected.as_str(),
                            "'",
                        ),
                    );
                }
            }
            Ok(())
        },
    }
}

} // verus!
