//! Laws of a claim: what a proven claim has met, and when an assertion holds.

use crate::conditions::{issuer_of, name_id_of, saturated, text_or_empty, window_verdict};
use crate::gate::{gate_verdict, Claim, RepliesModel, Settings, Verified, MECHANISM};
use crate::instant::instant_of;
use crate::laws::signing::{accepted_is_signed_in_profile, located_is_found, signed_in_profile};
use crate::reader::read_document;
use crate::text::contains;
use crate::xml::{first_named, lookup, ElementModel};
use vstd::prelude::*;
use vstd::utf8::{decode_utf8, valid_utf8};

verus! {

/// Whether the conditions have begun to hold, the leeway allowed for.
pub open spec fn begun(conditions: ElementModel, leeway: i64, now: i64) -> bool {
    lookup(conditions.attributes, "NotBefore"@) matches Some(text) ==> (instant_of(text) matches Ok(
        at,
    ) && at <= saturated(now + leeway))
}

/// Whether the conditions have not ceased to hold, the leeway allowed for.
pub open spec fn lasting(conditions: ElementModel, leeway: i64, now: i64) -> bool {
    lookup(conditions.attributes, "NotOnOrAfter"@) matches Some(text) ==> (instant_of(
        text,
    ) matches Ok(at) && saturated(now - leeway) < at)
}

/// Whether an assertion holds at this time, and for the audience expected.
pub open spec fn holds(
    assertion: ElementModel,
    audience: Option<Seq<char>>,
    leeway: i64,
    now: i64,
) -> bool {
    match first_named(assertion, "Conditions"@) {
        Some(conditions) => begun(conditions, leeway, now) && lasting(conditions, leeway, now) && (
        audience matches Some(expected) ==> text_or_empty(first_named(conditions, "Audience"@))
            == expected),
        None => audience is None,
    }
}

/// Conditions are accepted exactly where they hold.
pub proof fn accepted_conditions_hold(
    assertion: ElementModel,
    audience: Option<Seq<char>>,
    leeway: i64,
    now: i64,
)
    ensures
        window_verdict(assertion, audience, leeway, now) is Ok <==> holds(
            assertion,
            audience,
            leeway,
            now,
        ),
{
}

/// What is accepted at two times is accepted at every time between them.
pub proof fn an_assertion_holds_without_a_gap(
    assertion: ElementModel,
    audience: Option<Seq<char>>,
    leeway: i64,
    first: i64,
    between: i64,
    last: i64,
)
    requires
        first <= between <= last,
        window_verdict(assertion, audience, leeway, first) is Ok,
        window_verdict(assertion, audience, leeway, last) is Ok,
    ensures
        window_verdict(assertion, audience, leeway, between) is Ok,
{
}

/// What is accepted with some leeway is accepted with more.
pub proof fn more_leeway_accepts_more(
    assertion: ElementModel,
    audience: Option<Seq<char>>,
    less: i64,
    more: i64,
    now: i64,
)
    requires
        less <= more,
        window_verdict(assertion, audience, less, now) is Ok,
    ensures
        window_verdict(assertion, audience, more, now) is Ok,
{
}

/// Whether the replies prove a claim: it was presented by this mechanism, with a
/// proof that opens to UTF-8 text with no encrypted assertion and no comment in
/// it; the text reads as a document signed in the profile with the key expected; its
/// assertion is by the issuer expected and about the value claimed, holds now
/// and for the audience expected, and names the account expected.
pub open spec fn proves(settings: Settings, claim: Claim, replies: RepliesModel) -> bool {
    &&& claim.mechanism == MECHANISM@
    &&& claim.assertion is Some
    &&& replies.opened matches Ok(bytes)
    &&& valid_utf8(bytes)
    &&& !contains(decode_utf8(bytes), "EncryptedAssertion"@)
    &&& !contains(decode_utf8(bytes), "<!--"@)
    &&& read_document(decode_utf8(bytes)) matches Ok(document)
    &&& signed_in_profile(document, settings.key, replies.digest, replies.value)
    &&& first_named(document, "Assertion"@) matches Some(assertion)
    &&& settings.issuer matches Some(issuer) ==> text_or_empty(issuer_of(assertion)) == issuer
    &&& text_or_empty(name_id_of(assertion)) == claim.value
    &&& holds(assertion, settings.audience, settings.leeway, replies.now)
    &&& settings.principal is Some ==> replies.named is Some && replies.agrees
}

/// A claim is proven exactly where every check is met; otherwise it is refused.
pub proof fn proven_has_met_every_check(settings: Settings, claim: Claim, replies: RepliesModel)
    ensures
        gate_verdict(settings, claim, replies) == Ok::<Verified, Seq<char>>(Verified::Proven)
            <==> proves(settings, claim, replies),
        gate_verdict(settings, claim, replies) is Err <==> !proves(settings, claim, replies),
{
    if let Ok(bytes) = replies.opened {
        if let Ok(document) = read_document(decode_utf8(bytes)) {
            accepted_is_signed_in_profile(document, settings.key, replies.digest, replies.value);
            located_is_found(document, Seq::empty(), "Assertion"@);
        }
    }
}

} // verus!
