//! Laws of a gate: when a claim is admitted, what it is refused with, and what
//! a gate is told to expect.

use crate::certificate::{IdpCertificate, RsaKey};
use crate::clock::{gives, is_system_time};
use crate::conditions::{issuer_verdict, subject_verdict, text_or_empty, text_view, window_verdict};
use crate::error::{after, meets, AuthenticateError};
use crate::gate::{
    assertion_attributed, assertion_timely, document_claimed, gate_verdict, open_document, opens,
    replied, Capabilities, Claim, Presented, Replies, RepliesModel, Settings, Verified, Verifier,
};
use crate::laws::checking::{
    every_assertion_names_one_subject_and_one_issuer, first_text, has_begun, issued_by,
    lemma_first_text, lemma_parties, lemma_window, names_subject, still_holds,
};
use crate::laws::covering::{
    a_signature_is_accepted_where_the_document_is_signed, decoded, signed_at,
};
use crate::laws::naming::{
    account_asked, the_account_is_read_from_the_assertion, the_account_is_the_one_expected,
};
use crate::laws::paths::{bears, found_is_the_first, is_first, reached};
use crate::laws::wording::lemma_occurs;
use crate::principal::principal_verdict;
use crate::reader::read_document;
use crate::signature::{digest_text, signature_verdict, value_text};
use crate::xml::{first_named, Element, ElementModel, Pair};
use vstd::prelude::*;
use vstd::utf8::{decode_utf8, valid_utf8};

verus! {

/// Whether a word stands in a text.
pub open spec fn holds_word(text: Seq<char>, word: Seq<char>) -> bool {
    exists|before: Seq<char>, behind: Seq<char>| text == #[trigger] (before + word + behind)
}

/// Whether an assertion holds at a time and for an audience: its first
/// `Conditions` have begun and still hold and, if an audience is expected, the
/// first `Audience` in them is that; or it has none, and no audience is expected.
pub open spec fn holds_at(
    assertion: ElementModel,
    audience: Option<Seq<char>>,
    leeway: int,
    now: int,
) -> bool {
    ||| exists|path: Seq<int>| #[trigger] is_first(assertion, path, "Conditions"@) && has_begun(
        reached(assertion, path)->Some_0.attributes,
        leeway,
        now,
    ) && still_holds(reached(assertion, path)->Some_0.attributes, leeway, now) && (
    audience matches Some(expected) ==> first_text(
        reached(assertion, path)->Some_0,
        "Audience"@,
        expected,
    ))
    ||| audience is None && forall|path: Seq<int>| !#[trigger]
        bears(assertion, path, "Conditions"@)
}

/// An assertion is within its window exactly where it holds.
proof fn lemma_holds(assertion: ElementModel, audience: Option<Seq<char>>, leeway: i64, now: i64)
    ensures
        window_verdict(assertion, audience, leeway, now) is Ok <==> holds_at(
            assertion,
            audience,
            leeway as int,
            now as int,
        ),
{
    found_is_the_first(assertion, "Conditions"@);
    if let Some(conditions) = first_named(assertion, "Conditions"@) {
        let first = choose|path: Seq<int>| #[trigger] is_first(assertion, path, "Conditions"@);
        assert(bears(assertion, first, "Conditions"@));
        let named = text_or_empty(first_named(conditions, "Audience"@));
        lemma_first_text(conditions, "Audience"@, named);
        if let Some(expected) = audience {
            lemma_first_text(conditions, "Audience"@, expected);
        }
        lemma_window(assertion, audience, leeway, now, first, named);
        assert forall|path: Seq<int>| #[trigger]
            is_first(assertion, path, "Conditions"@) implies reached(assertion, path) == Some(
            conditions,
        ) by {
        }
    } else {
        assert forall|path: Seq<int>| !#[trigger] is_first(assertion, path, "Conditions"@) by {
            assert(!bears(assertion, path, "Conditions"@));
        }
    }
}

/// Whether a document is signed with a key by what was decoded of it.
pub open spec fn is_signed(
    document: ElementModel,
    key: (Seq<u8>, Seq<u8>),
    digest: Option<Seq<u8>>,
    value: Option<Seq<u8>>,
) -> bool {
    exists|
        to_assertion: Seq<int>,
        to_signature: Seq<int>,
        to_info: Seq<int>,
        outside: Seq<Pair>,
        between: Seq<Pair>,
        inside: Seq<Pair>,
    | #[trigger]
        signed_at(
            document,
            key,
            digest,
            value,
            to_assertion,
            to_signature,
            to_info,
            outside,
            between,
            inside,
        )
}

/// Whether a claim is admitted by what was answered. It was presented as `saml`
/// with a proof that opens to UTF-8 text, without an encrypted assertion and
/// without a comment, that reads as a document signed with the key expected. Its
/// first `Assertion` names the value claimed as its subject, was issued by whom is
/// expected, if anyone is, and holds now and for the audience expected; and, if an
/// account is expected, one was read and said to be that.
pub open spec fn admitted(settings: Settings, claim: Claim, replies: RepliesModel) -> bool {
    &&& claim.mechanism == "saml"@
    &&& claim.assertion is Some
    &&& replies.opened matches Ok(bytes)
    &&& valid_utf8(bytes)
    &&& !holds_word(decode_utf8(bytes), "EncryptedAssertion"@)
    &&& !holds_word(decode_utf8(bytes), "<!--"@)
    &&& read_document(decode_utf8(bytes)) matches Ok(document)
    &&& is_signed(document, settings.key, replies.digest, replies.value)
    &&& exists|path: Seq<int>| #[trigger] is_first(document, path, "Assertion"@) && ({
        let assertion = reached(document, path)->Some_0;
        &&& names_subject(assertion, claim.value)
        &&& settings.issuer matches Some(issuer) ==> issued_by(assertion, issuer)
        &&& holds_at(assertion, settings.audience, settings.leeway as int, replies.now as int)
    })
    &&& settings.principal is Some ==> replies.named is Some && replies.agrees
}

/// Who is named and who issued decide on the parties.
proof fn lemma_parties_met(
    assertion: ElementModel,
    issuer: Option<Seq<char>>,
    subject: Seq<char>,
)
    ensures
        after(issuer_verdict(assertion, issuer), subject_verdict(assertion, subject)) is Ok
            <==> names_subject(assertion, subject) && (issuer matches Some(expected) ==> issued_by(
            assertion,
            expected,
        )),
{
    every_assertion_names_one_subject_and_one_issuer(assertion);
    let named = choose|text: Seq<char>| #[trigger] names_subject(assertion, text);
    let issued = choose|text: Seq<char>| #[trigger] issued_by(assertion, text);
    lemma_parties(assertion, issuer, subject, named, issued);
}

/// A claim is admitted exactly where all that is asked of it is met.
pub proof fn a_claim_is_admitted_where_all_is_met(
    settings: Settings,
    claim: Claim,
    replies: RepliesModel,
)
    ensures
        gate_verdict(settings, claim, replies) is Ok <==> admitted(settings, claim, replies),
        gate_verdict(settings, claim, replies) matches Ok(verified) ==> verified
            == Verified::Proven,
{
    if let Ok(bytes) = replies.opened {
        lemma_occurs(decode_utf8(bytes), "EncryptedAssertion"@);
        lemma_occurs(decode_utf8(bytes), "<!--"@);
        if let Ok(document) = read_document(decode_utf8(bytes)) {
            a_signature_is_accepted_where_the_document_is_signed(
                document,
                settings.key,
                replies.digest,
                replies.value,
            );
            found_is_the_first(document, "Assertion"@);
            if let Some(assertion) = first_named(document, "Assertion"@) {
                let path = choose|path: Seq<int>| #[trigger]
                    is_first(document, path, "Assertion"@);
                assert(bears(document, path, "Assertion"@));
                lemma_parties_met(assertion, settings.issuer, claim.value);
                lemma_holds(assertion, settings.audience, settings.leeway, replies.now);
                assert forall|other: Seq<int>| #[trigger]
                    is_first(document, other, "Assertion"@) implies reached(document, other)
                    == Some(assertion) by {
                }
            } else {
                assert forall|path: Seq<int>| !#[trigger] is_first(document, path, "Assertion"@) by {
                    assert(!bears(document, path, "Assertion"@));
                }
            }
        }
    }
}

/// So it is where a gate decides.
pub proof fn deciding_admits_where_all_is_met<C>(
    gate: &Verifier<C>,
    presented: &Presented,
    replies: &Replies,
    r: Result<Verified, AuthenticateError>,
)
    requires
        call_ensures(Verifier::<C>::decide, (gate, presented, replies), r),
    ensures
        r is Ok <==> admitted(
            gate.settings(),
            (Claim {
                mechanism: presented.mechanism@,
                value: presented.value@,
                assertion: text_view(presented.assertion),
            }),
            replies@,
        ),
{
    a_claim_is_admitted_where_all_is_met(gate.settings(), presented@, replies@);
}

/// What a claim is refused with is the first that fails: the mechanism, the
/// proof, its opening, its encoding, an encrypted assertion, a comment, its
/// reading, its signature, then the parties, the window and the account.
pub proof fn a_claim_is_refused_with_the_first_that_fails(
    settings: Settings,
    claim: Claim,
    replies: RepliesModel,
)
    ensures
        ({
            let verdict = gate_verdict(settings, claim, replies);
            &&& claim.mechanism != "saml"@ ==> verdict == Err::<Verified, Seq<char>>(
                "'"@ + claim.mechanism + "' was presented and this authenticator verifies saml"@,
            )
            &&& claim.mechanism == "saml"@ && claim.assertion is None ==> verdict == Err::<
                Verified,
                Seq<char>,
            >("no saml.assertion proof was presented"@)
            &&& claim.mechanism == "saml"@ && claim.assertion is Some ==> match replies.opened {
                Err(fault) => verdict == Err::<Verified, Seq<char>>(fault),
                Ok(bytes) => {
                    let text = decode_utf8(bytes);
                    &&& !valid_utf8(bytes) ==> verdict == Err::<Verified, Seq<char>>(
                        "the SAML assertion is not UTF-8 XML"@,
                    )
                    &&& valid_utf8(bytes) && holds_word(text, "EncryptedAssertion"@) ==> verdict
                        == Err::<Verified, Seq<char>>(
                        "the SAML response carries an EncryptedAssertion, which this gate cannot open"@,
                    )
                    &&& valid_utf8(bytes) && !holds_word(text, "EncryptedAssertion"@)
                        && holds_word(text, "<!--"@) ==> verdict == Err::<Verified, Seq<char>>(
                        "the SAML assertion holds an XML comment, which this gate refuses"@,
                    )
                    &&& valid_utf8(bytes) && !holds_word(text, "EncryptedAssertion"@)
                        && !holds_word(text, "<!--"@) ==> match read_document(text) {
                        Err(fault) => verdict == Err::<Verified, Seq<char>>(fault),
                        Ok(document) => {
                            let signed = signature_verdict(
                                document,
                                settings.key,
                                replies.digest,
                                replies.value,
                            );
                            let assertion = first_named(document, "Assertion"@)->Some_0;
                            let parties = after(
                                issuer_verdict(assertion, settings.issuer),
                                subject_verdict(assertion, claim.value),
                            );
                            let window = window_verdict(
                                assertion,
                                settings.audience,
                                settings.leeway,
                                replies.now,
                            );
                            &&& signed matches Err(fault) ==> verdict == Err::<
                                Verified,
                                Seq<char>,
                            >(fault)
                            &&& signed is Ok ==> first_named(document, "Assertion"@) is Some
                            &&& signed is Ok ==> (parties matches Err(fault) ==> verdict
                                == Err::<Verified, Seq<char>>(fault))
                            &&& signed is Ok && parties is Ok ==> (window matches Err(fault)
                                ==> verdict == Err::<Verified, Seq<char>>(fault))
                            &&& signed is Ok && parties is Ok && window is Ok ==> (
                            settings.principal matches Some(expected) ==> (principal_verdict(
                                expected,
                                replies.named,
                                replies.agrees,
                            ) matches Err(fault) ==> verdict == Err::<Verified, Seq<char>>(
                                fault,
                            )))
                        },
                    }
                },
            }
        }),
{
    if let Ok(bytes) = replies.opened {
        lemma_occurs(decode_utf8(bytes), "EncryptedAssertion"@);
        lemma_occurs(decode_utf8(bytes), "<!--"@);
    }
}

/// Whether opening the proof was asked of this text and gave this.
pub open spec fn opened_as<O: Fn(&str) -> Result<Vec<u8>, AuthenticateError>>(
    open: O,
    encoded: Seq<char>,
    opened: Result<Seq<u8>, Seq<char>>,
) -> bool {
    exists|asked: &str, answer: Result<Vec<u8>, AuthenticateError>|
        asked@ == encoded && #[trigger] call_ensures(open, (asked,), answer) && match (
            answer,
            opened,
        ) {
            (Ok(bytes), Ok(opened)) => bytes@ == opened,
            (Err(refusal), Err(fault)) => refusal.message@ == fault,
            _ => false,
        }
}

/// Whether a claim was admitted, or not, by these replies, and they were answered:
/// the proof was opened as it was presented and, where the claim was admitted, the
/// texts in the document were decoded, the clock gave the time, and the account
/// was asked of the assertion.
pub open spec fn admits<
    C: Fn() -> i64,
    O: Fn(&str) -> Result<Vec<u8>, AuthenticateError>,
    B: Fn(&str) -> Option<Vec<u8>>,
    U: Fn(&str) -> bool,
    P: Fn(&str, Option<&str>, Option<&str>) -> Option<String>,
    S: Fn(&str, &str) -> bool,
>(
    settings: Settings,
    time: C,
    claim: Claim,
    ask: Capabilities<O, B, U, P, S>,
    replies: RepliesModel,
    accepted: bool,
) -> bool {
    &&& accepted <==> admitted(settings, claim, replies)
    &&& claim.mechanism == "saml"@ && claim.assertion is Some ==> opened_as(
        ask.open,
        claim.assertion->Some_0,
        replies.opened,
    )
    &&& accepted ==> ({
        let document = read_document(decode_utf8(replies.opened->Ok_0))->Ok_0;
        &&& decoded(ask.base64, digest_text(document), replies.digest)
        &&& decoded(ask.base64, value_text(document), replies.value)
        &&& call_ensures(time, (), replies.now)
        &&& settings.principal matches Some(expected) ==> account_asked(
            first_named(document, "Assertion"@)->Some_0,
            expected,
            ask.is_upn,
            ask.user_principal,
            ask.same_account,
            replies.named,
            replies.agrees,
        )
    })
}

/// Verifying a claim admits it exactly where all that is asked of it is met by
/// what was answered: the proof was opened as it was presented, the texts in the
/// document it holds were decoded, the time is one the clock gave, and the
/// account was asked of the assertion.
pub proof fn verifying_admits_by_what_was_answered<
    C: Fn() -> i64,
    O: Fn(&str) -> Result<Vec<u8>, AuthenticateError>,
    B: Fn(&str) -> Option<Vec<u8>>,
    U: Fn(&str) -> bool,
    P: Fn(&str, Option<&str>, Option<&str>) -> Option<String>,
    S: Fn(&str, &str) -> bool,
>(
    gate: &Verifier<C>,
    presented: &Presented,
    ask: &Capabilities<O, B, U, P, S>,
    r: Result<Verified, AuthenticateError>,
)
    requires
        call_ensures(Verifier::<C>::verify::<O, B, U, P, S>, (gate, presented, ask), r),
    ensures
        exists|replies: RepliesModel| #[trigger]
            admits(
                gate.settings(),
                gate.time(),
                (Claim {
                    mechanism: presented.mechanism@,
                    value: presented.value@,
                    assertion: text_view(presented.assertion),
                }),
                *ask,
                replies,
                r is Ok,
            ),
{
    let settings = gate.settings();
    let claim = presented@;
    let replies = choose|replies: RepliesModel|
        replied(settings, gate.time(), claim, *ask, replies) && meets(
            r,
            #[trigger] gate_verdict(settings, claim, replies),
        );
    a_claim_is_admitted_where_all_is_met(settings, claim, replies);
    if claim.mechanism == "saml"@ && claim.assertion is Some {
        assert(opens(ask.open, claim.assertion->Some_0, replies.opened));
        assert(opened_as(ask.open, claim.assertion->Some_0, replies.opened));
    }
    if r is Ok {
        let document = read_document(decode_utf8(replies.opened->Ok_0))->Ok_0;
        assert(document_claimed(claim, replies) == Ok::<ElementModel, Seq<char>>(document));
        assert(decoded(ask.base64, digest_text(document), replies.digest));
        assert(decoded(ask.base64, value_text(document), replies.value));
        assert(assertion_attributed(settings, claim, replies) is Ok);
        let assertion = first_named(document, "Assertion"@)->Some_0;
        assert(assertion_timely(settings, claim, replies) == Ok::<ElementModel, Seq<char>>(
            assertion,
        ));
        if let Some(expected) = settings.principal {
            the_account_is_read_from_the_assertion(
                assertion,
                expected,
                ask.is_upn,
                ask.user_principal,
                ask.same_account,
                replies.named,
                replies.agrees,
            );
        }
    }
    assert(admits(settings, gate.time(), claim, *ask, replies, r is Ok));
}

/// A gate's conditions are met exactly where the assertion names the subject, was
/// issued by whom is expected, and holds at a time the clock gave; the clock is
/// read where the parties are right.
pub proof fn conditions_are_met_at_a_time_of_the_clock<C: Fn() -> i64>(
    gate: &Verifier<C>,
    assertion: &Element,
    subject: &str,
    r: Result<(), AuthenticateError>,
)
    requires
        call_ensures(Verifier::<C>::check_conditions, (gate, assertion, subject), r),
    ensures
        ({
            let settings = gate.settings();
            let parties = names_subject(assertion@, subject@) && (settings.issuer matches Some(
                expected,
            ) ==> issued_by(assertion@, expected));
            &&& !parties ==> r is Err
            &&& parties ==> exists|now: i64| #[trigger]
                call_ensures(gate.time(), (), now) && (r is Ok <==> holds_at(
                    assertion@,
                    settings.audience,
                    settings.leeway as int,
                    now as int,
                ))
        }),
{
    let settings = gate.settings();
    lemma_parties_met(assertion@, settings.issuer, subject@);
    if after(
        issuer_verdict(assertion@, settings.issuer),
        subject_verdict(assertion@, subject@),
    ) is Ok {
        let now = choose|now: i64|
            gives(gate.time(), now) && meets(
                r,
                #[trigger] window_verdict(assertion@, settings.audience, settings.leeway, now),
            );
        lemma_holds(assertion@, settings.audience, settings.leeway, now);
        assert(call_ensures(gate.time(), (), now));
    }
}

/// A gate asks for the account it expects, and for none where it expects none.
pub proof fn a_gate_asks_for_the_account_it_expects<
    C: Fn() -> i64,
    O: Fn(&str) -> Result<Vec<u8>, AuthenticateError>,
    B: Fn(&str) -> Option<Vec<u8>>,
    U: Fn(&str) -> bool,
    P: Fn(&str, Option<&str>, Option<&str>) -> Option<String>,
    S: Fn(&str, &str) -> bool,
>(
    gate: &Verifier<C>,
    assertion: &Element,
    ask: &Capabilities<O, B, U, P, S>,
    r: Result<(), AuthenticateError>,
)
    requires
        call_ensures(Verifier::<C>::check_principal::<O, B, U, P, S>, (gate, assertion, ask), r),
    ensures
        gate.settings().principal is None ==> r is Ok,
        gate.settings().principal matches Some(expected) ==> exists|
            named: Option<Seq<char>>,
            agrees: bool,
        | #[trigger]
            account_asked(
                assertion@,
                expected,
                ask.is_upn,
                ask.user_principal,
                ask.same_account,
                named,
                agrees,
            ) && (r is Ok <==> named is Some && agrees),
{
    the_account_is_the_one_expected(
        assertion@,
        gate.settings().principal,
        ask.is_upn,
        ask.user_principal,
        ask.same_account,
        r,
    );
}

/// Opening a document reads the text of the bytes, unless it holds an encrypted
/// assertion or a comment.
pub proof fn a_document_is_opened_from_its_text(
    opened: &Result<Vec<u8>, AuthenticateError>,
    r: Result<Element, AuthenticateError>,
)
    requires
        call_ensures(open_document, (opened,), r),
    ensures
        match opened {
            Err(refusal) => r matches Err(passed) && passed.message@ == refusal.message@,
            Ok(bytes) => if valid_utf8(bytes@) && !holds_word(
                decode_utf8(bytes@),
                "EncryptedAssertion"@,
            ) && !holds_word(decode_utf8(bytes@), "<!--"@) {
                meets(r, read_document(decode_utf8(bytes@)))
            } else {
                r is Err
            },
        },
{
    if let Ok(bytes) = opened {
        lemma_occurs(decode_utf8(bytes@), "EncryptedAssertion"@);
        lemma_occurs(decode_utf8(bytes@), "<!--"@);
    }
}

/// A gate expects what it was last told to, and being told one thing changes
/// nothing else of it.
pub proof fn a_gate_expects_what_it_was_told<C>(
    gate: Verifier<C>,
    text: &str,
    seconds: i64,
    by_issuer: Verifier<C>,
    by_audience: Verifier<C>,
    by_principal: Verifier<C>,
    by_leeway: Verifier<C>,
)
    requires
        call_ensures(Verifier::<C>::expecting_issuer, (gate, text), by_issuer),
        call_ensures(Verifier::<C>::expecting_audience, (gate, text), by_audience),
        call_ensures(Verifier::<C>::expecting_principal, (gate, text), by_principal),
        call_ensures(Verifier::<C>::with_leeway, (gate, seconds), by_leeway),
    ensures
        by_issuer.settings().issuer == Some(text@),
        by_issuer.settings().key == gate.settings().key,
        by_issuer.settings().audience == gate.settings().audience,
        by_issuer.settings().principal == gate.settings().principal,
        by_issuer.settings().leeway == gate.settings().leeway,
        by_issuer.time() == gate.time(),
        by_audience.settings().audience == Some(text@),
        by_audience.settings().key == gate.settings().key,
        by_audience.settings().issuer == gate.settings().issuer,
        by_audience.settings().principal == gate.settings().principal,
        by_audience.settings().leeway == gate.settings().leeway,
        by_audience.time() == gate.time(),
        by_principal.settings().principal == Some(text@),
        by_principal.settings().key == gate.settings().key,
        by_principal.settings().issuer == gate.settings().issuer,
        by_principal.settings().audience == gate.settings().audience,
        by_principal.settings().leeway == gate.settings().leeway,
        by_principal.time() == gate.time(),
        by_leeway.settings().leeway == seconds,
        by_leeway.settings().key == gate.settings().key,
        by_leeway.settings().issuer == gate.settings().issuer,
        by_leeway.settings().audience == gate.settings().audience,
        by_leeway.settings().principal == gate.settings().principal,
        by_leeway.time() == gate.time(),
{
}

/// A gate that is given a clock has the time from that, and expects what it did.
pub proof fn a_gate_has_the_time_from_its_clock<C, F: Fn() -> i64 + Send + Sync + 'static>(
    gate: Verifier<C>,
    clock: F,
    r: Verifier<F>,
)
    requires
        call_ensures(Verifier::<C>::with_clock::<F>, (gate, clock), r),
    ensures
        r.time() == clock,
        r.settings() == gate.settings(),
{
}

/// A gate goes by the `saml` mechanism.
pub proof fn a_gate_goes_by_its_mechanism<C>(gate: &Verifier<C>, r: &'static str)
    requires
        call_ensures(Verifier::<C>::mechanism, (gate,), r),
    ensures
        r@ == "saml"@,
{
}

/// The key of a certificate made of a key is that key.
pub proof fn a_key_is_kept_as_it_is(key: RsaKey, r: IdpCertificate, given: &RsaKey)
    requires
        call_ensures(IdpCertificate::from_public_key, (key,), r),
        call_ensures(IdpCertificate::key, (&r,), given),
    ensures
        given.modulus@ == key.modulus@,
        given.exponent@ == key.exponent@,
{
}

/// A new gate expects the key of its certificate, no issuer, no audience and no
/// account, allows a clock to be off by sixty seconds, and has the time from the
/// system's clock.
pub proof fn a_new_gate_expects_the_key_alone(certificate: IdpCertificate)
    ensures
        forall|gate| #[trigger]
            call_ensures(Verifier::<()>::new, (certificate,), gate) ==> gate.settings()
                == (Settings {
                key: certificate@,
                issuer: None,
                audience: None,
                principal: None,
                leeway: 60,
            }) && forall|at: i64| #[trigger]
                call_ensures(gate.time(), (), at) ==> is_system_time(at),
{
    assert forall|gate| #[trigger]
        call_ensures(Verifier::<()>::new, (certificate,), gate) implies forall|at: i64| #[trigger]
        call_ensures(gate.time(), (), at) ==> is_system_time(at) by {
        assert forall|at: i64| #[trigger] call_ensures(gate.time(), (), at) implies is_system_time(
            at,
        ) by {
            assert(gives(gate.time(), at));
        }
    }
}

} // verus!
