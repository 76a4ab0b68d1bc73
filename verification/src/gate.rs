//! The authenticator: an assertion opened, its signature verified, and its
//! conditions and its account checked.

use crate::certificate::IdpCertificate;
use crate::clock::{gives, is_system_time, lemma_now, now, ready};
use crate::conditions::{
    check_parties, check_window, issuer_verdict, subject_verdict, text_view, window_verdict,
};
use crate::error::{after, ensure, expect, meets, AuthenticateError};
use crate::principal::{
    account_read, check_principal, decide_principal, principal_checked, principal_verdict,
};
use crate::reader::read_document;
use crate::signature::{
    answers, bytes_view, digest_text, judge, signature_verdict, value_text, verify, NO_ASSERTION,
};
use crate::text::{contains, occurs, same};
use crate::xml::{first_named, Element, ElementModel};
use vstd::prelude::*;
use vstd::utf8::{decode_utf8, valid_utf8};

verus! {

/// The mechanism this authenticator verifies.
pub const MECHANISM: &'static str = "saml";

pub const NO_PROOF: &'static str = "no saml.assertion proof was presented";

pub const NOT_UTF8: &'static str = "the SAML assertion is not UTF-8 XML";

pub const ENCRYPTED: &'static str =
    "the SAML response carries an EncryptedAssertion, which this gate cannot open";

pub const HOLDS_COMMENT: &'static str =
    "the SAML assertion holds an XML comment, which this gate refuses";

/// What verifying a claim comes to, where it is not refused.
#[derive(Clone, Copy, Debug, PartialEq, Eq, Structural)]
pub enum Verified {
    /// The claim is proven.
    Proven,
}

impl View for Verified {
    type V = Verified;

    open spec fn view(&self) -> Verified {
        *self
    }
}

/// A claim, as it was presented.
#[derive(Clone, Debug, PartialEq, Eq)]
pub struct Presented {
    /// The name of the mechanism it was presented by.
    pub mechanism: String,
    /// The value claimed.
    pub value: String,
    /// The `saml.assertion` proof, where one was presented.
    pub assertion: Option<String>,
}

/// What a gate expects: the key that signs, the issuer, the audience and the
/// account, where one of each is expected, and how far a clock may be off.
#[verifier::ext_equal]
pub struct Settings {
    pub key: (Seq<u8>, Seq<u8>),
    pub issuer: Option<Seq<char>>,
    pub audience: Option<Seq<char>>,
    pub principal: Option<Seq<char>>,
    pub leeway: i64,
}

/// The saml authenticator: the `IdP` certificate, the issuer and audience it
/// expects, and how far a clock may be off.
pub struct Verifier<C> {
    certificate: IdpCertificate,
    issuer: Option<String>,
    audience: Option<String>,
    principal: Option<String>,
    leeway: i64,
    clock: C,
}

impl<C> Verifier<C> {
    /// What this gate expects.
    pub closed spec fn settings(&self) -> Settings {
        Settings {
            key: self.certificate@,
            issuer: text_view(self.issuer),
            audience: text_view(self.audience),
            principal: text_view(self.principal),
            leeway: self.leeway,
        }
    }

    /// Where this gate has the time from.
    pub closed spec fn time(&self) -> C {
        self.clock
    }
}

impl Verifier<()> {
    /// Verifies against this certificate, expecting no issuer or audience,
    /// with sixty seconds of leeway and the system clock.
    #[must_use]
    pub fn new(certificate: IdpCertificate) -> (r: Verifier<impl Fn() -> i64>)
        ensures
            r.settings() == (Settings {
                key: certificate@,
                issuer: None,
                audience: None,
                principal: None,
                leeway: 60,
            }),
            ready(r.time()),
            forall|at: i64| #[trigger] gives(r.time(), at) ==> is_system_time(at) && at >= 0,
    {
        proof {
            lemma_now();
        }
        Verifier {
            certificate,
            issuer: None,
            audience: None,
            principal: None,
            leeway: 60,
            clock: now,
        }
    }
}

impl<C> Verifier<C> {
    /// Refuse an assertion whose `Issuer` is not this.
    #[must_use]
    pub fn expecting_issuer(self, issuer: &str) -> (r: Self)
        ensures
            r.settings() == (Settings { issuer: Some(issuer@), ..self.settings() }),
            r.time() == self.time(),
    {
        Verifier { issuer: Some(issuer.to_owned()), ..self }
    }

    /// Refuse an assertion whose audience does not name this.
    #[must_use]
    pub fn expecting_audience(self, audience: &str) -> (r: Self)
        ensures
            r.settings() == (Settings { audience: Some(audience@), ..self.settings() }),
            r.time() == self.time(),
    {
        Verifier { audience: Some(audience.to_owned()), ..self }
    }

    /// Refuse an assertion that does not name this account, in its `NameID`
    /// or else in its `upn` attribute. Any spelling of the account meets it.
    #[must_use]
    pub fn expecting_principal(self, principal: &str) -> (r: Self)
        ensures
            r.settings() == (Settings { principal: Some(principal@), ..self.settings() }),
            r.time() == self.time(),
    {
        Verifier { principal: Some(principal.to_owned()), ..self }
    }

    /// How far a clock may be off before the conditions bite.
    #[must_use]
    pub fn with_leeway(self, seconds: i64) -> (r: Self)
        ensures
            r.settings() == (Settings { leeway: seconds, ..self.settings() }),
            r.time() == self.time(),
    {
        Verifier { leeway: seconds, ..self }
    }

    /// Where the time comes from.
    #[must_use]
    pub fn with_clock<F: Fn() -> i64 + Send + Sync + 'static>(self, clock: F) -> (r: Verifier<
        F,
    >)
        ensures
            r.settings() == self.settings(),
            r.time() == clock,
    {
        Verifier {
            certificate: self.certificate,
            issuer: self.issuer,
            audience: self.audience,
            principal: self.principal,
            leeway: self.leeway,
            clock,
        }
    }

    /// The mechanism this authenticator verifies.
    #[must_use]
    pub fn mechanism(&self) -> (r: &'static str)
        ensures
            r@ == MECHANISM@,
    {
        MECHANISM
    }
}

/// A claim: the mechanism, the value and the proof it was presented with.
#[verifier::ext_equal]
pub struct Claim {
    pub mechanism: Seq<char>,
    pub value: Seq<char>,
    pub assertion: Option<Seq<char>>,
}

impl View for Presented {
    type V = Claim;

    open spec fn view(&self) -> Claim {
        Claim {
            mechanism: self.mechanism@,
            value: self.value@,
            assertion: text_view(self.assertion),
        }
    }
}

/// What the capabilities a gate asks have answered it.
#[derive(Debug, PartialEq, Eq)]
pub struct Replies {
    /// The bytes of the proof, opened.
    pub opened: Result<Vec<u8>, AuthenticateError>,
    /// The bytes of the `DigestValue`; none where it is not base64.
    pub digest: Option<Vec<u8>>,
    /// The bytes of the `SignatureValue`; none where it is not base64.
    pub value: Option<Vec<u8>>,
    /// The time, in seconds since the Unix epoch.
    pub now: i64,
    /// How the account the assertion names is spelled, where it names one.
    pub named: Option<String>,
    /// Whether that is the account expected.
    pub agrees: bool,
}

/// The replies, as mathematical values.
#[verifier::ext_equal]
pub struct RepliesModel {
    pub opened: Result<Seq<u8>, Seq<char>>,
    pub digest: Option<Seq<u8>>,
    pub value: Option<Seq<u8>>,
    pub now: i64,
    pub named: Option<Seq<char>>,
    pub agrees: bool,
}

/// The bytes of an opened proof, or why it does not open.
pub open spec fn opened_view(opened: Result<Vec<u8>, AuthenticateError>) -> Result<
    Seq<u8>,
    Seq<char>,
> {
    match opened {
        Ok(bytes) => Ok(bytes@),
        Err(refusal) => Err(refusal.message@),
    }
}

impl View for Replies {
    type V = RepliesModel;

    open spec fn view(&self) -> RepliesModel {
        RepliesModel {
            opened: opened_view(self.opened),
            digest: bytes_view(self.digest),
            value: bytes_view(self.value),
            now: self.now,
            named: text_view(self.named),
            agrees: self.agrees,
        }
    }
}

/// The proof to be opened.
pub open spec fn proof_of(claim: Claim) -> Result<Seq<char>, Seq<char>> {
    if claim.mechanism != MECHANISM@ {
        Err("'"@ + claim.mechanism + "' was presented and this authenticator verifies saml"@)
    } else {
        match claim.assertion {
            Some(encoded) => Ok(encoded),
            None => Err(NO_PROOF@),
        }
    }
}

/// The document that an opened proof holds.
pub open spec fn document_of(opened: Result<Seq<u8>, Seq<char>>) -> Result<
    ElementModel,
    Seq<char>,
> {
    match opened {
        Err(fault) => Err(fault),
        Ok(bytes) => if !valid_utf8(bytes) {
            Err(NOT_UTF8@)
        } else if contains(decode_utf8(bytes), "EncryptedAssertion"@) {
            Err(ENCRYPTED@)
        } else if contains(decode_utf8(bytes), "<!--"@) {
            Err(HOLDS_COMMENT@)
        } else {
            read_document(decode_utf8(bytes))
        },
    }
}

/// The document a claim is proven by.
pub open spec fn document_claimed(claim: Claim, replies: RepliesModel) -> Result<
    ElementModel,
    Seq<char>,
> {
    match proof_of(claim) {
        Err(fault) => Err(fault),
        Ok(_) => document_of(replies.opened),
    }
}

/// The assertion of the document, its signature verified.
pub open spec fn assertion_signed(
    settings: Settings,
    claim: Claim,
    replies: RepliesModel,
) -> Result<ElementModel, Seq<char>> {
    match document_claimed(claim, replies) {
        Err(fault) => Err(fault),
        Ok(document) => match signature_verdict(
            document,
            settings.key,
            replies.digest,
            replies.value,
        ) {
            Err(fault) => Err(fault),
            Ok(_) => match first_named(document, "Assertion"@) {
                Some(assertion) => Ok(assertion),
                None => Err(NO_ASSERTION@),
            },
        },
    }
}

/// The assertion, by the issuer expected and about the subject claimed.
pub open spec fn assertion_attributed(
    settings: Settings,
    claim: Claim,
    replies: RepliesModel,
) -> Result<ElementModel, Seq<char>> {
    match assertion_signed(settings, claim, replies) {
        Err(fault) => Err(fault),
        Ok(assertion) => match after(
            issuer_verdict(assertion, settings.issuer),
            subject_verdict(assertion, claim.value),
        ) {
            Err(fault) => Err(fault),
            Ok(_) => Ok(assertion),
        },
    }
}

/// The assertion, within its window and for the audience expected.
pub open spec fn assertion_timely(
    settings: Settings,
    claim: Claim,
    replies: RepliesModel,
) -> Result<ElementModel, Seq<char>> {
    match assertion_attributed(settings, claim, replies) {
        Err(fault) => Err(fault),
        Ok(assertion) => match window_verdict(
            assertion,
            settings.audience,
            settings.leeway,
            replies.now,
        ) {
            Err(fault) => Err(fault),
            Ok(_) => Ok(assertion),
        },
    }
}

/// The verdict on a claim, by what was answered.
pub open spec fn gate_verdict(settings: Settings, claim: Claim, replies: RepliesModel) -> Result<
    Verified,
    Seq<char>,
> {
    match assertion_timely(settings, claim, replies) {
        Err(fault) => Err(fault),
        Ok(assertion) => match settings.principal {
            None => Ok(Verified::Proven),
            Some(expected) => match principal_verdict(expected, replies.named, replies.agrees) {
                Err(fault) => Err(fault),
                Ok(_) => Ok(Verified::Proven),
            },
        },
    }
}

/// The proof a claim was presented with.
///
/// # Errors
///
/// Where the claim was presented by another mechanism, or without the proof.
fn presented_proof(presented: &Presented) -> (r: Result<&String, AuthenticateError>)
    ensures
        match r {
            Ok(encoded) => proof_of(presented@) == Ok::<Seq<char>, Seq<char>>(encoded@),
            Err(refusal) => proof_of(presented@) == Err::<Seq<char>, Seq<char>>(refusal.message@),
        },
{
    if !same(presented.mechanism.as_str(), MECHANISM) {
        return Err(
            AuthenticateError::naming(
                "'",
                presented.mechanism.as_str(),
                "' was presented and this authenticator verifies saml",
            ),
        );
    }
    match &presented.assertion {
        Some(encoded) => Ok(encoded),
        None => Err(AuthenticateError::new(NO_PROOF)),
    }
}

/// The document that an opened proof holds.
///
/// # Errors
///
/// Where the proof did not open, is not UTF-8, holds an encrypted assertion or a
/// comment, or is not the XML this gate reads.
pub fn open_document(opened: &Result<Vec<u8>, AuthenticateError>) -> (r: Result<
    Element,
    AuthenticateError,
>)
    ensures
        meets(r, document_of(opened_view(*opened))),
{
    match opened {
        Err(refusal) => Err(AuthenticateError::new(refusal.message.as_str())),
        Ok(bytes) => match core::str::from_utf8(bytes.as_slice()) {
            Err(_) => Err(AuthenticateError::new(NOT_UTF8)),
            Ok(xml) => {
                ensure(!occurs(xml, "EncryptedAssertion"), ENCRYPTED)?;
                ensure(!occurs(xml, "<!--"), HOLDS_COMMENT)?;
                Element::parse(xml)
            },
        },
    }
}

impl<C> Verifier<C> {
    /// Decide on a claim by what the capabilities have answered.
    ///
    /// # Errors
    ///
    /// Where the claim is not proven.
    pub fn decide(&self, presented: &Presented, replies: &Replies) -> (r: Result<
        Verified,
        AuthenticateError,
    >)
        ensures
            meets(r, gate_verdict(self.settings(), presented@, replies@)),
    {
        presented_proof(presented)?;
        let document = open_document(&replies.opened)?;
        judge(&document, self.certificate.key(), &replies.digest, &replies.value)?;
        let assertion = expect(document.find("Assertion"), NO_ASSERTION)?;
        check_parties(assertion, &self.issuer, presented.value.as_str())?;
        check_window(assertion, &self.audience, self.leeway, replies.now)?;
        if let Some(expected) = &self.principal {
            decide_principal(expected.as_str(), &replies.named, replies.agrees)?;
        }
        Ok(Verified::Proven)
    }
}

/// What a gate asks of the capabilities beside it.
pub struct Capabilities<O, B, U, P, S> {
    /// Opens a `saml.assertion` proof: the bytes it encodes.
    pub open: O,
    /// Decodes base64; none where the text is not base64.
    pub base64: B,
    /// Whether an attribute of this name carries a user principal name.
    pub is_upn: U,
    /// How the account is spelled that a `NameID`, its format and a upn
    /// attribute name; none where they name none.
    pub user_principal: P,
    /// Whether two spellings name one account.
    pub same_account: S,
}

/// Whether the capabilities can be asked anything.
pub open spec fn answering<
    O: Fn(&str) -> Result<Vec<u8>, AuthenticateError>,
    B: Fn(&str) -> Option<Vec<u8>>,
    U: Fn(&str) -> bool,
    P: Fn(&str, Option<&str>, Option<&str>) -> Option<String>,
    S: Fn(&str, &str) -> bool,
>(ask: Capabilities<O, B, U, P, S>) -> bool {
    &&& forall|text: &str| call_requires(ask.open, (text,))
    &&& forall|text: &str| call_requires(ask.base64, (text,))
    &&& forall|name: &str| call_requires(ask.is_upn, (name,))
    &&& forall|a: &str, b: Option<&str>, c: Option<&str>|
        call_requires(ask.user_principal, (a, b, c))
    &&& forall|a: &str, b: &str| call_requires(ask.same_account, (a, b))
}

/// Whether `opened` may be what opening the proof gives.
pub open spec fn opens<O: Fn(&str) -> Result<Vec<u8>, AuthenticateError>>(
    open: O,
    encoded: Seq<char>,
    opened: Result<Seq<u8>, Seq<char>>,
) -> bool {
    exists|asked: &str, answer: Result<Vec<u8>, AuthenticateError>|
        asked@ == encoded && #[trigger] call_ensures(open, (asked,), answer) && opened_view(answer)
            == opened
}

/// Whether the replies are what the capabilities and the clock answered,
/// wherever the claim got far enough for one of them to be asked.
pub open spec fn replied<
    C: Fn() -> i64,
    O: Fn(&str) -> Result<Vec<u8>, AuthenticateError>,
    B: Fn(&str) -> Option<Vec<u8>>,
    U: Fn(&str) -> bool,
    P: Fn(&str, Option<&str>, Option<&str>) -> Option<String>,
    S: Fn(&str, &str) -> bool,
>(
    settings: Settings,
    time: C,
    claim: Claim,
    ask: Capabilities<O, B, U, P, S>,
    replies: RepliesModel,
) -> bool {
    &&& proof_of(claim) matches Ok(encoded) ==> opens(ask.open, encoded, replies.opened)
    &&& document_claimed(claim, replies) matches Ok(document) ==> answers(
        ask.base64,
        digest_text(document),
        replies.digest,
    ) && answers(ask.base64, value_text(document), replies.value)
    &&& assertion_attributed(settings, claim, replies) is Ok ==> gives(time, replies.now)
    &&& assertion_timely(settings, claim, replies) matches Ok(assertion) ==> (settings.principal
        matches Some(expected) ==> account_read(
        assertion,
        expected,
        ask.is_upn,
        ask.user_principal,
        ask.same_account,
        replies.named,
        replies.agrees,
    ))
}

/// Whether this is a verdict on the conditions of an assertion, at a time the
/// clock gives once the issuer and the subject are right.
pub open spec fn conditions_checked<C: Fn() -> i64>(
    settings: Settings,
    time: C,
    assertion: ElementModel,
    subject: Seq<char>,
    result: Result<(), AuthenticateError>,
) -> bool {
    match after(issuer_verdict(assertion, settings.issuer), subject_verdict(assertion, subject)) {
        Err(fault) => result matches Err(refusal) && refusal.message@ == fault,
        Ok(_) => exists|now: i64|
            gives(time, now) && meets(
                result,
                #[trigger] window_verdict(assertion, settings.audience, settings.leeway, now),
            ),
    }
}

impl<C: Fn() -> i64> Verifier<C> {
    /// Check the assertion's conditions: its issuer, its subject, its window and
    /// its audience.
    ///
    /// # Errors
    ///
    /// Where one of them is not what this gate expects.
    pub fn check_conditions(&self, assertion: &Element, subject: &str) -> (r: Result<
        (),
        AuthenticateError,
    >)
        requires
            ready(self.time()),
        ensures
            conditions_checked(self.settings(), self.time(), assertion@, subject@, r),
    {
        check_parties(assertion, &self.issuer, subject)?;
        let now = (self.clock)();
        check_window(assertion, &self.audience, self.leeway, now)
    }

    /// Where an account is expected, check that the assertion names it.
    ///
    /// # Errors
    ///
    /// Where an account is expected and the assertion names none, or another.
    pub fn check_principal<
        O: Fn(&str) -> Result<Vec<u8>, AuthenticateError>,
        B: Fn(&str) -> Option<Vec<u8>>,
        U: Fn(&str) -> bool,
        P: Fn(&str, Option<&str>, Option<&str>) -> Option<String>,
        S: Fn(&str, &str) -> bool,
    >(&self, assertion: &Element, ask: &Capabilities<O, B, U, P, S>) -> (r: Result<
        (),
        AuthenticateError,
    >)
        requires
            answering(*ask),
        ensures
            principal_checked(
                assertion@,
                self.settings().principal,
                ask.is_upn,
                ask.user_principal,
                ask.same_account,
                r,
            ),
    {
        check_principal(
            assertion,
            &self.principal,
            &ask.is_upn,
            &ask.user_principal,
            &ask.same_account,
        )
    }

    /// Verify a claim: open its assertion, verify the signature, and check the
    /// conditions and the account.
    ///
    /// # Errors
    ///
    /// Where the claim is not proven.
    pub fn verify<
        O: Fn(&str) -> Result<Vec<u8>, AuthenticateError>,
        B: Fn(&str) -> Option<Vec<u8>>,
        U: Fn(&str) -> bool,
        P: Fn(&str, Option<&str>, Option<&str>) -> Option<String>,
        S: Fn(&str, &str) -> bool,
    >(&self, presented: &Presented, ask: &Capabilities<O, B, U, P, S>) -> (r: Result<
        Verified,
        AuthenticateError,
    >)
        requires
            ready(self.time()),
            answering(*ask),
        ensures
            exists|replies: RepliesModel|
                replied(self.settings(), self.time(), presented@, *ask, replies) && meets(
                    r,
                    #[trigger] gate_verdict(self.settings(), presented@, replies),
                ),
    {
        let ghost settings = self.settings();
        let ghost claim = presented@;
        let ghost mut replies = RepliesModel {
            opened: Err(Seq::empty()),
            digest: None,
            value: None,
            now: 0,
            named: None,
            agrees: false,
        };
        let encoded = match presented_proof(presented) {
            Ok(encoded) => encoded,
            Err(refusal) => {
                assert(gate_verdict(settings, claim, replies) == Err::<Verified, Seq<char>>(
                    refusal.message@,
                ));
                return Err(refusal);
            },
        };
        let opened = (ask.open)(encoded.as_str());
        proof {
            replies = RepliesModel { opened: opened_view(opened), ..replies };
            assert(opens(ask.open, encoded@, replies.opened));
        }
        let document = match open_document(&opened) {
            Ok(document) => document,
            Err(refusal) => {
                assert(gate_verdict(settings, claim, replies) == Err::<Verified, Seq<char>>(
                    refusal.message@,
                ));
                return Err(refusal);
            },
        };
        let signed = verify(&document, self.certificate.key(), &ask.base64);
        proof {
            let (digest, value) = choose|digest: Option<Seq<u8>>, value: Option<Seq<u8>>|
                answers(ask.base64, digest_text(document@), digest) && answers(
                    ask.base64,
                    value_text(document@),
                    value,
                ) && meets(
                    signed,
                    #[trigger] signature_verdict(document@, settings.key, digest, value),
                );
            replies = RepliesModel { digest, value, ..replies };
        }
        if let Err(refusal) = signed {
            assert(gate_verdict(settings, claim, replies) == Err::<Verified, Seq<char>>(
                refusal.message@,
            ));
            return Err(refusal);
        }
        let assertion = match document.find("Assertion") {
            Some(assertion) => assertion,
            None => {
                assert(gate_verdict(settings, claim, replies) == Err::<Verified, Seq<char>>(
                    NO_ASSERTION@,
                ));
                return Err(AuthenticateError::new(NO_ASSERTION));
            },
        };
        let met = self.check_conditions(assertion, presented.value.as_str());
        proof {
            if assertion_attributed(settings, claim, replies) is Ok {
                let now = choose|now: i64|
                    gives(self.time(), now) && meets(
                        met,
                        #[trigger] window_verdict(
                            assertion@,
                            settings.audience,
                            settings.leeway,
                            now,
                        ),
                    );
                replies = RepliesModel { now, ..replies };
            }
        }
        if let Err(refusal) = met {
            assert(gate_verdict(settings, claim, replies) == Err::<Verified, Seq<char>>(
                refusal.message@,
            ));
            return Err(refusal);
        }
        let named = self.check_principal(assertion, ask);
        proof {
            if let Some(expected) = settings.principal {
                let (spelling, agrees) = choose|spelling: Option<Seq<char>>, agrees: bool|
                    account_read(
                        assertion@,
                        expected,
                        ask.is_upn,
                        ask.user_principal,
                        ask.same_account,
                        spelling,
                        agrees,
                    ) && meets(named, #[trigger] principal_verdict(expected, spelling, agrees));
                replies = RepliesModel { named: spelling, agrees, ..replies };
            }
            assert(assertion_timely(settings, claim, replies) == Ok::<ElementModel, Seq<char>>(
                assertion@,
            ));
        }
        match named {
            Ok(_) => {
                assert(meets(
                    Ok::<Verified, AuthenticateError>(Verified::Proven),
                    gate_verdict(settings, claim, replies),
                ));
                Ok(Verified::Proven)
            },
            Err(refusal) => {
                assert(gate_verdict(settings, claim, replies) == Err::<Verified, Seq<char>>(
                    refusal.message@,
                ));
                Err(refusal)
            },
        }
    }
}

} // verus!
