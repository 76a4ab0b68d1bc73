use authenticate_saml::clock::epoch_seconds;
use authenticate_saml::gate::open_document;
use authenticate_saml::principal::decide_principal;
use authenticate_saml::signature::{canonical_texts, check_methods, decide, judge, verify};
use authenticate_saml::{
    now, AuthenticateError, Capabilities, Element, IdpCertificate, Presented, Replies, RsaKey,
    Verified, Verifier,
};
use base64::engine::general_purpose::STANDARD;
use base64::Engine;
use rsa::pkcs1v15::SigningKey;
use rsa::sha2::{Digest, Sha256};
use rsa::signature::{SignatureEncoding, Signer};
use rsa::traits::PublicKeyParts;
use rsa::{RsaPrivateKey, RsaPublicKey};

const NOW: i64 = 1_800_000_000; // 2027-01-15T08:00:00Z.
const ISSUER: &str = "https://idp.example";
const AUDIENCE: &str = "https://xmip.example/acs";
const UPN: &str = "http://schemas.xmlsoap.org/ws/2005/05/identity/claims/upn";
const SAML_NS: &str = "urn:oasis:names:tc:SAML:2.0:assertion";
const DS_NS: &str = "http://www.w3.org/2000/09/xmldsig#";
const ENVELOPED: &str = "http://www.w3.org/2000/09/xmldsig#enveloped-signature";
const EXCLUSIVE: &str = "http://www.w3.org/2001/10/xml-exc-c14n#";

fn key() -> RsaPrivateKey {
    RsaPrivateKey::new(&mut rand::rngs::OsRng, 2048).expect("a key")
}

/// A key that is quick to make.
fn small_key() -> RsaPrivateKey {
    RsaPrivateKey::new(&mut rand::rngs::OsRng, 768).expect("a key")
}

fn public(private: &RsaPrivateKey) -> RsaKey {
    let key = RsaPublicKey::from(private);
    RsaKey {
        modulus: key.n().to_bytes_be(),
        exponent: key.e().to_bytes_be(),
    }
}

/// The modulus of another provider's key, in hexadecimal.
const ANOTHER_MODULUS: &str = "d9c517b71e5a143dd2fa07b40a1d442c4b955da2324fa2e4e74fb858d3aca28d\
    02c05c37306043ceb48de3461da363023edab30df27c68c9b8c1c8a51c3c416b\
    91ccdfc6fd3a42738f04ec92b3c0cfd4eebe43cdd815ce2f3bc69a997a2f832a\
    2cec1d79320bf5a17ddb12b33625f93b6e90536206ce6987d834a1e32eb3e02c\
    a20e353a38d6395d7db2be18cc3fa643a4df89a70351f982e039c30b8c406beb\
    901c464d4d7d754a4cac594601efbd183fecac4afa1e78ab4053e17fa2dfc42d\
    8522c96569e57022762cd01f3a1b208a6294d410603f699f1e98cfce393be093\
    e1fd8a967cd2ba8f380a2353df4e5b6ee5446f9bd48405f2ee4495fc40f602d3";

/// Another provider's public key, of 2048 bits.
fn another_public() -> RsaKey {
    let digits = ANOTHER_MODULUS.as_bytes();
    let pair = |at: usize| std::str::from_utf8(&digits[at..at + 2]).expect("digits");
    RsaKey {
        modulus: (0..digits.len() / 2)
            .map(|i| u8::from_str_radix(pair(2 * i), 16).expect("a byte"))
            .collect(),
        exponent: vec![1, 0, 1],
    }
}

fn decode(text: &str) -> Option<Vec<u8>> {
    STANDARD.decode(text).ok()
}

fn transform(algorithm: &str) -> String {
    format!(r#"<ds:Transform Algorithm="{algorithm}"></ds:Transform>"#)
}

/// A `SignedInfo` referencing the assertion `id` with `digest`.
fn signed_info(id: &str, digest: &str, transforms: &str) -> String {
    let methods = r##"<ds:SignedInfo><ds:CanonicalizationMethod Algorithm="http://www.w3.org/2001/10/xml-exc-c14n#"></ds:CanonicalizationMethod><ds:SignatureMethod Algorithm="http://www.w3.org/2001/04/xmldsig-more#rsa-sha256"></ds:SignatureMethod>"##;
    let digest_method = r##"<ds:DigestMethod Algorithm="http://www.w3.org/2001/04/xmlenc#sha256"></ds:DigestMethod>"##;
    format!(
        "{methods}<ds:Reference URI=\"#{id}\"><ds:Transforms>{transforms}</ds:Transforms>{digest_method}<ds:DigestValue>{digest}</ds:DigestValue></ds:Reference></ds:SignedInfo>"
    )
}

/// An assertion signed with these transforms stated, from `body` (the children
/// between the signature and the close), for `id`.
fn signed_stating(key: &RsaPrivateKey, id: &str, body: &str, transforms: &str) -> String {
    let assertion = |signature: &str| {
        format!(
            r#"<saml:Assertion xmlns:saml="{SAML_NS}" xmlns:ds="{DS_NS}" ID="{id}">{signature}{body}</saml:Assertion>"#
        )
    };
    // Digest over the assertion with an empty Signature element removed.
    let without = Element::parse(&assertion("<ds:Signature></ds:Signature>")).expect("xml");
    let mut bare = without.clone();
    bare.remove_first(&|element: &Element| element.local() == "Signature");
    let digest = STANDARD.encode(Sha256::digest(bare.canonical(&[]).as_bytes()));

    let signed_info = signed_info(id, &digest, transforms);
    // Canonical SignedInfo, in scope: saml and ds from the Assertion.
    let scope = [
        ("saml".to_string(), SAML_NS.to_string()),
        ("ds".to_string(), DS_NS.to_string()),
    ];
    let element = Element::parse(&format!(
        r#"<saml:Assertion xmlns:saml="{SAML_NS}" xmlns:ds="{DS_NS}">{signed_info}</saml:Assertion>"#
    ))
    .expect("xml");
    let canonical = element.find("SignedInfo").expect("si").canonical(&scope);
    let signer = SigningKey::<Sha256>::new(key.clone());
    let value = STANDARD.encode(signer.sign(canonical.as_bytes()).to_vec());
    assertion(&format!(
        "<ds:Signature>{signed_info}<ds:SignatureValue>{value}</ds:SignatureValue></ds:Signature>"
    ))
}

/// An assertion signed the way this gate verifies.
fn signed_assertion(key: &RsaPrivateKey, id: &str, body: &str) -> String {
    let transforms = transform(ENVELOPED) + &transform(EXCLUSIVE);
    signed_stating(key, id, body, &transforms)
}

fn body(subject: &str, not_before: &str, not_after: &str) -> String {
    format!(
        r#"<saml:Issuer>{ISSUER}</saml:Issuer><saml:Subject><saml:NameID>{subject}</saml:NameID></saml:Subject><saml:Conditions NotBefore="{not_before}" NotOnOrAfter="{not_after}"><saml:AudienceRestriction><saml:Audience>{AUDIENCE}</saml:Audience></saml:AudienceRestriction></saml:Conditions>"#
    )
}

fn gate_of(private: &RsaPrivateKey) -> Verifier<impl Fn() -> i64> {
    gate_with(public(private))
}

fn gate_with(key: RsaKey) -> Verifier<impl Fn() -> i64> {
    let certificate = IdpCertificate::from_public_key(key);
    Verifier::new(certificate)
        .expecting_issuer(ISSUER)
        .expecting_audience(AUDIENCE)
        .with_clock(|| NOW)
}

fn claim(mechanism: &str, value: &str, assertion: Option<String>) -> Presented {
    Presented {
        mechanism: mechanism.to_string(),
        value: value.to_string(),
        assertion,
    }
}

fn presented(assertion: &str) -> Presented {
    claim("saml", "partner-x", Some(STANDARD.encode(assertion)))
}

/// An account in one spelling: `user@domain`, in lower case.
fn account(spelling: &str) -> Option<String> {
    if let Some((domain, user)) = spelling.split_once('\\') {
        return Some(format!("{user}@{domain}").to_lowercase());
    }
    spelling.contains('@').then(|| spelling.to_lowercase())
}

/// Capabilities for these tests: plain base64, and accounts that are spelled
/// `user@domain` or `DOMAIN\user`.
fn capabilities() -> Capabilities<
    impl Fn(&str) -> Result<Vec<u8>, AuthenticateError>,
    impl Fn(&str) -> Option<Vec<u8>>,
    impl Fn(&str) -> bool,
    impl Fn(&str, Option<&str>, Option<&str>) -> Option<String>,
    impl Fn(&str, &str) -> bool,
> {
    Capabilities {
        open: |encoded: &str| {
            STANDARD
                .decode(encoded)
                .map_err(|_| AuthenticateError::new("the proof is not base64"))
        },
        base64: |text: &str| decode(text),
        is_upn: |name: &str| name == UPN,
        user_principal: |name: &str, _: Option<&str>, upn: Option<&str>| {
            account(name).or_else(|| upn.and_then(account))
        },
        same_account: |a: &str, b: &str| account(a) == account(b),
    }
}

fn refusal(gate: &Verifier<impl Fn() -> i64>, claim: &Presented) -> String {
    gate.verify(claim, &capabilities())
        .expect_err("refused")
        .message
}

#[test]
fn a_signed_assertion_within_its_window_is_proven() {
    let private = key();
    let xml = signed_assertion(
        &private,
        "_a1",
        &body("partner-x", "2027-01-15T07:00:00Z", "2027-01-15T09:00:00Z"),
    );

    let verified = gate_of(&private)
        .verify(&presented(&xml), &capabilities())
        .expect("proven");

    assert_eq!(verified, Verified::Proven);
}

/// An assertion for `subject` within its window, its `upn` attribute
/// naming `upn` where one is given.
fn naming(private: &RsaPrivateKey, subject: &str, upn: Option<&str>) -> Presented {
    let mut body = body(subject, "2027-01-15T07:00:00Z", "2027-01-15T09:00:00Z");
    if let Some(upn) = upn {
        body.push_str(&format!(
            r#"<saml:AttributeStatement><saml:Attribute Name="{UPN}"><saml:AttributeValue>{upn}</saml:AttributeValue></saml:Attribute></saml:AttributeStatement>"#
        ));
    }
    let xml = signed_assertion(private, "_a1", &body);
    claim("saml", subject, Some(STANDARD.encode(xml)))
}

#[test]
fn a_name_id_or_a_upn_attribute_spelled_another_way_is_the_account_expected() {
    let private = key();
    let gate = gate_of(&private).expecting_principal("jane@partnerx");
    let by_name_id = naming(&private, "PARTNERX\\Jane", None);
    let by_attribute = naming(&private, "partner-x", Some("Jane@PartnerX"));

    assert_eq!(
        gate.verify(&by_name_id, &capabilities()).expect("proven"),
        Verified::Proven
    );
    assert_eq!(
        gate.verify(&by_attribute, &capabilities()).expect("proven"),
        Verified::Proven
    );
}

#[test]
fn an_assertion_naming_another_account_is_refused_naming_both() {
    let private = key();
    let gate = gate_of(&private).expecting_principal("jane@partnerx");
    let other = naming(&private, "mallory@partnerx", None);
    let unnamed = naming(&private, "partner-x", None);

    let refused = refusal(&gate, &other);
    let missing = refusal(&gate, &unnamed);

    assert_eq!(
        refused,
        "the assertion names 'mallory@partnerx' and this node expects 'jane@partnerx'"
    );
    assert!(missing.contains("carries no user principal name"));
}

#[test]
fn an_assertion_signed_by_another_idp_is_refused() {
    let signer = key();
    let xml = signed_assertion(
        &signer,
        "_a1",
        &body("partner-x", "2027-01-15T07:00:00Z", "2027-01-15T09:00:00Z"),
    );

    let failure = refusal(&gate_with(another_public()), &presented(&xml));

    assert!(failure.contains("does not verify with the IdP"));
}

#[test]
fn an_expired_assertion_is_refused_by_its_window() {
    let private = key();
    let xml = signed_assertion(
        &private,
        "_a1",
        &body("partner-x", "2027-01-15T05:00:00Z", "2027-01-15T06:00:00Z"),
    );

    let failure = refusal(&gate_of(&private), &presented(&xml));

    assert!(failure.contains("not valid on or after"));
    assert_eq!(
        failure,
        "the assertion is not valid on or after 2027-01-15T06:00:00Z and it is now 1800000000"
    );
}

#[test]
fn an_assertion_for_another_audience_is_refused() {
    let private = key();
    let assertion = signed_assertion(
        &private,
        "_a1",
        &body("partner-x", "2027-01-15T07:00:00Z", "2027-01-15T09:00:00Z"),
    )
    .replace(AUDIENCE, "https://someone.else/acs");

    // The digest now fails first, because the audience is inside the
    // signed assertion; either way it is refused, never passed.
    let failure = refusal(&gate_of(&private), &presented(&assertion));

    assert!(failure.contains("digest does not match"));
}

#[test]
fn a_subject_that_is_not_the_claim_is_refused() {
    let private = key();
    let xml = signed_assertion(
        &private,
        "_a1",
        &body(
            "someone-else",
            "2027-01-15T07:00:00Z",
            "2027-01-15T09:00:00Z",
        ),
    );

    let failure = refusal(&gate_of(&private), &presented(&xml));

    assert!(failure.contains("subject is not the claimed value"));
}

#[test]
fn an_encrypted_assertion_is_refused_rather_than_passed() {
    let claim = presented("<samlp:Response><EncryptedAssertion/></samlp:Response>");

    let failure = refusal(&gate_of(&key()), &claim);

    assert!(failure.contains("EncryptedAssertion"));
}

#[test]
fn another_mechanism_and_a_missing_proof_are_each_refused_by_name() {
    let gate = gate_of(&key());
    let other = claim("oidc", "partner-x", None);
    let bare = claim("saml", "partner-x", None);

    assert!(refusal(&gate, &other).contains("'oidc' was presented"));
    assert!(refusal(&gate, &bare).contains("saml.assertion"));
    assert_eq!(gate.mechanism(), "saml");
}

#[test]
fn a_correctly_signed_assertion_verifies() {
    let private = key();
    let xml = signed_assertion(&private, "_a1", "<saml:Issuer>idp</saml:Issuer>");
    let document = Element::parse(&xml).expect("xml");

    assert!(verify(&document, &public(&private), &decode).is_ok());
}

#[test]
fn a_tampered_assertion_fails_its_digest() {
    let private = key();
    let xml = signed_assertion(&private, "_a1", "<saml:Issuer>idp</saml:Issuer>")
        .replace("idp", "evil");
    let document = Element::parse(&xml).expect("xml");

    let failure = verify(&document, &public(&private), &decode).expect_err("refused");

    assert!(failure.message.contains("digest does not match"));
}

#[test]
fn a_signature_by_another_key_does_not_verify() {
    let xml = signed_assertion(&key(), "_a1", "<saml:Issuer>idp</saml:Issuer>");
    let document = Element::parse(&xml).expect("xml");

    let failure = verify(&document, &another_public(), &decode).expect_err("refused");

    assert!(failure.message.contains("does not verify with the IdP"));
}

#[test]
fn a_reference_to_another_element_is_refused() {
    let private = key();
    let xml = signed_assertion(&private, "_a1", "<saml:Issuer>idp</saml:Issuer>")
        .replace("#_a1", "#_other");
    let document = Element::parse(&xml).expect("xml");

    let failure = verify(&document, &public(&private), &decode).expect_err("refused");

    assert!(failure.message.contains("Reference"));
    assert_eq!(
        failure.message,
        "the signature's Reference is '#_other' and not the assertion '#_a1'"
    );
}

/// The document of an assertion signed with a key that is quick to make.
fn signed() -> (RsaPrivateKey, String) {
    let private = small_key();
    let xml = signed_assertion(&private, "_a1", "<saml:Issuer>idp</saml:Issuer>");
    (private, xml)
}

/// Why the signature of this document is refused.
fn signature_refusal(private: &RsaPrivateKey, xml: &str) -> String {
    let document = Element::parse(xml).expect("xml");
    verify(&document, &public(private), &decode)
        .expect_err("refused")
        .message
}

#[test]
fn every_other_shape_of_signature_is_refused_by_name() {
    let (private, xml) = signed();
    let refused = |from: &str, to: &str| {
        assert!(xml.contains(from), "{from}");
        signature_refusal(&private, &xml.replace(from, to))
    };

    assert_eq!(
        signature_refusal(&private, "<a/>"),
        "the document carries no Assertion"
    );
    assert_eq!(refused(" ID=", " id="), "the assertion has no ID to sign");
    assert_eq!(
        signature_refusal(&private, "<Assertion ID='_a1'/>"),
        "the assertion carries no Signature"
    );
    assert_eq!(
        signature_refusal(
            &private,
            "<Signature><Assertion ID='_a1'/><SignedInfo/></Signature>"
        ),
        "the assertion carries no Signature"
    );
    assert_eq!(
        refused("<saml:Issuer>", "<ds:Signature/><saml:Issuer>"),
        "the assertion does not have exactly one Signature, which this profile requires"
    );
    assert_eq!(
        refused("ds:SignedInfo", "ds:Unsigned"),
        "the Signature carries no SignedInfo"
    );
    assert_eq!(
        refused("10/xml-exc-c14n#\"></ds:Can", "10/xml-c14n#\"></ds:Can"),
        "the SignedInfo is not canonicalized with exclusive c14n, which is all this gate reads"
    );
    assert_eq!(
        refused("rsa-sha256", "rsa-sha1"),
        "the signature method is not RSA-SHA256, which is all this gate verifies"
    );
    assert_eq!(
        refused("xmlenc#sha256", "xmlenc#sha512"),
        "the digest method is not SHA-256, which is all this gate verifies"
    );
    // What only begins like a method, or holds its name, is another.
    assert_eq!(
        refused("xml-exc-c14n#\"></ds:Can", "xml-exc-c14n#WithComments\"></ds:Can"),
        "the SignedInfo is not canonicalized with exclusive c14n, which is all this gate reads"
    );
    assert_eq!(
        refused("xmldsig-more#rsa-sha256", "xmldsig-more#rsa-sha256x"),
        "the signature method is not RSA-SHA256, which is all this gate verifies"
    );
    assert_eq!(
        refused("http://www.w3.org/2001/04/xmlenc#sha256", "urn:xmlenc#sha256"),
        "the digest method is not SHA-256, which is all this gate verifies"
    );
    let not_one =
        "the SignedInfo does not have exactly one Reference, which this profile requires";
    assert_eq!(refused("ds:Reference", "ds:Other"), not_one);
    assert_eq!(
        refused("</ds:SignedInfo>", "<ds:Reference/></ds:SignedInfo>"),
        not_one
    );
    assert_eq!(
        refused("ds:DigestValue", "ds:Other"),
        "the Reference carries no DigestValue"
    );
    assert_eq!(
        refused("<ds:DigestValue>", "<ds:DigestValue>*"),
        "the DigestValue is not base64"
    );
    assert_eq!(
        refused("ds:SignatureValue", "ds:Other"),
        "the Signature carries no SignatureValue"
    );
    assert_eq!(
        refused("<ds:SignatureValue>", "<ds:SignatureValue>*"),
        "the SignatureValue is not base64"
    );
    assert_eq!(
        refused("<saml:Issuer>idp", "<saml:Issuer>other"),
        "the assertion's digest does not match the signed DigestValue: it was altered, \
         or its canonical form is one this gate does not reproduce"
    );
    assert_eq!(
        refused("<ds:SignatureValue>", "<ds:SignatureValue>AAAA"),
        "the assertion's signature does not verify with the IdP certificate"
    );
}

#[test]
fn the_transforms_are_the_two_in_their_order_and_no_more() {
    let private = small_key();
    let verdict = |transforms: &[&str]| {
        let stated: String = transforms.iter().map(|one| transform(one)).collect();
        let xml = signed_stating(&private, "_a1", "<saml:Issuer>idp</saml:Issuer>", &stated);
        let document = Element::parse(&xml).expect("xml");
        verify(&document, &public(&private), &decode).map_err(|refusal| refusal.message)
    };
    let other = Err(
        "the Reference is not enveloped-signature then exclusive c14n, which this gate applies"
            .to_string(),
    );

    assert_eq!(verdict(&[ENVELOPED, EXCLUSIVE]), Ok(()));
    assert_eq!(verdict(&[]), other);
    assert_eq!(verdict(&[ENVELOPED]), other);
    assert_eq!(verdict(&[EXCLUSIVE]), other);
    assert_eq!(verdict(&[EXCLUSIVE, ENVELOPED]), other);
    assert_eq!(verdict(&[ENVELOPED, EXCLUSIVE, EXCLUSIVE]), other);
    assert_eq!(
        verdict(&[ENVELOPED, "http://www.w3.org/2001/10/xml-exc-c14n#WithComments"]),
        Err(
            "the Reference carries the transform \
             'http://www.w3.org/2001/10/xml-exc-c14n#WithComments', which this gate does not apply"
                .to_string()
        )
    );
    assert_eq!(
        verdict(&[ENVELOPED, EXCLUSIVE, "urn:xslt"]),
        Err("the Reference carries the transform 'urn:xslt', which this gate does not apply"
            .to_string())
    );
}

#[test]
fn a_signed_assertion_that_holds_a_comment_is_refused_by_name() {
    let private = small_key();
    let body = body("partner-x", "2027-01-15T07:00:00Z", "2027-01-15T09:00:00Z");
    let xml = signed_assertion(&private, "_a1", &body);
    let gate = gate_of(&private);
    let comment = "the SAML assertion holds an XML comment, which this gate refuses";

    assert!(gate.verify(&presented(&xml), &capabilities()).is_ok());
    for held in [
        xml.replace("<saml:Issuer>", "<!-- c --><saml:Issuer>"),
        format!("<!-- c -->{xml}"),
        format!("{xml}<!-- c -->"),
    ] {
        assert_eq!(refusal(&gate, &presented(&held)), comment);
    }
}

#[test]
fn the_methods_are_those_of_the_profile_whole() {
    let methods = |canonicalization: &str, signature: &str, digest: &str| {
        let signed_info = Element::parse(&format!(
            r#"<I><CanonicalizationMethod Algorithm="{canonicalization}"/><SignatureMethod Algorithm="{signature}"/><DigestMethod Algorithm="{digest}"/></I>"#
        ))
        .expect("xml");
        check_methods(&signed_info).is_ok()
    };
    let rsa = "http://www.w3.org/2001/04/xmldsig-more#rsa-sha256";
    let sha = "http://www.w3.org/2001/04/xmlenc#sha256";

    assert!(methods(EXCLUSIVE, rsa, sha));
    assert!(methods(&EXCLUSIVE.to_uppercase(), rsa, sha));
    assert!(!methods(
        "http://www.w3.org/2001/10/xml-exc-c14n#WithComments",
        rsa,
        sha
    ));
    assert!(!methods(EXCLUSIVE, "rsa-sha256", sha));
    assert!(!methods(EXCLUSIVE, rsa, "sha256"));
}

#[test]
fn white_space_around_the_base64_makes_no_difference() {
    let (private, xml) = signed();
    let spread = xml
        .replace("<ds:SignatureValue>", "<ds:SignatureValue>\n  ")
        .replace("</ds:SignatureValue>", "\n</ds:SignatureValue>");
    let document = Element::parse(&spread).expect("xml");

    assert!(verify(&document, &public(&private), &decode).is_ok());
}

#[test]
fn a_key_is_never_taken_from_the_signature_itself() {
    let (private, xml) = signed();
    let with_key = xml.replace(
        "</ds:Signature>",
        "<ds:KeyInfo><ds:X509Data>any</ds:X509Data></ds:KeyInfo></ds:Signature>",
    );
    let document = Element::parse(&with_key).expect("xml");

    assert!(verify(&document, &public(&private), &decode).is_ok());
    assert!(verify(&document, &public(&small_key()), &decode).is_err());
}

#[test]
fn an_assertion_inside_a_response_is_signed_in_its_own_scope() {
    let (private, xml) = signed();
    let response = format!(r#"<p:Response xmlns:p="urn:p" xmlns:x="urn:x">{xml}</p:Response>"#);
    let document = Element::parse(&response).expect("xml");

    assert!(verify(&document, &public(&private), &decode).is_ok());
}

#[test]
fn the_signed_texts_are_the_assertion_without_its_signature_and_the_signed_info() {
    let document = Element::parse(
        "<R xmlns='u'><Assertion ID='1'><Signature xmlns:d='v'><SignedInfo><d:x/></SignedInfo></Signature>t</Assertion></R>",
    )
    .expect("xml");

    let (assertion, signed_info) = canonical_texts(&document).expect("texts");

    assert_eq!(assertion, r#"<Assertion xmlns="u" ID="1">t</Assertion>"#);
    assert_eq!(
        signed_info,
        r#"<SignedInfo xmlns="u"><d:x xmlns:d="v"></d:x></SignedInfo>"#
    );
    assert!(canonical_texts(&Element::parse("<a/>").expect("xml")).is_none());
}

#[test]
fn a_signature_is_decided_by_what_was_decoded_and_computed() {
    let (private, xml) = signed();
    let document = Element::parse(&xml).expect("xml");
    let digest = Some(vec![1, 2, 3]);
    let value = Some(vec![4]);
    let message = |result: Result<(), AuthenticateError>| result.map_err(|one| one.message);

    assert_eq!(
        message(decide(&document, &digest, &value, &vec![1, 2, 3], true)),
        Ok(())
    );
    assert!(decide(&document, &digest, &value, &vec![1, 2], true).is_err());
    assert!(decide(&document, &digest, &value, &vec![1, 2, 3], false).is_err());
    assert_eq!(
        message(decide(&document, &None, &value, &vec![], true)),
        Err("the DigestValue is not base64".to_string())
    );
    assert_eq!(
        message(decide(&document, &digest, &None, &vec![1, 2, 3], true)),
        Err("the SignatureValue is not base64".to_string())
    );
    // The digest of the assertion, and no other, is accepted.
    let (assertion, _) = canonical_texts(&document).expect("texts");
    let computed = Some(Sha256::digest(assertion.as_bytes()).to_vec());
    let read = document.find("SignatureValue").expect("value").text();
    assert_eq!(
        message(judge(&document, &public(&private), &computed, &decode(&read))),
        Ok(())
    );
    assert!(judge(&document, &public(&private), &Some(assertion.into_bytes()), &decode(&read))
        .is_err());
    assert!(judge(&document, &public(&private), &computed, &value).is_err());
    // What is no key verifies nothing.
    let no_key = RsaKey {
        modulus: vec![],
        exponent: vec![],
    };
    assert!(judge(&document, &no_key, &computed, &decode(&read)).is_err());
}

/// The padded digest of a text, of this length: what a signature over it is with
/// an exponent of one.
fn padded(text: &str, length: usize) -> Vec<u8> {
    let prefix = [
        0x30, 0x31, 0x30, 0x0d, 0x06, 0x09, 0x60, 0x86, 0x48, 0x01, 0x65, 0x03, 0x04, 0x02, 0x01,
        0x05, 0x00, 0x04, 0x20,
    ];
    let digest = Sha256::digest(text.as_bytes());
    let mut all = vec![0, 1];
    all.resize(length - prefix.len() - digest.len() - 1, 0xff);
    all.push(0);
    all.extend_from_slice(&prefix);
    all.extend_from_slice(&digest);
    all
}

#[test]
fn a_key_is_used_as_it_was_configured() {
    let xml = signed_assertion(&small_key(), "_a1", "<Subject></Subject>");
    let document = Element::parse(&xml).expect("xml");
    let (assertion, signed_info) = canonical_texts(&document).expect("texts");
    let digest = Some(Sha256::digest(assertion.as_bytes()).to_vec());
    let value = Some(padded(&signed_info, 128));

    for last in [0xff, 0xfe] {
        let mut modulus = vec![0xff; 127];
        modulus.push(last);
        let unusual = |exponent: Vec<u8>| RsaKey {
            modulus: modulus.clone(),
            exponent,
        };
        assert!(judge(&document, &unusual(vec![1]), &digest, &value).is_ok());
        for exponent in [vec![], vec![0], vec![2], vec![3], vec![0xff; 130]] {
            assert!(judge(&document, &unusual(exponent), &digest, &value).is_err());
        }
    }
    for modulus in [vec![], vec![0], vec![1], vec![2]] {
        for signature in [vec![], vec![0], vec![1], vec![0; 128]] {
            let tiny = RsaKey {
                modulus: modulus.clone(),
                exponent: vec![1],
            };
            assert!(judge(&document, &tiny, &digest, &Some(signature)).is_err());
        }
    }
}

/// A key, the claim of an assertion with this body that it signed, and the
/// replies to it.
fn proven_replies(body: &str) -> (RsaPrivateKey, Presented, Replies) {
    let private = small_key();
    let xml = signed_assertion(&private, "_a1", body);
    let document = Element::parse(&xml).expect("xml");
    let text = |local: &str| document.find(local).expect(local).text();
    let replies = Replies {
        opened: Ok(xml.clone().into_bytes()),
        digest: decode(&text("DigestValue")),
        value: decode(&text("SignatureValue")),
        now: NOW,
        named: Some("jane@partnerx".to_string()),
        agrees: true,
    };
    (private, presented(&xml), replies)
}

fn plain_gate(private: &RsaPrivateKey) -> Verifier<impl Fn() -> i64> {
    Verifier::new(IdpCertificate::from_public_key(public(private)))
}

#[test]
fn a_claim_is_proven_where_every_check_is_met_and_refused_where_one_is_not() {
    let body = body("partner-x", "2027-01-15T07:00:00Z", "2027-01-15T09:00:00Z");
    let (private, presented, replies) = proven_replies(&body);
    let gate = plain_gate(&private)
        .expecting_issuer(ISSUER)
        .expecting_audience(AUDIENCE)
        .expecting_principal("jane@partnerx");
    let message = |presented: &Presented, replies: &Replies| {
        gate.decide(presented, replies).map_err(|one| one.message)
    };
    let with = |change: &dyn Fn(&mut Replies)| {
        let mut changed = Replies {
            opened: match &replies.opened {
                Ok(bytes) => Ok(bytes.clone()),
                Err(refusal) => Err(refusal.clone()),
            },
            digest: replies.digest.clone(),
            value: replies.value.clone(),
            now: replies.now,
            named: replies.named.clone(),
            agrees: replies.agrees,
        };
        change(&mut changed);
        message(&presented, &changed).expect_err("refused")
    };

    assert_eq!(message(&presented, &replies), Ok(Verified::Proven));
    assert_eq!(
        message(&claim("oidc", "partner-x", None), &replies),
        Err("'oidc' was presented and this authenticator verifies saml".to_string())
    );
    assert_eq!(
        message(&claim("saml", "partner-x", None), &replies),
        Err("no saml.assertion proof was presented".to_string())
    );
    assert_eq!(
        with(&|one| one.opened = Err(AuthenticateError::new("not opened"))),
        "not opened"
    );
    assert_eq!(
        with(&|one| one.opened = Ok(vec![0xff])),
        "the SAML assertion is not UTF-8 XML"
    );
    assert_eq!(
        with(&|one| one.opened = Ok(b"<a>EncryptedAssertion</a>".to_vec())),
        "the SAML response carries an EncryptedAssertion, which this gate cannot open"
    );
    assert_eq!(
        with(&|one| one.opened = Ok(b"text".to_vec())),
        "expected an XML element"
    );
    assert_eq!(with(&|one| one.digest = None), "the DigestValue is not base64");
    assert_eq!(with(&|one| one.value = None), "the SignatureValue is not base64");
    assert_eq!(
        with(&|one| one.now = NOW + 3_600 + 60),
        "the assertion is not valid on or after 2027-01-15T09:00:00Z and it is now 1800003660"
    );
    assert_eq!(
        with(&|one| one.now = NOW - 3_600 - 61),
        "the assertion is not valid before 2027-01-15T07:00:00Z and it is now 1799996339"
    );
    assert_eq!(
        with(&|one| one.named = None),
        "the assertion carries no user principal name, as its NameID or as a upn \
         attribute, and this node expects 'jane@partnerx'"
    );
    assert_eq!(
        with(&|one| one.agrees = false),
        "the assertion names 'jane@partnerx' and this node expects 'jane@partnerx'"
    );
    assert_eq!(
        message(&claim("saml", "other", presented.assertion.clone()), &replies),
        Err("the assertion's subject is not the claimed value".to_string())
    );
}

#[test]
fn an_assertion_holds_from_its_start_to_just_before_its_end_with_the_leeway() {
    let body = body("partner-x", "2027-01-15T07:00:00Z", "2027-01-15T09:00:00Z");
    let (private, presented, mut replies) = proven_replies(&body);
    let mut holds = |leeway: i64, now: i64| {
        replies.now = now;
        plain_gate(&private)
            .with_leeway(leeway)
            .decide(&presented, &replies)
            .is_ok()
    };
    let start = NOW - 3_600;
    let end = NOW + 3_600;

    assert!(!holds(0, start - 1));
    assert!(holds(0, start));
    assert!(holds(0, NOW));
    assert!(holds(0, end - 1));
    assert!(!holds(0, end));
    assert!(holds(60, start - 60));
    assert!(!holds(60, start - 61));
    assert!(holds(60, end + 59));
    assert!(!holds(60, end + 60));
    // Leeway beyond what fits stops at the bounds.
    assert!(holds(i64::MAX, i64::MAX));
    assert!(holds(i64::MAX, 0));
    assert!(!holds(i64::MIN, NOW));
}

#[test]
fn each_condition_is_refused_by_name() {
    let subject = "<saml:Subject><saml:NameID>partner-x</saml:NameID></saml:Subject>";
    let refused = |body: &str| {
        let (private, presented, replies) = proven_replies(body);
        plain_gate(&private)
            .expecting_issuer(ISSUER)
            .expecting_audience(AUDIENCE)
            .decide(&presented, &replies)
            .expect_err("refused")
            .message
    };
    let issuer = format!("<saml:Issuer>{ISSUER}</saml:Issuer>");

    assert_eq!(
        refused(subject),
        "the assertion's issuer is not 'https://idp.example'"
    );
    // An issuer further down is none of the assertion's own.
    assert_eq!(
        refused(&format!("<saml:Advice>{issuer}</saml:Advice>{subject}")),
        "the assertion's issuer is not 'https://idp.example'"
    );
    assert_eq!(
        refused(&issuer),
        "the assertion's subject is not the claimed value"
    );
    assert_eq!(
        refused(&format!("{issuer}{subject}")),
        "the assertion carries no Conditions and this node requires an audience"
    );
    assert_eq!(
        refused(&format!("{issuer}{subject}<saml:Conditions/>")),
        "the assertion's audience does not name 'https://xmip.example/acs'"
    );
    assert_eq!(
        refused(&format!(
            "{issuer}{subject}<saml:Conditions NotBefore='yesterday'/>"
        )),
        "'yesterday' is not a UTC SAML dateTime"
    );
    assert_eq!(
        refused(&format!(
            "{issuer}{subject}<saml:Conditions NotOnOrAfter='2027-13-01T00:00:00Z'/>"
        )),
        "'2027-13-01T00:00:00Z' is not a UTC SAML dateTime"
    );
}

#[test]
fn an_assertion_without_conditions_holds_where_no_audience_is_expected() {
    let (private, presented, replies) = proven_replies(
        "<saml:Subject><saml:NameID>partner-x</saml:NameID></saml:Subject>",
    );

    assert_eq!(
        plain_gate(&private)
            .decide(&presented, &replies)
            .expect("proven"),
        Verified::Proven
    );
}

#[test]
fn the_first_attribute_that_carries_an_account_is_the_one_read() {
    let private = small_key();
    let gate = plain_gate(&private)
        .expecting_principal("jane@partnerx")
        .with_clock(|| NOW);
    let attribute = |name: &str, value: &str| {
        format!(
            r#"<saml:Attribute Name="{name}"><saml:AttributeValue>{value}</saml:AttributeValue></saml:Attribute>"#
        )
    };
    let verdict = |attributes: &str| {
        let body = format!(
            "<saml:Subject><saml:NameID>partner-x</saml:NameID></saml:Subject><saml:AttributeStatement><saml:Other/>{attributes}</saml:AttributeStatement>"
        );
        let xml = signed_assertion(&private, "_a1", &body);
        gate.verify(&presented(&xml), &capabilities())
            .map_err(|refusal| refusal.message)
    };

    let jane = attribute(UPN, "jane@partnerx");
    let other = attribute("mail", "joe@partnerx");
    let mallory = attribute(UPN, "mallory@partnerx");
    assert_eq!(verdict(&format!("{other}{jane}{mallory}")), Ok(Verified::Proven));
    assert_eq!(
        verdict(&format!("{mallory}{jane}")),
        Err(
            "the assertion names 'mallory@partnerx' and this node expects 'jane@partnerx'"
                .to_string()
        )
    );
    assert!(verdict(&other)
        .expect_err("refused")
        .contains("carries no user principal name"));
}

#[test]
fn an_account_is_decided_by_how_it_is_spelled_and_whether_it_agrees() {
    let named = Some("Jane@X".to_string());

    assert!(decide_principal("jane@x", &named, true).is_ok());
    assert_eq!(
        decide_principal("jane@x", &named, false)
            .expect_err("refused")
            .message,
        "the assertion names 'Jane@X' and this node expects 'jane@x'"
    );
    assert!(decide_principal("jane@x", &None, true).is_err());
}

#[test]
fn a_proof_opens_to_a_document_or_is_refused() {
    let opened = |bytes: &[u8]| {
        open_document(&Ok(bytes.to_vec()))
            .map(|document| document.name)
            .map_err(|refusal| refusal.message)
    };

    assert_eq!(opened(b"<a/>"), Ok("a".to_string()));
    assert_eq!(
        opened(&[0xc3, 0x28]),
        Err("the SAML assertion is not UTF-8 XML".to_string())
    );
    assert_eq!(opened("<\u{e9}/>".as_bytes()), Ok("\u{e9}".to_string()));
}

#[test]
fn a_proof_that_does_not_open_is_refused_in_its_own_words() {
    let gate = plain_gate(&small_key());

    assert_eq!(
        refusal(&gate, &claim("saml", "x", Some("*".to_string()))),
        "the proof is not base64"
    );
}

#[test]
fn the_system_clock_counts_seconds_since_the_epoch() {
    assert!(now() > 1_600_000_000);
    assert_eq!(epoch_seconds(None), 0);
    assert_eq!(epoch_seconds(Some(7)), 7);
    assert_eq!(epoch_seconds(Some(u64::MAX)), i64::MAX);
    assert_eq!(epoch_seconds(Some(i64::MAX as u64)), i64::MAX);
}

#[test]
fn a_new_gate_reads_the_system_clock() {
    let (private, presented, _) = proven_replies(&body(
        "partner-x",
        "1970-01-01T00:00:00Z",
        "9999-12-31T23:59:59Z",
    ));

    assert_eq!(
        plain_gate(&private)
            .verify(&presented, &capabilities())
            .expect("proven"),
        Verified::Proven
    );
}
