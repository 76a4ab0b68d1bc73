//! The enveloped XML signature over an assertion, checked.
//!
//! This covers one profile of XML-DSig, the one identity providers emit for SAML:
//! a single `Signature` enveloped in the `Assertion`, a single `Reference` to the
//! assertion by its `ID`, the transforms enveloped-signature then exclusive c14n,
//! SHA-256 digests and an RSA-SHA256 signature over the canonical `SignedInfo`.
//! Every other shape is refused by name, never passed: another signature
//! algorithm, another canonicalization, another digest, an extra or missing
//! transform, a detached or enveloping signature, more than one signature or
//! reference, or a reference to anything but the assertion.

use crate::c14n::{canonical_form, declare_all, scope_with};
use crate::certificate::RsaKey;
use crate::error::{after, ensure, expect, meets, unless, AuthenticateError};
use crate::outside::{
    reads_as_signature, rsa_sha256_verifies, rsa_sha256_verify, sha256, sha256_digest,
};
use crate::text::{
    lowercase, lowered, packed, same, strings_view, to_chars, trim, trimmed,
    without_white_space,
};
use crate::xml::{
    attribute_or_empty, child_elements, copy_pairs, count_named, decides, first_named, local_of,
    lookup, models, nodes_view, pairs_view, text_of, with_local, without_first, Element,
    ElementModel, Node, NodeModel, Pair,
};
use vstd::prelude::*;
use vstd::utf8::encode_utf8;

verus! {

pub const ENVELOPED: &'static str = "http://www.w3.org/2000/09/xmldsig#enveloped-signature";

pub const EXC_C14N: &'static str = "http://www.w3.org/2001/10/xml-exc-c14n#";

pub const RSA_SHA256: &'static str = "http://www.w3.org/2001/04/xmldsig-more#rsa-sha256";

pub const SHA256: &'static str = "http://www.w3.org/2001/04/xmlenc#sha256";

pub const NO_ASSERTION: &'static str = "the document carries no Assertion";

pub const NO_ID: &'static str = "the assertion has no ID to sign";

pub const NO_SIGNATURE: &'static str = "the assertion carries no Signature";

pub const NOT_ONE_SIGNATURE: &'static str =
    "the assertion does not have exactly one Signature, which this profile requires";

pub const NO_SIGNED_INFO: &'static str = "the Signature carries no SignedInfo";

pub const OTHER_CANONICALIZATION: &'static str =
    "the SignedInfo is not canonicalized with exclusive c14n, which is all this gate reads";

pub const OTHER_SIGNATURE_METHOD: &'static str =
    "the signature method is not RSA-SHA256, which is all this gate verifies";

pub const OTHER_DIGEST_METHOD: &'static str =
    "the digest method is not SHA-256, which is all this gate verifies";

pub const NOT_ONE_REFERENCE: &'static str =
    "the SignedInfo does not have exactly one Reference, which this profile requires";

pub const OTHER_TRANSFORM_BEFORE: &'static str = "the Reference carries the transform '";

pub const OTHER_TRANSFORM_AFTER: &'static str = "', which this gate does not apply";

pub const OTHER_TRANSFORMS: &'static str =
    "the Reference is not enveloped-signature then exclusive c14n, which this gate applies";

pub const NO_DIGEST_VALUE: &'static str = "the Reference carries no DigestValue";

pub const DIGEST_NOT_BASE64: &'static str = "the DigestValue is not base64";

pub const DIGEST_DIFFERS: &'static str =
    "the assertion's digest does not match the signed DigestValue: it was altered, or its canonical form is one this gate does not reproduce";

pub const NO_SIGNATURE_VALUE: &'static str = "the Signature carries no SignatureValue";

pub const VALUE_NOT_BASE64: &'static str = "the SignatureValue is not base64";

pub const NOT_A_SIGNATURE: &'static str = "the SignatureValue is not an RSA signature";

pub const DOES_NOT_VERIFY: &'static str =
    "the assertion's signature does not verify with the IdP certificate";

/// The first element with this local name, depth first, and the namespaces in
/// scope from its ancestors.
pub open spec fn located(
    element: ElementModel,
    inherited: Seq<Pair>,
    local: Seq<char>,
) -> Option<(ElementModel, Seq<Pair>)>
    decreases element,
{
    if local_of(element.name) == local {
        Some((element, inherited))
    } else {
        located_among(element.children, declare_all(inherited, element.namespaces), local)
    }
}

/// The first element with this local name among the children and below them,
/// and the namespaces in scope from its ancestors.
pub open spec fn located_among(
    nodes: Seq<NodeModel>,
    scope: Seq<Pair>,
    local: Seq<char>,
) -> Option<(ElementModel, Seq<Pair>)>
    decreases nodes,
{
    if nodes.len() == 0 {
        None
    } else {
        let here = match nodes[0] {
            NodeModel::Element(element) => located(element, scope, local),
            NodeModel::Text(_) => None,
        };
        match here {
            Some(found) => Some(found),
            None => located_among(nodes.drop_first(), scope, local),
        }
    }
}

/// The algorithm the first element of this local name states, in lower case.
pub open spec fn algorithm_of(signed_info: ElementModel, local: Seq<char>) -> Seq<char> {
    match first_named(signed_info, local) {
        Some(method) => lowercase(attribute_or_empty(method, "Algorithm"@)),
        None => Seq::empty(),
    }
}

/// The methods are exclusive c14n, RSA-SHA256 and SHA-256.
pub open spec fn methods_verdict(signed_info: ElementModel) -> Result<(), Seq<char>> {
    if algorithm_of(signed_info, "CanonicalizationMethod"@) != EXC_C14N@ {
        Err(OTHER_CANONICALIZATION@)
    } else if algorithm_of(signed_info, "SignatureMethod"@) != RSA_SHA256@ {
        Err(OTHER_SIGNATURE_METHOD@)
    } else {
        unless(
            algorithm_of(signed_info, "DigestMethod"@) == SHA256@,
            OTHER_DIGEST_METHOD@,
        )
    }
}

/// The algorithms of the transforms a reference states, in order.
pub open spec fn transforms_of(reference: ElementModel) -> Seq<Seq<char>> {
    match first_named(reference, "Transforms"@) {
        Some(transforms) => with_local(child_elements(transforms.children), "Transform"@).map_values(
            |transform: ElementModel| attribute_or_empty(transform, "Algorithm"@),
        ),
        None => Seq::empty(),
    }
}

/// Whether a transform is one of the two that are applied.
pub open spec fn applied(algorithm: Seq<char>) -> bool {
    algorithm == ENVELOPED@ || algorithm == EXC_C14N@
}

/// The first transform that is not applied.
pub open spec fn first_unknown(transforms: Seq<Seq<char>>) -> Option<Seq<char>>
    decreases transforms.len(),
{
    if transforms.len() == 0 {
        None
    } else if !applied(transforms[0]) {
        Some(transforms[0])
    } else {
        first_unknown(transforms.drop_first())
    }
}

/// The transforms are enveloped-signature, then exclusive c14n, and no more.
pub open spec fn transforms_verdict(transforms: Seq<Seq<char>>) -> Result<(), Seq<char>> {
    match first_unknown(transforms) {
        Some(other) => Err(OTHER_TRANSFORM_BEFORE@ + other + OTHER_TRANSFORM_AFTER@),
        None => unless(
            transforms.len() == 2 && transforms[0] == ENVELOPED@ && transforms[1] == EXC_C14N@,
            OTHER_TRANSFORMS@,
        ),
    }
}

/// There is one reference, to the assertion of this ID, with the two transforms.
pub open spec fn reference_verdict(signed_info: ElementModel, id: Seq<char>) -> Result<
    (),
    Seq<char>,
> {
    let references = with_local(child_elements(signed_info.children), "Reference"@);
    if references.len() != 1 {
        Err(NOT_ONE_REFERENCE@)
    } else {
        let uri = attribute_or_empty(references[0], "URI"@);
        if uri != "#"@ + id {
            Err(
                "the signature's Reference is '"@ + uri + "' and not the assertion '#"@ + id
                    + "'"@,
            )
        } else {
            transforms_verdict(transforms_of(references[0]))
        }
    }
}

/// Whether an element is a `Signature`.
pub open spec fn is_signature() -> spec_fn(ElementModel) -> bool {
    |element: ElementModel| local_of(element.name) == "Signature"@
}

/// The element without its `Signature`, where it has one.
pub open spec fn without_signature(element: ElementModel) -> ElementModel {
    match without_first(element, is_signature()) {
        Some(rest) => rest,
        None => element,
    }
}

/// The digest decoded from the `DigestValue` is the one computed.
pub open spec fn digest_verdict(
    signed_info: ElementModel,
    digest: Option<Seq<u8>>,
    computed: Seq<u8>,
) -> Result<(), Seq<char>> {
    match first_named(signed_info, "DigestValue"@) {
        None => Err(NO_DIGEST_VALUE@),
        Some(_) => match digest {
            None => Err(DIGEST_NOT_BASE64@),
            Some(claimed) => unless(computed == claimed, DIGEST_DIFFERS@),
        },
    }
}

/// A signature was decoded from the `SignatureValue`, and it verifies.
pub open spec fn value_verdict(
    signature: ElementModel,
    value: Option<Seq<u8>>,
    verifies: bool,
) -> Result<(), Seq<char>> {
    match first_named(signature, "SignatureValue"@) {
        None => Err(NO_SIGNATURE_VALUE@),
        Some(_) => match value {
            None => Err(VALUE_NOT_BASE64@),
            Some(_) => unless(verifies, DOES_NOT_VERIFY@),
        },
    }
}

/// The verdict on a document's signature, given what was decoded from its
/// `DigestValue` and its `SignatureValue`, the digest computed of its assertion,
/// and whether the signature verifies over its `SignedInfo`.
pub open spec fn profile_verdict(
    document: ElementModel,
    digest: Option<Seq<u8>>,
    value: Option<Seq<u8>>,
    computed: Seq<u8>,
    verifies: bool,
) -> Result<(), Seq<char>> {
    match first_named(document, "Assertion"@) {
        None => Err(NO_ASSERTION@),
        Some(assertion) => match lookup(assertion.attributes, "ID"@) {
            None => Err(NO_ID@),
            Some(id) => match first_named(assertion, "Signature"@) {
                None => Err(NO_SIGNATURE@),
                Some(signature) => if count_named(assertion, "Signature"@) != 1 {
                    Err(NOT_ONE_SIGNATURE@)
                } else {
                    match first_named(signature, "SignedInfo"@) {
                        None => Err(NO_SIGNED_INFO@),
                        Some(signed_info) => after(
                            methods_verdict(signed_info),
                            after(
                                reference_verdict(signed_info, id),
                                after(
                                    digest_verdict(signed_info, digest, computed),
                                    value_verdict(signature, value, verifies),
                                ),
                            ),
                        ),
                    }
                },
            },
        },
    }
}

/// The canonical text of a document's assertion without its `Signature`, which
/// the digest covers, and that of its `SignedInfo`, which the signature covers.
pub open spec fn signed_texts(document: ElementModel) -> Option<(Seq<char>, Seq<char>)> {
    match located(document, Seq::empty(), "Assertion"@) {
        None => None,
        Some((assertion, inherited)) => match located(assertion, inherited, "Signature"@) {
            None => None,
            Some((signature, scope)) => match first_named(signature, "SignedInfo"@) {
                None => None,
                Some(signed_info) => Some(
                    (
                        canonical_form(without_signature(assertion), inherited),
                        canonical_form(signed_info, declare_all(scope, signature.namespaces)),
                    ),
                ),
            },
        },
    }
}

/// Whether the key accepts the decoded signature over the text.
pub open spec fn signs(
    key: (Seq<u8>, Seq<u8>),
    text: Seq<char>,
    value: Option<Seq<u8>>,
) -> bool {
    match value {
        Some(signature) => rsa_sha256_verifies(key.0, key.1, encode_utf8(text), signature),
        None => false,
    }
}

/// The verdict on a document's signature against a key, given what was decoded
/// from its `DigestValue` and its `SignatureValue`.
pub open spec fn signature_verdict(
    document: ElementModel,
    key: (Seq<u8>, Seq<u8>),
    digest: Option<Seq<u8>>,
    value: Option<Seq<u8>>,
) -> Result<(), Seq<char>> {
    match signed_texts(document) {
        Some((assertion, signed_info)) => profile_verdict(
            document,
            digest,
            value,
            sha256(encode_utf8(assertion)),
            signs(key, signed_info, value),
        ),
        None => profile_verdict(document, digest, value, Seq::empty(), false),
    }
}

/// The `Signature` of a document's assertion.
pub open spec fn signature_of(document: ElementModel) -> Option<ElementModel> {
    match first_named(document, "Assertion"@) {
        None => None,
        Some(assertion) => first_named(assertion, "Signature"@),
    }
}

/// The base64 text of a document's `DigestValue`.
pub open spec fn digest_text(document: ElementModel) -> Option<Seq<char>> {
    match signature_of(document) {
        None => None,
        Some(signature) => match first_named(signature, "SignedInfo"@) {
            None => None,
            Some(signed_info) => match first_named(signed_info, "DigestValue"@) {
                None => None,
                Some(element) => Some(trim(text_of(element.children))),
            },
        },
    }
}

/// The base64 text of a document's `SignatureValue`.
pub open spec fn value_text(document: ElementModel) -> Option<Seq<char>> {
    match signature_of(document) {
        None => None,
        Some(signature) => match first_named(signature, "SignatureValue"@) {
            None => None,
            Some(element) => Some(without_white_space(text_of(element.children))),
        },
    }
}

/// What a decoder gave, as a sequence of bytes.
pub open spec fn bytes_view(bytes: Option<Vec<u8>>) -> Option<Seq<u8>> {
    match bytes {
        Some(bytes) => Some(bytes@),
        None => None,
    }
}

/// Whether `bytes` is an answer of the decoder to the text, where there is a
/// text.
pub open spec fn answers<F: Fn(&str) -> Option<Vec<u8>>>(
    decode: F,
    text: Option<Seq<char>>,
    bytes: Option<Seq<u8>>,
) -> bool {
    match text {
        Some(text) => exists|asked: &str, answer: Option<Vec<u8>>|
            asked@ == text && #[trigger] call_ensures(decode, (asked,), answer) && bytes_view(
                answer,
            ) == bytes,
        None => bytes is None,
    }
}

/// Find the first descendant with this local name, returning it and the
/// namespaces in scope from its ancestors (not its own).
fn locate<'a>(element: &'a Element, inherited: &[(String, String)], local: &str) -> (r: Option<
    (&'a Element, Vec<(String, String)>),
>)
    ensures
        match r {
            Some((found, scope)) => located(element@, pairs_view(inherited@), local@) == Some(
                (found@, pairs_view(scope@)),
            ),
            None => located(element@, pairs_view(inherited@), local@) is None,
        },
    decreases element,
{
    if same(element.local(), local) {
        return Some((element, copy_pairs(inherited)));
    }
    let scope = scope_with(inherited, &element.namespaces);
    let ghost nodes = element@.children;
    let ghost in_scope = pairs_view(scope@);
    let mut i: usize = 0;
    assert(nodes.skip(0) =~= nodes);
    while i < element.children.len()
        invariant
            i <= element.children.len(),
            nodes == nodes_view(element.children@),
            in_scope == pairs_view(scope@),
            located_among(nodes.skip(i as int), in_scope, local@) == located(
                element@,
                pairs_view(inherited@),
                local@,
            ),
        decreases element.children.len() - i,
    {
        assert(nodes.skip(i as int).drop_first() =~= nodes.skip(i + 1));
        assert(nodes.skip(i as int)[0] == element.children@[i as int]@);
        if let Node::Element(child) = &element.children[i] {
            let found = locate(child, scope.as_slice(), local);
            if found.is_some() {
                return found;
            }
        }
        i += 1;
    }
    None
}

/// The algorithm the first element of this local name states, in lower case.
fn algorithm(signed_info: &Element, local: &str) -> (r: String)
    ensures
        r@ == algorithm_of(signed_info@, local@),
{
    match signed_info.find(local) {
        Some(method) => match method.attribute("Algorithm") {
            Some(value) => lowered(value),
            None => {
                let empty = String::new();
                assert(empty@ =~= lowercase(Seq::empty()));
                empty
            },
        },
        None => String::new(),
    }
}

/// Check that the methods are the ones this gate applies, by their whole
/// identifiers in any case.
///
/// # Errors
///
/// Where one of them is another.
pub fn check_methods(signed_info: &Element) -> (r: Result<(), AuthenticateError>)
    ensures
        meets(r, methods_verdict(signed_info@)),
{
    if !same(algorithm(signed_info, "CanonicalizationMethod").as_str(), EXC_C14N) {
        return Err(AuthenticateError::new(OTHER_CANONICALIZATION));
    }
    if !same(algorithm(signed_info, "SignatureMethod").as_str(), RSA_SHA256) {
        return Err(AuthenticateError::new(OTHER_SIGNATURE_METHOD));
    }
    if !same(algorithm(signed_info, "DigestMethod").as_str(), SHA256) {
        return Err(AuthenticateError::new(OTHER_DIGEST_METHOD));
    }
    Ok(())
}

/// The algorithms of the transforms a reference states.
fn transforms(reference: &Element) -> (r: Vec<String>)
    ensures
        strings_view(r@) == transforms_of(reference@),
{
    let mut out: Vec<String> = Vec::new();
    match reference.find("Transforms") {
        None => {
            assert(strings_view(out@) =~= Seq::empty());
        },
        Some(list) => {
            let elements = list.children_named("Transform");
            let ghost all = models(elements@);
            let mut i: usize = 0;
            while i < elements.len()
                invariant
                    i <= elements.len(),
                    out.len() == i,
                    all == models(elements@),
                    forall|j: int|
                        0 <= j < i ==> (#[trigger] out@[j])@ == attribute_or_empty(
                            all[j],
                            "Algorithm"@,
                        ),
                decreases elements.len() - i,
            {
                assert(all[i as int] == elements@[i as int]@);
                out.push(elements[i].attribute_text("Algorithm"));
                i += 1;
            }
            assert(strings_view(out@) =~= transforms_of(reference@));
        },
    }
    out
}

/// Check that the transforms are enveloped-signature, then exclusive c14n.
fn check_transforms(transforms: &Vec<String>) -> (r: Result<(), AuthenticateError>)
    ensures
        meets(r, transforms_verdict(strings_view(transforms@))),
{
    let ghost all = strings_view(transforms@);
    let mut i: usize = 0;
    assert(all.skip(0) =~= all);
    while i < transforms.len()
        invariant
            i <= transforms.len(),
            all == strings_view(transforms@),
            first_unknown(all.skip(i as int)) == first_unknown(all),
        decreases transforms.len() - i,
    {
        let algorithm = transforms[i].as_str();
        if !same(algorithm, ENVELOPED) && !same(algorithm, EXC_C14N) {
            return Err(
                AuthenticateError::naming(OTHER_TRANSFORM_BEFORE, algorithm, OTHER_TRANSFORM_AFTER),
            );
        }
        assert(all.skip(i as int).drop_first() =~= all.skip(i + 1));
        i += 1;
    }
    if transforms.len() == 2 && same(transforms[0].as_str(), ENVELOPED) && same(
        transforms[1].as_str(),
        EXC_C14N,
    ) {
        Ok(())
    } else {
        Err(AuthenticateError::new(OTHER_TRANSFORMS))
    }
}

/// Check the one reference to the assertion.
///
/// # Errors
///
/// Where there is not exactly one, it is to something else, or its transforms
/// are not enveloped-signature, then exclusive c14n.
pub fn check_reference(signed_info: &Element, id: &str) -> (r: Result<(), AuthenticateError>)
    ensures
        meets(r, reference_verdict(signed_info@, id@)),
{
    let references = signed_info.children_named("Reference");
    if references.len() != 1 {
        return Err(AuthenticateError::new(NOT_ONE_REFERENCE));
    }
    let reference = references[0];
    assert(models(references@)[0] == reference@);
    let uri = reference.attribute_text("URI");
    let mut expected = "#".to_owned();
    expected.append(id);
    if !same(uri.as_str(), expected.as_str()) {
        let mut message = "the signature's Reference is '".to_owned();
        message.append(uri.as_str());
        message.append("' and not the assertion '#");
        message.append(id);
        message.append("'");
        return Err(AuthenticateError { message });
    }
    check_transforms(&transforms(reference))
}

/// Whether two byte strings are the same.
fn same_bytes(a: &Vec<u8>, b: &Vec<u8>) -> (r: bool)
    ensures
        r == (a@ == b@),
{
    if a.len() != b.len() {
        return false;
    }
    let mut i: usize = 0;
    while i < a.len()
        invariant
            i <= a.len(),
            a.len() == b.len(),
            forall|j: int| 0 <= j < i ==> a@[j] == b@[j],
        decreases a.len() - i,
    {
        if a[i] != b[i] {
            return false;
        }
        i += 1;
    }
    assert(a@ =~= b@);
    true
}

/// Check the digest decoded against the one computed.
fn check_digest(
    signed_info: &Element,
    digest: &Option<Vec<u8>>,
    computed: &Vec<u8>,
) -> (r: Result<(), AuthenticateError>)
    ensures
        meets(r, digest_verdict(signed_info@, bytes_view(*digest), computed@)),
{
    expect(signed_info.find("DigestValue"), NO_DIGEST_VALUE)?;
    match digest {
        None => Err(AuthenticateError::new(DIGEST_NOT_BASE64)),
        Some(claimed) => ensure(same_bytes(computed, claimed), DIGEST_DIFFERS),
    }
}

/// Check that a signature was decoded, and that it verifies.
fn check_value(signature: &Element, value: &Option<Vec<u8>>, verifies: bool) -> (r: Result<
    (),
    AuthenticateError,
>)
    ensures
        meets(r, value_verdict(signature@, bytes_view(*value), verifies)),
{
    expect(signature.find("SignatureValue"), NO_SIGNATURE_VALUE)?;
    match value {
        None => Err(AuthenticateError::new(VALUE_NOT_BASE64)),
        Some(bytes) => {
            ensure(reads_as_signature(bytes.as_slice()), NOT_A_SIGNATURE)?;
            ensure(verifies, DOES_NOT_VERIFY)
        },
    }
}

/// Decide on the assertion's enveloped signature, given what was decoded from
/// its `DigestValue` and its `SignatureValue` (none where the text there is not
/// base64), the digest computed of the assertion, and whether the signature
/// verifies over the `SignedInfo`.
///
/// # Errors
///
/// Where the signature is not the profile above, its digest does not match
/// the assertion, or its value does not verify.
pub fn decide(
    document: &Element,
    digest: &Option<Vec<u8>>,
    value: &Option<Vec<u8>>,
    computed: &Vec<u8>,
    verifies: bool,
) -> (r: Result<(), AuthenticateError>)
    ensures
        meets(
            r,
            profile_verdict(
                document@,
                bytes_view(*digest),
                bytes_view(*value),
                computed@,
                verifies,
            ),
        ),
{
    let assertion = expect(document.find("Assertion"), NO_ASSERTION)?;
    let id = expect(assertion.attribute("ID"), NO_ID)?;
    let signature = expect(assertion.find("Signature"), NO_SIGNATURE)?;
    ensure(assertion.single("Signature"), NOT_ONE_SIGNATURE)?;
    let signed_info = expect(signature.find("SignedInfo"), NO_SIGNED_INFO)?;
    check_methods(signed_info)?;
    check_reference(signed_info, id)?;
    check_digest(signed_info, digest, computed)?;
    check_value(signature, value, verifies)
}

/// The canonical text of an assertion without its `Signature`.
fn signed_text(assertion: &Element, inherited: &[(String, String)]) -> (r: String)
    ensures
        r@ == canonical_form(without_signature(assertion@), pairs_view(inherited@)),
{
    let mut signed = assertion.clone();
    let signature = |element: &Element| -> (answer: bool)
        ensures
            answer == (local_of(element@.name) == "Signature"@),
        { same(element.local(), "Signature") };
    let ghost whole = signed@;
    signed.remove_first(&signature);
    proof {
        let p = is_signature();
        assert(decides(signature, p));
        assert(without_first(whole, p) is Some || without_first(whole, p) is None);
    }
    signed.canonical(inherited)
}

/// The canonical texts that the digest and the signature of a document cover.
pub fn canonical_texts(document: &Element) -> (r: Option<(String, String)>)
    ensures
        match r {
            Some((assertion, signed_info)) => signed_texts(document@) == Some(
                (assertion@, signed_info@),
            ),
            None => signed_texts(document@) is None,
        },
{
    let none: Vec<(String, String)> = Vec::new();
    assert(pairs_view(none@) =~= Seq::empty());
    let (assertion, inherited) = locate(document, none.as_slice(), "Assertion")?;
    let (signature, scope) = locate(assertion, inherited.as_slice(), "Signature")?;
    let signed_info = signature.find("SignedInfo")?;
    let in_scope = scope_with(scope.as_slice(), &signature.namespaces);
    Some(
        (
            signed_text(assertion, inherited.as_slice()),
            signed_info.canonical(in_scope.as_slice()),
        ),
    )
}

/// Judge the assertion's enveloped signature against `key`, given what was
/// decoded from its `DigestValue` and its `SignatureValue`: none where the text
/// there is not base64.
///
/// # Errors
///
/// Where the signature is not the profile above, its digest does not match
/// the assertion, or its value does not verify with the key.
pub fn judge(
    document: &Element,
    key: &RsaKey,
    digest: &Option<Vec<u8>>,
    value: &Option<Vec<u8>>,
) -> (r: Result<(), AuthenticateError>)
    ensures
        meets(r, signature_verdict(document@, key@, bytes_view(*digest), bytes_view(*value))),
{
    match canonical_texts(document) {
        Some((assertion, signed_info)) => {
            let computed = sha256_digest(assertion.as_str().as_bytes());
            let verifies = match value {
                Some(signature) => rsa_sha256_verify(
                    key.modulus.as_slice(),
                    key.exponent.as_slice(),
                    signed_info.as_str().as_bytes(),
                    signature.as_slice(),
                ),
                None => false,
            };
            decide(document, digest, value, &computed, verifies)
        },
        None => {
            let nothing: Vec<u8> = Vec::new();
            assert(nothing@ =~= Seq::empty());
            decide(document, digest, value, &nothing, false)
        },
    }
}

/// The base64 text of a document's `DigestValue`.
fn digest_value(document: &Element) -> (r: Option<String>)
    ensures
        match r {
            Some(text) => digest_text(document@) == Some(text@),
            None => digest_text(document@) is None,
        },
{
    let element = document.find("Assertion")?.find("Signature")?.find("SignedInfo")?.find(
        "DigestValue",
    )?;
    Some(trimmed(element.text().as_str()))
}

/// The base64 text of a document's `SignatureValue`.
fn signature_value(document: &Element) -> (r: Option<String>)
    ensures
        match r {
            Some(text) => value_text(document@) == Some(text@),
            None => value_text(document@) is None,
        },
{
    let element = document.find("Assertion")?.find("Signature")?.find("SignatureValue")?;
    let chars = to_chars(element.text().as_str());
    assert(chars@.subrange(0, chars.len() as int) =~= chars@);
    Some(packed(&chars, 0, chars.len()))
}

/// Verify the assertion's enveloped signature against `key`, the base64 texts in
/// it read by `decode`, which gives none for what is not base64.
///
/// # Errors
///
/// Where the signature is not the profile above, its digest does not match
/// the assertion, or its value does not verify with the key.
pub fn verify(
    document: &Element,
    key: &RsaKey,
    decode: &impl Fn(&str) -> Option<Vec<u8>>,
) -> (r: Result<(), AuthenticateError>)
    requires
        forall|text: &str| call_requires(*decode, (text,)),
    ensures
        exists|digest: Option<Seq<u8>>, value: Option<Seq<u8>>|
            answers(*decode, digest_text(document@), digest) && answers(
                *decode,
                value_text(document@),
                value,
            ) && meets(r, #[trigger] signature_verdict(document@, key@, digest, value)),
{
    let digest = match digest_value(document) {
        Some(text) => decode(text.as_str()),
        None => None,
    };
    let value = match signature_value(document) {
        Some(text) => decode(text.as_str()),
        None => None,
    };
    judge(document, key, &digest, &value)
}

} // verus!
