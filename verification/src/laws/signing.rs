//! Laws of the signature: which signatures are accepted, and what they cover.

use crate::c14n::{canonical_form, declare_all};
use crate::laws::allowing::lemma_scope_allowed;
use crate::laws::reading::{
    readable, readable_among, valid_values, what_is_found_is_readable, what_is_left_is_readable,
    what_is_read_is_readable,
};
use crate::laws::round_trip::{normalized, one_form_is_one_normal_form};
use crate::laws::tree::{first_taken, found_has_the_name, named, taking_out_the_only_one};
use crate::outside::{rsa_sha256_verifies, sha256};
use crate::reader::read_document;
use crate::signature::{
    algorithm_of, first_unknown, is_signature, located, located_among, signature_verdict,
    signed_texts, transforms_of, without_signature, ENVELOPED, EXC_C14N, RSA_SHA256, SHA256,
};
use crate::xml::{
    attribute_or_empty, child_elements, count_named, first_among, first_named, local_of, lookup,
    with_local, ElementModel, NodeModel, Pair,
};
use vstd::prelude::*;
use vstd::utf8::encode_utf8;

verus! {

/// The element located with the namespaces in scope from its ancestors is the
/// element found: what is signed is what is read.
pub proof fn located_is_found(element: ElementModel, inherited: Seq<Pair>, local: Seq<char>)
    ensures
        match located(element, inherited, local) {
            Some((found, _)) => first_named(element, local) == Some(found),
            None => first_named(element, local) is None,
        },
    decreases element,
{
    if local_of(element.name) != local {
        located_among_is_found(
            element.children,
            declare_all(inherited, element.namespaces),
            local,
        );
    }
}

/// What is located among children is what is found among them.
proof fn located_among_is_found(nodes: Seq<NodeModel>, scope: Seq<Pair>, local: Seq<char>)
    ensures
        match located_among(nodes, scope, local) {
            Some((found, _)) => first_among(nodes, local) == Some(found),
            None => first_among(nodes, local) is None,
        },
    decreases nodes,
{
    if nodes.len() > 0 {
        if let NodeModel::Element(element) = nodes[0] {
            located_is_found(element, scope, local);
        }
        located_among_is_found(nodes.drop_first(), scope, local);
    }
}

/// Whether a `SignedInfo` states the methods of the profile and one reference,
/// to the assertion of this ID, with the transforms of the profile.
pub open spec fn states_the_profile(signed_info: ElementModel, id: Seq<char>) -> bool {
    let references = with_local(child_elements(signed_info.children), "Reference"@);
    &&& algorithm_of(signed_info, "CanonicalizationMethod"@) == EXC_C14N@
    &&& algorithm_of(signed_info, "SignatureMethod"@) == RSA_SHA256@
    &&& algorithm_of(signed_info, "DigestMethod"@) == SHA256@
    &&& references.len() == 1
    &&& attribute_or_empty(references[0], "URI"@) == "#"@ + id
    &&& transforms_of(references[0]).len() == 2
    &&& transforms_of(references[0])[0] == ENVELOPED@
    &&& transforms_of(references[0])[1] == EXC_C14N@
}

/// Whether a document is signed in the profile with this key: its assertion has
/// an ID and one signature, whose `SignedInfo` states the profile; the digest
/// decoded is that of the assertion's canonical form without the signature; and
/// the key verifies the signature decoded over the canonical form of the
/// `SignedInfo`.
pub open spec fn signed_in_profile(
    document: ElementModel,
    key: (Seq<u8>, Seq<u8>),
    digest: Option<Seq<u8>>,
    value: Option<Seq<u8>>,
) -> bool {
    &&& located(document, Seq::empty(), "Assertion"@) matches Some((assertion, inherited))
    &&& lookup(assertion.attributes, "ID"@) matches Some(id)
    &&& located(assertion, inherited, "Signature"@) matches Some((signature, scope))
    &&& count_named(assertion, "Signature"@) == 1
    &&& first_named(signature, "SignedInfo"@) matches Some(signed_info)
    &&& states_the_profile(signed_info, id)
    &&& first_named(signed_info, "DigestValue"@) is Some
    &&& digest == Some(
        sha256(encode_utf8(canonical_form(without_signature(assertion), inherited))),
    )
    &&& first_named(signature, "SignatureValue"@) is Some
    &&& value matches Some(bytes)
    &&& rsa_sha256_verifies(
        key.0,
        key.1,
        encode_utf8(canonical_form(signed_info, declare_all(scope, signature.namespaces))),
        bytes,
    )
}

/// Both transforms of the profile are applied.
proof fn the_two_are_known(transforms: Seq<Seq<char>>)
    requires
        transforms.len() == 2,
        transforms[0] == ENVELOPED@,
        transforms[1] == EXC_C14N@,
    ensures
        first_unknown(transforms) is None,
{
    let rest = transforms.drop_first();
    assert(rest[0] == transforms[1]);
    assert(rest.drop_first().len() == 0);
    assert(first_unknown(rest.drop_first()) is None);
    assert(first_unknown(rest) is None);
}

/// A signature is accepted exactly where the document is signed in the profile;
/// every other shape is refused.
pub proof fn accepted_is_signed_in_profile(
    document: ElementModel,
    key: (Seq<u8>, Seq<u8>),
    digest: Option<Seq<u8>>,
    value: Option<Seq<u8>>,
)
    ensures
        signature_verdict(document, key, digest, value) is Ok <==> signed_in_profile(
            document,
            key,
            digest,
            value,
        ),
{
    located_is_found(document, Seq::empty(), "Assertion"@);
    if let Some((assertion, inherited)) = located(document, Seq::empty(), "Assertion"@) {
        located_is_found(assertion, inherited, "Signature"@);
        if let Some((signature, scope)) = located(assertion, inherited, "Signature"@) {
            if let Some(signed_info) = first_named(signature, "SignedInfo"@) {
                let references = with_local(child_elements(signed_info.children), "Reference"@);
                if references.len() == 1 {
                    let transforms = transforms_of(references[0]);
                    if transforms.len() == 2 && transforms[0] == ENVELOPED@ && transforms[1]
                        == EXC_C14N@ {
                        the_two_are_known(transforms);
                    }
                }
            }
        }
    }
}

/// Where a signature is accepted, the assertion digested is the one read, with
/// the one signature it carries taken out: that signature is the one judged, no
/// other is left, and the assertion is otherwise as it was.
pub proof fn the_digest_covers_the_assertion(
    document: ElementModel,
    key: (Seq<u8>, Seq<u8>),
    digest: Option<Seq<u8>>,
    value: Option<Seq<u8>>,
)
    requires
        signature_verdict(document, key, digest, value) is Ok,
    ensures
        first_named(document, "Assertion"@) matches Some(assertion) && located(
            document,
            Seq::empty(),
            "Assertion"@,
        ) matches Some((signed, inherited)) && signed == assertion && digest == Some(
            sha256(encode_utf8(canonical_form(without_signature(assertion), inherited))),
        ) && first_taken(assertion, named("Signature"@)) == first_named(assertion, "Signature"@)
            && count_named(without_signature(assertion), "Signature"@) == 0,
{
    accepted_is_signed_in_profile(document, key, digest, value);
    located_is_found(document, Seq::empty(), "Assertion"@);
    found_has_the_name(document, "Assertion"@);
    reveal_strlit("Assertion");
    reveal_strlit("Signature");
    assert("Assertion"@[0] != "Signature"@[0]);
    let assertion = first_named(document, "Assertion"@)->0;
    taking_out_the_only_one(assertion, "Signature"@);
    assert(is_signature() =~= named("Signature"@));
}

/// The namespaces in scope where an element of a readable document is located
/// hold what XML allows.
pub proof fn what_is_in_scope_is_valid(
    element: ElementModel,
    inherited: Seq<Pair>,
    local: Seq<char>,
)
    requires
        readable(element),
        valid_values(inherited),
    ensures
        located(element, inherited, local) matches Some((_, scope)) ==> valid_values(scope),
    decreases element,
{
    if local_of(element.name) != local {
        lemma_scope_allowed(inherited, element.namespaces);
        lemma_in_scope_among(
            element.children,
            declare_all(inherited, element.namespaces),
            local,
        );
    }
}

/// So do those where an element is located among children.
proof fn lemma_in_scope_among(nodes: Seq<NodeModel>, inherited: Seq<Pair>, local: Seq<char>)
    requires
        readable_among(nodes),
        valid_values(inherited),
    ensures
        located_among(nodes, inherited, local) matches Some((_, scope)) ==> valid_values(scope),
    decreases nodes,
{
    if nodes.len() > 0 {
        if let NodeModel::Element(element) = nodes[0] {
            what_is_in_scope_is_valid(element, inherited, local);
        }
        lemma_in_scope_among(nodes.drop_first(), inherited, local);
    }
}

/// What is digested tells the assertion: where the digests of two documents
/// that were read cover the same text, their assertions without the signature
/// are one in their normal form, in names, attributes, text and all.
pub proof fn one_digested_text_is_one_assertion(
    a: ElementModel,
    text_of_a: Seq<char>,
    info_of_a: Seq<char>,
    b: ElementModel,
    text_of_b: Seq<char>,
    info_of_b: Seq<char>,
    digested: Seq<char>,
)
    requires
        read_document(text_of_a) == Ok::<ElementModel, Seq<char>>(a),
        read_document(text_of_b) == Ok::<ElementModel, Seq<char>>(b),
        signed_texts(a) == Some((digested, info_of_a)),
        signed_texts(b) == Some((digested, info_of_b)),
    ensures
        located(a, Seq::empty(), "Assertion"@) matches Some((one, inherited)) && located(
            b,
            Seq::empty(),
            "Assertion"@,
        ) matches Some((other, beside)) && normalized(
            without_signature(one),
            inherited,
            Seq::empty(),
        ) == normalized(without_signature(other), beside, Seq::empty()),
{
    what_is_read_is_readable(text_of_a);
    what_is_read_is_readable(text_of_b);
    located_is_found(a, Seq::empty(), "Assertion"@);
    located_is_found(b, Seq::empty(), "Assertion"@);
    what_is_found_is_readable(a, "Assertion"@);
    what_is_found_is_readable(b, "Assertion"@);
    let (one, inherited) = located(a, Seq::empty(), "Assertion"@)->0;
    let (other, beside) = located(b, Seq::empty(), "Assertion"@)->0;
    what_is_in_scope_is_valid(a, Seq::empty(), "Assertion"@);
    what_is_in_scope_is_valid(b, Seq::empty(), "Assertion"@);
    what_is_left_is_readable(one, is_signature());
    what_is_left_is_readable(other, is_signature());
    one_form_is_one_normal_form(
        without_signature(one),
        inherited,
        without_signature(other),
        beside,
    );
}

} // verus!
