//! Laws of a certificate's armour.

use crate::certificate::{der_of, pem_body, pem_text, text_or_none, IdpCertificate};
use crate::error::AuthenticateError;
use crate::outside::{certificate_spki, spki_rsa_key, standard_base64};
use crate::text::{contains, lemma_position_contains, position, starts_with, without_white_space};
use vstd::prelude::*;
use vstd::utf8::{decode_utf8, valid_utf8};

verus! {

/// The marker that opens a PEM block of this label.
pub open spec fn opening(label: Seq<char>) -> Seq<char> {
    "-----BEGIN "@ + label + "-----"@
}

/// Bytes without the opening marker are taken as they are.
pub proof fn der_is_taken_as_it_is(bytes: Seq<u8>, label: Seq<char>)
    requires
        !contains(text_or_none(bytes), opening(label)),
    ensures
        der_of(bytes, label) == Ok::<Seq<u8>, Seq<char>>(bytes),
{
    lemma_position_contains(text_or_none(bytes), opening(label));
}

/// How a PEM body is broken into lines makes no difference, nor does what
/// follows it.
pub proof fn white_space_in_a_body_makes_no_difference(
    label: Seq<char>,
    a: Seq<char>,
    after_a: Seq<char>,
    b: Seq<char>,
    after_b: Seq<char>,
)
    requires
        position(a + ("-----END"@ + after_a), "-----END"@) == Some(a.len()),
        position(b + ("-----END"@ + after_b), "-----END"@) == Some(b.len()),
        without_white_space(a) == without_white_space(b),
    ensures
        pem_body(opening(label) + (a + ("-----END"@ + after_a)), label) == pem_body(
            opening(label) + (b + ("-----END"@ + after_b)),
            label,
        ),
        pem_body(opening(label) + (a + ("-----END"@ + after_a)), label) == Ok::<
            Option<Seq<char>>,
            Seq<char>,
        >(Some(without_white_space(a))),
{
    lemma_block(label, a, after_a);
    lemma_block(label, b, after_b);
}

/// The body of a block is what stands between its markers.
proof fn lemma_block(label: Seq<char>, body: Seq<char>, after: Seq<char>)
    requires
        position(body + ("-----END"@ + after), "-----END"@) == Some(body.len()),
    ensures
        pem_body(opening(label) + (body + ("-----END"@ + after)), label) == Ok::<
            Option<Seq<char>>,
            Seq<char>,
        >(Some(without_white_space(body))),
{
    let begin = opening(label);
    let rest = body + ("-----END"@ + after);
    let whole = begin + rest;
    assert(whole.take(begin.len() as int) =~= begin);
    assert(starts_with(whole, begin));
    assert(whole.skip(begin.len() as int) =~= rest);
    assert(rest.take(body.len() as int) =~= body);
}

/// The text between the first opening marker and the first closing marker after
/// it is the body, whatever stands before the one and after the other; without
/// an opening marker there is none, and without a closing one it is refused.
pub proof fn a_body_stands_between_its_markers(
    text: &str,
    label: &str,
    r: Result<Option<String>, AuthenticateError>,
    before: Seq<char>,
    body: Seq<char>,
    behind: Seq<char>,
)
    requires
        call_ensures(pem_text, (text, label), r),
    ensures
        position(text@, "-----BEGIN "@ + label@ + "-----"@) is None ==> (r matches Ok(none)
            && none is None),
        text@ == before + ("-----BEGIN "@ + label@ + "-----"@) + body && position(
            text@,
            "-----BEGIN "@ + label@ + "-----"@,
        ) == Some(before.len()) && position(body, "-----END"@) is None ==> (r matches Err(refusal)
            && refusal.message@ == "the PEM certificate is not closed"@),
        text@ == before + ("-----BEGIN "@ + label@ + "-----"@) + (body + "-----END"@ + behind)
            && position(text@, "-----BEGIN "@ + label@ + "-----"@) == Some(before.len())
            && position(body + "-----END"@ + behind, "-----END"@) == Some(body.len()) ==> (
        r matches Ok(Some(given)) && given@ == without_white_space(body)),
{
    let begin = "-----BEGIN "@ + label@ + "-----"@;
    let from = before.len() as int + begin.len();
    if text@ == before + begin + body {
        assert(text@.skip(from) =~= body);
    }
    if text@ == before + begin + (body + "-----END"@ + behind) {
        assert(text@.skip(from) =~= body + "-----END"@ + behind);
        assert((body + "-----END"@ + behind).take(body.len() as int) =~= body);
    }
}

/// The key of a certificate is the RSA key in the public key information of the
/// DER it is: the bytes themselves where they hold no opening marker, and
/// otherwise what the body decodes to. What is no base64, no certificate or no
/// RSA key is refused in that order.
pub proof fn a_certificate_gives_its_key(
    certificate: &[u8],
    r: Result<IdpCertificate, AuthenticateError>,
    before: Seq<char>,
    body: Seq<char>,
    behind: Seq<char>,
)
    requires
        call_ensures(IdpCertificate::from_certificate, (certificate,), r),
    ensures
        ({
            let begin = "-----BEGIN CERTIFICATE-----"@;
            let bytes = certificate@;
            let text = decode_utf8(bytes);
            &&& !valid_utf8(bytes) || position(text, begin) is None ==> gives_key_of(bytes, r)
            &&& valid_utf8(bytes) && text == before + begin + (body + "-----END"@ + behind)
                && position(text, begin) == Some(before.len()) && position(
                body + "-----END"@ + behind,
                "-----END"@,
            ) == Some(body.len()) ==> match standard_base64(without_white_space(body)) {
                Some(der) => gives_key_of(der, r),
                None => r matches Err(refusal) && refusal.message@
                    == "the PEM certificate body is not base64"@,
            }
            &&& valid_utf8(bytes) && text == before + begin + body && position(text, begin)
                == Some(before.len()) && position(body, "-----END"@) is None ==> (r matches Err(
                refusal,
            ) && refusal.message@ == "the PEM certificate is not closed"@)
        }),
{
    let bytes = certificate@;
    let begin = "-----BEGIN CERTIFICATE-----"@;
    let text = text_or_none(bytes);
    reveal_strlit("-----BEGIN ");
    reveal_strlit("CERTIFICATE");
    reveal_strlit("-----");
    reveal_strlit("-----BEGIN CERTIFICATE-----");
    assert("-----BEGIN "@ + "CERTIFICATE"@ + "-----"@ =~= begin);
    if !valid_utf8(bytes) {
        assert(text.len() == 0);
        assert(!starts_with(text, begin));
    }
    let from = before.len() as int + begin.len();
    if text == before + begin + body {
        assert(text.skip(from) =~= body);
    }
    if text == before + begin + (body + "-----END"@ + behind) {
        assert(text.skip(from) =~= body + "-----END"@ + behind);
        assert((body + "-----END"@ + behind).take(body.len() as int) =~= body);
    }
}

/// Whether what was given is the key of this DER, or the refusal it calls for.
pub open spec fn gives_key_of(
    der: Seq<u8>,
    r: Result<IdpCertificate, AuthenticateError>,
) -> bool {
    match certificate_spki(der) {
        None => r matches Err(refusal) && refusal.message@
            == "the IdP certificate is not an X.509 certificate"@,
        Some(spki) => match spki_rsa_key(spki) {
            None => r matches Err(refusal) && refusal.message@
                == "the IdP certificate's key is not RSA, which is all this gate reads"@,
            Some(key) => r matches Ok(read) && read@ == key,
        },
    }
}

} // verus!
