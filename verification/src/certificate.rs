//! The identity provider's signing key, read from its certificate.

use crate::error::{expect, meets, AuthenticateError};
use crate::outside::{
    certificate_spki, decode_base64, rsa_key_from_spki, spki_from_certificate, spki_rsa_key,
    standard_base64,
};
use crate::text::{find_from, packed, position, to_chars, without_white_space};
use vstd::prelude::*;
use vstd::utf8::{decode_utf8, valid_utf8};

verus! {

pub const NOT_CLOSED: &'static str = "the PEM certificate is not closed";

pub const NOT_BASE64: &'static str = "the PEM certificate body is not base64";

pub const NOT_A_CERTIFICATE: &'static str = "the IdP certificate is not an X.509 certificate";

pub const NOT_RSA: &'static str =
    "the IdP certificate's key is not RSA, which is all this gate reads";

/// An RSA public key: its modulus and its exponent, big-endian.
#[derive(Clone, Debug, PartialEq, Eq)]
pub struct RsaKey {
    /// The modulus.
    pub modulus: Vec<u8>,
    /// The public exponent.
    pub exponent: Vec<u8>,
}

impl View for RsaKey {
    type V = (Seq<u8>, Seq<u8>);

    open spec fn view(&self) -> (Seq<u8>, Seq<u8>) {
        (self.modulus@, self.exponent@)
    }
}

/// The identity provider's RSA signing key, however it was configured.
#[derive(Clone, Debug)]
pub struct IdpCertificate {
    key: RsaKey,
}

impl View for IdpCertificate {
    type V = (Seq<u8>, Seq<u8>);

    closed spec fn view(&self) -> (Seq<u8>, Seq<u8>) {
        self.key@
    }
}

/// The text the bytes are, and no text where they are not UTF-8.
pub open spec fn text_or_none(bytes: Seq<u8>) -> Seq<char> {
    if valid_utf8(bytes) {
        decode_utf8(bytes)
    } else {
        Seq::empty()
    }
}

/// The base64 text between the PEM markers of this label, its white space taken
/// out; none where the text holds no opening marker.
pub open spec fn pem_body(text: Seq<char>, label: Seq<char>) -> Result<
    Option<Seq<char>>,
    Seq<char>,
> {
    let begin = "-----BEGIN "@ + label + "-----"@;
    match position(text, begin) {
        None => Ok(None),
        Some(start) => {
            let body = text.skip(start as int + begin.len());
            match position(body, "-----END"@) {
                None => Err(NOT_CLOSED@),
                Some(end) => Ok(Some(without_white_space(body.take(end as int)))),
            }
        },
    }
}

/// The DER of one PEM block of this label, or the bytes as they are.
pub open spec fn der_of(bytes: Seq<u8>, label: Seq<char>) -> Result<Seq<u8>, Seq<char>> {
    match pem_body(text_or_none(bytes), label) {
        Err(fault) => Err(fault),
        Ok(None) => Ok(bytes),
        Ok(Some(body)) => match standard_base64(body) {
            Some(der) => Ok(der),
            None => Err(NOT_BASE64@),
        },
    }
}

/// The RSA key of an X.509 certificate in PEM or DER.
pub open spec fn key_of(certificate: Seq<u8>) -> Result<(Seq<u8>, Seq<u8>), Seq<char>> {
    match der_of(certificate, "CERTIFICATE"@) {
        Err(fault) => Err(fault),
        Ok(der) => match certificate_spki(der) {
            None => Err(NOT_A_CERTIFICATE@),
            Some(spki) => match spki_rsa_key(spki) {
                None => Err(NOT_RSA@),
                Some(key) => Ok(key),
            },
        },
    }
}

/// The base64 text between the PEM markers of this label; none where the text
/// holds no opening marker.
///
/// # Errors
///
/// Where the closing marker is missing.
pub fn pem_text(text: &str, label: &str) -> (r: Result<Option<String>, AuthenticateError>)
    ensures
        match r {
            Ok(Some(body)) => pem_body(text@, label@) == Ok::<Option<Seq<char>>, Seq<char>>(
                Some(body@),
            ),
            Ok(None) => pem_body(text@, label@) == Ok::<Option<Seq<char>>, Seq<char>>(None),
            Err(refusal) => pem_body(text@, label@) == Err::<Option<Seq<char>>, Seq<char>>(
                refusal.message@,
            ),
        },
{
    let chars = to_chars(text);
    let mut begin = "-----BEGIN ".to_owned();
    begin.append(label);
    begin.append("-----");
    let length = to_chars(begin.as_str()).len();
    assert(chars@.skip(0) =~= text@);
    match find_from(&chars, 0, begin.as_str()) {
        None => Ok(None),
        Some(start) => {
            let from = start + length;
            let ghost body = text@.skip(from as int);
            match find_from(&chars, from, "-----END") {
                None => Err(AuthenticateError::new(NOT_CLOSED)),
                Some(end) => {
                    assert(chars@.subrange(from as int, end as int) =~= body.take(end - from));
                    Ok(Some(packed(&chars, from, end)))
                },
            }
        },
    }
}

/// One base64 block to DER: a PEM body between its markers, or the bytes as
/// they are.
fn to_der(bytes: &[u8], label: &str) -> (r: Result<Vec<u8>, AuthenticateError>)
    ensures
        meets(r, der_of(bytes@, label@)),
{
    let text = match core::str::from_utf8(bytes) {
        Ok(text) => text,
        Err(_) => "",
    };
    proof {
        reveal_strlit("");
        assert(text@ =~= text_or_none(bytes@));
    }
    match pem_text(text, label)? {
        Some(body) => expect(decode_base64(body.as_str()), NOT_BASE64),
        None => Ok(vstd::slice::slice_to_vec(bytes)),
    }
}

impl IdpCertificate {
    /// The key of an X.509 certificate in PEM (`-----BEGIN CERTIFICATE-----`)
    /// or DER, as `IdP` metadata carries one.
    ///
    /// # Errors
    ///
    /// Where the bytes are not an X.509 certificate, or its key is not RSA.
    pub fn from_certificate(certificate: &[u8]) -> (r: Result<Self, AuthenticateError>)
        ensures
            meets(r, key_of(certificate@)),
    {
        let der = to_der(certificate, "CERTIFICATE")?;
        let spki = expect(spki_from_certificate(der.as_slice()), NOT_A_CERTIFICATE)?;
        let (modulus, exponent) = expect(rsa_key_from_spki(spki.as_slice()), NOT_RSA)?;
        Ok(IdpCertificate { key: RsaKey { modulus, exponent } })
    }

    /// A bare RSA public key, where the node holds one rather than a whole
    /// certificate.
    #[must_use]
    pub fn from_public_key(key: RsaKey) -> (r: Self)
        ensures
            r@ == key@,
    {
        IdpCertificate { key }
    }

    /// The key.
    #[must_use]
    pub fn key(&self) -> (r: &RsaKey)
        ensures
            r@ == self@,
    {
        &self.key
    }
}

} // verus!
