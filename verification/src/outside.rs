//! What is taken from outside and believed: the hash, the signature scheme, the
//! certificate and key formats, base64, the system clock, and the few functions
//! of the standard library that nothing else describes.

use base64::Engine;
use rsa::pkcs1v15::{Signature, VerifyingKey};
use rsa::pkcs8::DecodePublicKey;
use rsa::sha2::{Digest, Sha256};
use rsa::signature::Verifier;
use rsa::traits::PublicKeyParts;
use rsa::{BigUint, RsaPublicKey};
use vstd::prelude::*;
use vstd::utf8::{decode_utf8, valid_utf8};
use x509_parser::prelude::{FromDer, X509Certificate};

verus! {

/// `String::push` appends the character.
pub assume_specification[ String::push ](text: &mut String, c: char)
    ensures
        final(text)@ == old(text)@.push(c),
;

/// `char::from_u32` gives the character with that code, and none where the code
/// is a surrogate or lies beyond the last code point.
pub assume_specification[ char::from_u32 ](code: u32) -> (found: Option<char>)
    ensures
        match found {
            Some(c) => (code <= 0xd7ff || 0xe000 <= code <= 0x10ffff) && c == code as char,
            None => 0xd800 <= code <= 0xdfff || code > 0x10ffff,
        },
;

/// The error of `core::str::from_utf8`.
#[verifier::external_type_specification]
#[verifier::external_body]
pub struct ExUtf8Error(core::str::Utf8Error);

/// `core::str::from_utf8` reads the bytes as UTF-8 text, and fails exactly where
/// they are not valid UTF-8.
pub assume_specification[ core::str::from_utf8 ](bytes: &[u8]) -> (text: Result<
    &str,
    core::str::Utf8Error,
>)
    ensures
        match text {
            Ok(read) => valid_utf8(bytes@) && read@ == decode_utf8(bytes@),
            Err(_) => !valid_utf8(bytes@),
        },
;

/// What `Sha256::digest` makes of these bytes.
pub uninterp spec fn sha256(data: Seq<u8>) -> Seq<u8>;

/// `rsa::sha2::Sha256::digest`: the SHA-256 digest, which is thirty-two bytes
/// long.
#[verifier::external_body]
pub(crate) fn sha256_digest(data: &[u8]) -> (digest: Vec<u8>)
    ensures
        digest@ == sha256(data@),
        digest@.len() == 32,
{
    Sha256::digest(data).to_vec()
}

/// Whether `VerifyingKey::<Sha256>::verify` accepts the signature over the
/// message with the public key of this modulus and exponent, big-endian.
pub uninterp spec fn rsa_sha256_verifies(
    modulus: Seq<u8>,
    exponent: Seq<u8>,
    message: Seq<u8>,
    signature: Seq<u8>,
) -> bool;

/// `rsa::pkcs1v15::VerifyingKey::<Sha256>::verify`, the RSASSA-PKCS1-v1_5 check
/// with SHA-256, on the key that `RsaPublicKey::new_unchecked` makes of any
/// modulus and exponent and on a signature read with `Signature::try_from`. It
/// accepts or it does not, by these four byte strings alone; what is no signature
/// is not accepted.
#[verifier::external_body]
pub(crate) fn rsa_sha256_verify(
    modulus: &[u8],
    exponent: &[u8],
    message: &[u8],
    signature: &[u8],
) -> (accepted: bool)
    ensures
        accepted == rsa_sha256_verifies(modulus@, exponent@, message@, signature@),
{
    let key = RsaPublicKey::new_unchecked(
        BigUint::from_bytes_be(modulus),
        BigUint::from_bytes_be(exponent),
    );
    match Signature::try_from(signature) {
        Ok(signature) => VerifyingKey::<Sha256>::new(key).verify(message, &signature).is_ok(),
        Err(_) => false,
    }
}

/// `rsa::pkcs1v15::Signature::try_from` reads any byte string as a signature.
#[verifier::external_body]
pub(crate) fn reads_as_signature(bytes: &[u8]) -> (read: bool)
    ensures
        read,
{
    Signature::try_from(bytes).is_ok()
}

/// The modulus and exponent that `RsaPublicKey::from_public_key_der` reads from
/// a DER `SubjectPublicKeyInfo`, big-endian; none where it reads no RSA key.
pub uninterp spec fn spki_rsa_key(der: Seq<u8>) -> Option<(Seq<u8>, Seq<u8>)>;

/// `RsaPublicKey::from_public_key_der`: the modulus and exponent of the RSA key
/// in a DER `SubjectPublicKeyInfo`.
#[verifier::external_body]
pub(crate) fn rsa_key_from_spki(der: &[u8]) -> (key: Option<(Vec<u8>, Vec<u8>)>)
    ensures
        match key {
            Some((modulus, exponent)) => spki_rsa_key(der@) == Some((modulus@, exponent@)),
            None => spki_rsa_key(der@) is None,
        },
{
    let key = RsaPublicKey::from_public_key_der(der).ok()?;
    Some((key.n().to_bytes_be(), key.e().to_bytes_be()))
}

/// The DER `SubjectPublicKeyInfo` of the certificate that
/// `X509Certificate::from_der` reads from these bytes; none where it reads none.
pub uninterp spec fn certificate_spki(der: Seq<u8>) -> Option<Seq<u8>>;

/// `X509Certificate::from_der`: the raw public key information of the
/// certificate the bytes begin with.
#[verifier::external_body]
pub(crate) fn spki_from_certificate(der: &[u8]) -> (spki: Option<Vec<u8>>)
    ensures
        match spki {
            Some(raw) => certificate_spki(der@) == Some(raw@),
            None => certificate_spki(der@) is None,
        },
{
    let (_, certificate) = X509Certificate::from_der(der).ok()?;
    Some(certificate.public_key().raw.to_vec())
}

/// The bytes that base64's `STANDARD` engine decodes from this text; none where
/// it refuses it.
pub uninterp spec fn standard_base64(text: Seq<char>) -> Option<Seq<u8>>;

/// `base64::engine::general_purpose::STANDARD.decode`: the bytes a padded text in
/// the standard alphabet encodes.
#[verifier::external_body]
pub(crate) fn decode_base64(text: &str) -> (bytes: Option<Vec<u8>>)
    ensures
        match bytes {
            Some(decoded) => standard_base64(text@) == Some(decoded@),
            None => standard_base64(text@) is None,
        },
{
    base64::engine::general_purpose::STANDARD.decode(text).ok()
}

/// A point in time of the system clock.
#[verifier::external_type_specification]
#[verifier::external_body]
pub struct ExSystemTime(std::time::SystemTime);

/// `SystemTime::now` reads the system clock; nothing is promised of what it
/// reads.
pub assume_specification[ std::time::SystemTime::now ]() -> (time: std::time::SystemTime)
;

/// `SystemTime::duration_since`, from the Unix epoch: how long after it the time
/// is, and none where it is before it. Nothing is promised of which.
#[verifier::external_body]
pub(crate) fn since_epoch(time: std::time::SystemTime) -> (since: Option<std::time::Duration>) {
    time.duration_since(std::time::UNIX_EPOCH).ok()
}

/// `Duration::as_secs`: the whole seconds; nothing is promised of how many.
pub assume_specification[ std::time::Duration::as_secs ](since: &std::time::Duration) -> (seconds:
    u64)
;

} // verus!
