use authenticate_saml::certificate::pem_text;
use authenticate_saml::{IdpCertificate, RsaKey};
use base64::engine::general_purpose::STANDARD;
use base64::Engine;
use rsa::pkcs8::EncodePublicKey;
use rsa::traits::PublicKeyParts;
use rsa::{RsaPrivateKey, RsaPublicKey};

fn key() -> RsaPrivateKey {
    RsaPrivateKey::new(&mut rand::rngs::OsRng, 2048).expect("a key")
}

/// One DER element.
fn der(tag: u8, content: &[u8]) -> Vec<u8> {
    let mut element = vec![tag];
    if content.len() < 0x80 {
        element.push(u8::try_from(content.len()).expect("short"));
    } else {
        let length = u32::try_from(content.len())
            .expect("a length")
            .to_be_bytes();
        let start = length.iter().take_while(|octet| **octet == 0).count();
        element.push(0x80 | u8::try_from(4 - start).expect("at most four"));
        element.extend_from_slice(&length[start..]);
    }
    element.extend_from_slice(content);
    element
}

/// The DER of a public key.
fn key_info(private: &RsaPrivateKey) -> Vec<u8> {
    RsaPublicKey::from(private)
        .to_public_key_der()
        .expect("an SPKI")
        .as_bytes()
        .to_vec()
}

/// A minimal self-signed X.509 certificate carrying the key, in DER: its own
/// signature is not checked by this gate, so it need not be valid.
fn certificate_with(key_info: &[u8]) -> Vec<u8> {
    let sha256_rsa = der(
        0x06,
        &[0x2a, 0x86, 0x48, 0x86, 0xf7, 0x0d, 0x01, 0x01, 0x0b],
    );
    let mut algorithm = sha256_rsa.clone();
    algorithm.extend(der(0x05, &[])); // NULL
    let algorithm = der(0x30, &algorithm);
    let name = der(0x30, &[]);
    let mut validity = der(0x17, b"700101000000Z");
    validity.extend(der(0x17, b"491231235959Z"));
    let validity = der(0x30, &validity);

    let mut tbs = der(0xA0, &der(0x02, &[0x02])); // version 2 (v3)
    tbs.extend(der(0x02, &[0x01])); // serial
    tbs.extend(algorithm.clone());
    tbs.extend(name.clone());
    tbs.extend(validity);
    tbs.extend(name);
    tbs.extend_from_slice(key_info);
    let tbs = der(0x30, &tbs);

    let mut signature = vec![0u8]; // no unused bits
    signature.extend_from_slice(&[0u8; 256]);
    let mut certificate = tbs;
    certificate.extend(algorithm);
    certificate.extend(der(0x03, &signature));
    der(0x30, &certificate)
}

fn self_signed_certificate(private: &RsaPrivateKey) -> String {
    let body = STANDARD.encode(certificate_with(&key_info(private)));
    let wrapped = body
        .as_bytes()
        .chunks(64)
        .map(|line| core::str::from_utf8(line).expect("ascii"))
        .collect::<Vec<_>>()
        .join("\n");
    format!("-----BEGIN CERTIFICATE-----\n{wrapped}\n-----END CERTIFICATE-----\n")
}

#[test]
fn an_idp_certificate_in_pem_is_read_for_its_rsa_key() {
    let private = key();
    let certificate = self_signed_certificate(&private);

    let read = IdpCertificate::from_certificate(certificate.as_bytes());

    assert!(read.is_ok());
    let public = RsaPublicKey::from(&private);
    let expected = RsaKey {
        modulus: public.n().to_bytes_be(),
        exponent: public.e().to_bytes_be(),
    };
    assert_eq!(read.expect("read").key(), &expected);
}

#[test]
fn a_certificate_in_der_is_read_as_it_is() {
    let private = key();

    let read = IdpCertificate::from_certificate(&certificate_with(&key_info(&private)));

    let public = RsaPublicKey::from(&private);
    assert_eq!(read.expect("read").key().modulus, public.n().to_bytes_be());
}

#[test]
fn what_is_no_certificate_is_refused_by_name() {
    let refused = |bytes: &[u8]| {
        IdpCertificate::from_certificate(bytes)
            .expect_err("refused")
            .message
    };

    assert_eq!(
        refused(b"-----BEGIN CERTIFICATE-----\nAAAA"),
        "the PEM certificate is not closed"
    );
    assert_eq!(
        refused(b"-----BEGIN CERTIFICATE-----\n*\n-----END CERTIFICATE-----"),
        "the PEM certificate body is not base64"
    );
    assert_eq!(
        refused(b"-----BEGIN CERTIFICATE-----\nAAAA\n-----END CERTIFICATE-----"),
        "the IdP certificate is not an X.509 certificate"
    );
    assert_eq!(
        refused(&[0xff, 0xfe]),
        "the IdP certificate is not an X.509 certificate"
    );
    // An EC key: id-ecPublicKey on prime256v1, with a point of zeros.
    let mut algorithm = der(0x06, &[0x2a, 0x86, 0x48, 0xce, 0x3d, 0x02, 0x01]);
    algorithm.extend(der(
        0x06,
        &[0x2a, 0x86, 0x48, 0xce, 0x3d, 0x03, 0x01, 0x07],
    ));
    let mut info = der(0x30, &algorithm);
    let mut point = vec![0u8, 4u8];
    point.extend_from_slice(&[0u8; 64]);
    info.extend(der(0x03, &point));
    assert_eq!(
        refused(&certificate_with(&der(0x30, &info))),
        "the IdP certificate's key is not RSA, which is all this gate reads"
    );
}

#[test]
fn a_pem_body_is_what_stands_between_the_markers_without_white_space() {
    let text = "junk\n-----BEGIN KEY-----\nAB CD\r\n\tEF\n-----END KEY-----\nmore";

    assert_eq!(
        pem_text(text, "KEY").expect("closed"),
        Some("ABCDEF".to_string())
    );
    assert_eq!(pem_text(text, "CERTIFICATE").expect("none"), None);
    assert_eq!(
        pem_text("-----BEGIN KEY-----\nAB", "KEY")
            .expect_err("open")
            .message,
        "the PEM certificate is not closed"
    );
    // The same body on one line is the same body.
    assert_eq!(
        pem_text("-----BEGIN KEY-----ABCDEF-----END", "KEY").expect("closed"),
        Some("ABCDEF".to_string())
    );
}

#[test]
fn a_bare_key_is_kept_as_it_is() {
    let key = RsaKey {
        modulus: vec![1, 2, 3],
        exponent: vec![1, 0, 1],
    };

    let certificate = IdpCertificate::from_public_key(key.clone());

    assert_eq!(certificate.key(), &key);
}
