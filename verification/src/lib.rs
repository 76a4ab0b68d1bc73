//! Authenticate by saml: verifies an assertion's signature and conditions
//! against the `IdP` certificate.
//!
//! A claim is presented with a SAML assertion as its `saml.assertion` proof: the
//! posted `SAMLResponse` or the bare element, base64. This gate opens it, checks
//! the enveloped XML signature against the identity provider's certificate held
//! as configuration (see [`signature`]), and then the assertion's conditions:
//! `NotBefore` and `NotOnOrAfter` with the configured leeway, the
//! `AudienceRestriction` naming this node, the `Issuer` being the expected
//! provider, and the subject being the value that was claimed. Nothing is
//! fetched.
//!
//! **What of XML-DSig is covered, precisely.** One enveloped `Signature` in the
//! `Assertion`, one `Reference` to the assertion by its `ID`, the transforms
//! enveloped-signature then exclusive c14n, SHA-256 digests, an RSA-SHA256
//! signature over the canonical `SignedInfo`, and the subset of exclusive
//! canonicalization that [`c14n`] documents. Everything else is refused by name
//! and never passed: other signature or digest algorithms, other
//! canonicalizations, extra or missing transforms, a detached or enveloping
//! signature, more than one signature or reference, encrypted assertions, CDATA,
//! comments and processing instructions. A key is never taken from a `KeyInfo`.
//! Only an RSA certificate is read; an EC or other `IdP` key is refused. An
//! assertion whose canonical form this gate does not reproduce fails its digest
//! and is refused, not passed.
//!
//! A node that expects one account says so with
//! [`Verifier::expecting_principal`]: the verified assertion's `NameID`, or its
//! `upn` attribute where the `NameID` is not one, must name the same account,
//! however either was spelled.
//!
//! What this gate leaves to the capabilities beside it — opening the proof,
//! base64, and how an account is spelled — it asks through [`Capabilities`].
//! What it takes on trust from other crates stands in [`outside`]; what is proved
//! of it as a whole, beyond the contracts of its functions, in [`laws`].

pub mod c14n;
pub mod certificate;
pub mod clock;
pub mod conditions;
pub mod error;
pub mod gate;
pub mod instant;
pub mod laws;
pub mod outside;
pub mod principal;
pub mod reader;
pub mod signature;
pub mod text;
pub mod xml;

pub use certificate::{IdpCertificate, RsaKey};
pub use clock::now;
pub use error::AuthenticateError;
pub use gate::{Capabilities, Presented, Replies, Verified, Verifier};
pub use xml::Element;
