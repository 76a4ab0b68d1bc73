# authenticate_saml

Authenticate by saml: verifies an assertion's signature and conditions against
the identity provider's certificate.

It verifies an enveloped XML signature inside the assertion — RSA-SHA256 over
the exclusively canonicalized `SignedInfo`, SHA-256 over the assertion without
its `Signature` — against the IdP certificate held as configuration, then
`NotBefore`, `NotOnOrAfter`, the audience, the issuer, the subject and, where
one is expected, the account. It covers a stated subset of exclusive
canonicalization and refuses everything outside it by name: other algorithms,
other transforms, a signature on the `Response` only, encrypted assertions,
comments, processing instructions and CDATA.

The library is written in Verus. Every function states in its contract what it
returns, refusals word for word, and is proved against that.

## Layout

- `src/xml.rs`, `src/reader.rs` — the tree, and the reader that builds it.
- `src/c14n.rs` — the canonical form.
- `src/signature.rs` — the signature profile.
- `src/certificate.rs` — the key of a certificate, in PEM or DER.
- `src/instant.rs`, `src/clock.rs` — times, and where the time comes from.
- `src/conditions.rs`, `src/principal.rs` — what an assertion is checked for.
- `src/gate.rs` — the authenticator.
- `src/laws/` — what is proved of these together: that a canonical form reads
  back, that it does not depend on what it should not depend on, which
  signatures are accepted and what they cover, and what a proven claim has met.
- `src/outside.rs` — what is taken on trust from other crates.
- `app/` — the authenticator wired to the capabilities it asks.
