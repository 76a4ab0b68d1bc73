[package]
name = "authenticate_saml"
version = "0.1.0"
edition = "2021"
publish = false

[dependencies]
base64 = "=0.22.1"
rsa = { version = "=0.9.10", features = ["sha2"] }
x509-parser = "=0.18.1"

[dev-dependencies]
rand = "=0.8.8"
