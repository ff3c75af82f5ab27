//! Downstream TLS certificate handling.
//!
//! The certificate to serve is picked per connection, from the name that the
//! client asks for. `store` holds certificates and does the name matching,
//! `backend` is the only module that talks to OpenSSL.

use crate::text;
use vstd::prelude::*;

pub mod backend;
pub mod resolver;
pub mod store;

verus! {

/// Something went wrong loading or serving a certificate.
#[derive(Debug, PartialEq, Eq)]
pub enum CertificateError {
    BadChain(String),
    EmptyChain,
    BadKey(String),
    KeyMismatch,
    Install(String),
    BadName(String),
}

impl CertificateError {
    /// The error in words.
    pub open spec fn words(self) -> Seq<char> {
        match self {
            CertificateError::BadChain(e) => "could not parse the certificate chain: "@ + e@,
            CertificateError::EmptyChain => "the certificate chain contained no certificates"@,
            CertificateError::BadKey(e) => "could not parse the private key: "@ + e@,
            CertificateError::KeyMismatch =>
                "the private key does not match the leaf certificate"@,
            CertificateError::Install(e) =>
                "could not install the certificate into the TLS handshake: "@ + e@,
            CertificateError::BadName(n) => bad_name_words(n@),
        }
    }

    /// The error in words.
    pub fn to_text(&self) -> (r: String)
        ensures
            r@ == self.words(),
    {
        match self {
            CertificateError::BadChain(e) => text::concat2(
                "could not parse the certificate chain: ",
                e.as_str(),
            ),
            CertificateError::EmptyChain =>
                "the certificate chain contained no certificates".to_owned(),
            CertificateError::BadKey(e) => text::concat2(
                "could not parse the private key: ",
                e.as_str(),
            ),
            CertificateError::KeyMismatch =>
                "the private key does not match the leaf certificate".to_owned(),
            CertificateError::Install(e) => text::concat2(
                "could not install the certificate into the TLS handshake: ",
                e.as_str(),
            ),
            CertificateError::BadName(n) => text::concat3("'", n.as_str(), "' is not a valid DNS name"),
        }
    }
}

/// What is said of a name that is not one.
pub open spec fn bad_name_words(name: Seq<char>) -> Seq<char> {
    "'"@ + name + "' is not a valid DNS name"@
}

} // verus!
