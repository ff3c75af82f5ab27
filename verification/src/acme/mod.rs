//! Automatic certificate management, using ACME (RFC 8555).
//!
//! `store` says what is kept of accounts and certificates, `csr` makes keys and
//! signing requests, `solver` is how control of a domain is proven, with
//! `http01` and `dns01` as the two ways of doing it, `order` decides how one
//! order goes on, and `service` when a certificate is asked for.
use crate::text;
use crate::tls::CertificateError;
use vstd::prelude::*;

pub mod csr;
pub mod dns01;
pub mod http01;
pub mod order;
pub mod service;
pub mod solver;
pub mod store;

verus! {

/// What a certificate authority says of an order.
#[derive(Debug, Clone, Copy, PartialEq, Eq, Structural)]
pub enum OrderStatus {
    Pending,
    Ready,
    Processing,
    Valid,
    Invalid,
}

impl OrderStatus {
    /// The status in a word.
    pub open spec fn words(self) -> Seq<char> {
        match self {
            OrderStatus::Pending => "Pending"@,
            OrderStatus::Ready => "Ready"@,
            OrderStatus::Processing => "Processing"@,
            OrderStatus::Valid => "Valid"@,
            OrderStatus::Invalid => "Invalid"@,
        }
    }

    /// The status in a word.
    pub fn as_str(&self) -> (r: &'static str)
        ensures
            r@ == self.words(),
    {
        match self {
            OrderStatus::Pending => "Pending",
            OrderStatus::Ready => "Ready",
            OrderStatus::Processing => "Processing",
            OrderStatus::Valid => "Valid",
            OrderStatus::Invalid => "Invalid",
        }
    }
}

/// Something went wrong obtaining or storing a certificate.
#[derive(Debug, PartialEq, Eq)]
#[allow(inconsistent_fields)]
pub enum AcmeError {
    Protocol(String),
    Io { action: String, path: String, source: String },
    Malformed { path: String, source: String },
    Csr(String),
    Certificate(CertificateError),
    NoSuchChallenge { challenge: String, domain: String },
    ValidationFailed { domain: String, reason: Option<String> },
    OrderNotReady(OrderStatus),
    Solver { domain: String, reason: String },
}

impl AcmeError {
    /// The error in words.
    pub open spec fn words(self) -> Seq<char> {
        match self {
            AcmeError::Protocol(e) => "ACME protocol error: "@ + e@,
            AcmeError::Io { action, path, source } => "could not "@ + action@ + " "@ + path@ + ": "@
                + source@,
            AcmeError::Malformed { path, source } => "could not read "@ + path@ + ": "@ + source@,
            AcmeError::Csr(e) => "could not generate a certificate signing request: "@ + e@,
            AcmeError::Certificate(e) => "the certificate the CA issued is not usable: "@
                + e.words(),
            AcmeError::NoSuchChallenge { challenge, domain } => "the CA offered no '"@ + challenge@
                + "' challenge for '"@ + domain@ + "'"@,
            AcmeError::ValidationFailed { domain, reason } => "the CA could not validate '"@
                + domain@ + "'"@ + match reason {
                Some(r) => ": "@ + r@,
                None => Seq::empty(),
            },
            AcmeError::OrderNotReady(status) => "the order did not become ready (status: "@
                + status.words() + ")"@,
            AcmeError::Solver { domain, reason } =>
                "could not publish the challenge response for '"@ + domain@ + "': "@ + reason@,
        }
    }

    /// The error in words.
    pub fn to_text(&self) -> (r: String)
        ensures
            r@ == self.words(),
    {
        match self {
            AcmeError::Protocol(e) => text::concat2("ACME protocol error: ", e.as_str()),
            AcmeError::Io { action, path, source } => {
                let what = text::concat3("could not ", action.as_str(), " ");
                let of = text::concat3(what.as_str(), path.as_str(), ": ");
                text::concat2(of.as_str(), source.as_str())
            },
            AcmeError::Malformed { path, source } => {
                let of = text::concat3("could not read ", path.as_str(), ": ");
                text::concat2(of.as_str(), source.as_str())
            },
            AcmeError::Csr(e) => text::concat2(
                "could not generate a certificate signing request: ",
                e.as_str(),
            ),
            AcmeError::Certificate(e) => {
                let why = e.to_text();
                text::concat2("the certificate the CA issued is not usable: ", why.as_str())
            },
            AcmeError::NoSuchChallenge { challenge, domain } => {
                let what = text::concat3(
                    "the CA offered no '",
                    challenge.as_str(),
                    "' challenge for '",
                );
                text::concat3(what.as_str(), domain.as_str(), "'")
            },
            AcmeError::ValidationFailed { domain, reason } => {
                let what = text::concat3("the CA could not validate '", domain.as_str(), "'");
                match reason {
                    Some(r) => text::concat3(what.as_str(), ": ", r.as_str()),
                    None => {
                        assert(what@ + Seq::<char>::empty() == what@);
                        what
                    },
                }
            },
            AcmeError::OrderNotReady(status) => text::concat3(
                "the order did not become ready (status: ",
                status.as_str(),
                ")",
            ),
            AcmeError::Solver { domain, reason } => {
                let what = text::concat3(
                    "could not publish the challenge response for '",
                    domain.as_str(),
                    "': ",
                );
                text::concat2(what.as_str(), reason.as_str())
            },
        }
    }
}

} // verus!
