//! Proving control of a domain.
//!
//! `http-01` serves a token over plain HTTP on port 80. `dns-01` publishes a TXT
//! record, and is the only challenge that is accepted for a wildcard domain.
use crate::text;
use vstd::prelude::*;

verus! {

/// The value proving that the account key is held, as `instant_acme` makes it.
#[verifier::external_type_specification]
#[verifier::external_body]
pub struct ExKeyAuthorization(instant_acme::KeyAuthorization);

/// The text of a key authorization, as `KeyAuthorization::as_str` gives it.
pub uninterp spec fn authorization_text(k: instant_acme::KeyAuthorization) -> Seq<char>;

/// What `KeyAuthorization::dns_value` makes of the text of a key authorization.
pub uninterp spec fn txt_value(authorization: Seq<char>) -> Seq<char>;

/// `instant_acme::KeyAuthorization::as_str` gives the text that is served for
/// an `http-01` challenge.
#[verifier::external_body]
fn authorization(k: &instant_acme::KeyAuthorization) -> (r: &str)
    ensures
        r@ == authorization_text(*k),
{
    k.as_str()
}

/// `instant_acme::KeyAuthorization::dns_value` is the encoded digest of the
/// text, and so a function of the text.
#[verifier::external_body]
fn dns_value(k: &instant_acme::KeyAuthorization) -> (r: String)
    ensures
        r@ == txt_value(authorization_text(*k)),
{
    k.dns_value()
}

/// The URL prefix that a certificate authority fetches `http-01` challenges
/// from.
pub const HTTP01_PREFIX: &'static str = "/.well-known/acme-challenge/";

/// What a solver needs to know to answer one challenge.
pub struct Challenge {
    /// The domain being validated.
    ///
    /// This never carries a `*.` prefix, even for a wildcard order: the parent
    /// domain is what is validated.
    pub domain: String,
    /// The challenge token. For `http-01` this is the last path segment of the
    /// URL that is fetched.
    pub token: String,
    /// The value proving that the account key is held.
    pub key_authorization: instant_acme::KeyAuthorization,
}

/// The path that the response for `token` is served at.
pub fn challenge_path(token: &str) -> (r: String)
    ensures
        r@ == HTTP01_PREFIX@ + token@,
{
    text::concat2(HTTP01_PREFIX, token)
}

/// The name of the TXT record that validates `domain`.
pub fn record_name(domain: &str) -> (r: String)
    ensures
        r@ == "_acme-challenge."@ + domain@,
{
    text::concat2("_acme-challenge.", domain)
}

impl Challenge {
    /// The path an `http-01` challenge is served at.
    pub fn http_path(&self) -> (r: String)
        ensures
            r@ == HTTP01_PREFIX@ + self.token@,
    {
        challenge_path(self.token.as_str())
    }

    /// The text an `http-01` challenge is answered with.
    pub fn http_body(&self) -> (r: String)
        ensures
            r@ == authorization_text(self.key_authorization),
    {
        authorization(&self.key_authorization).to_owned()
    }

    /// The name of the TXT record a `dns-01` challenge is published at.
    pub fn dns_record_name(&self) -> (r: String)
        ensures
            r@ == "_acme-challenge."@ + self.domain@,
    {
        record_name(self.domain.as_str())
    }

    /// The value of that TXT record.
    pub fn dns_record_value(&self) -> (r: String)
        ensures
            r@ == txt_value(authorization_text(self.key_authorization)),
    {
        dns_value(&self.key_authorization)
    }
}

} // verus!
