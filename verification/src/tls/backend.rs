//! The part of certificate handling that talks to OpenSSL.
use crate::tls::store::{self, CertificateBundle};
use crate::tls::CertificateError;
use vstd::prelude::*;

verus! {

/// A certificate, as OpenSSL holds it.
#[verifier::external_type_specification]
#[verifier::external_body]
pub struct ExX509(openssl::x509::X509);

/// A key, as OpenSSL holds it.
#[verifier::external_type_specification]
#[verifier::external_body]
#[verifier::reject_recursive_types(T)]
pub struct ExPKey<T>(openssl::pkey::PKey<T>);

/// Marks a key that has only its public half.
#[verifier::external_type_specification]
#[verifier::external_body]
pub struct ExPublic(openssl::pkey::Public);

/// Marks a key that has its private half.
#[verifier::external_type_specification]
#[verifier::external_body]
pub struct ExPrivate(openssl::pkey::Private);

/// The certificate that an `X509` holds, in its binary form.
pub uninterp spec fn certificate_of(cert: openssl::x509::X509) -> Seq<u8>;

/// The key that a `PKey` with only a public half holds, in its binary form.
pub uninterp spec fn public_half(key: openssl::pkey::PKey<openssl::pkey::Public>) -> Seq<u8>;

/// The key that a `PKey` with a private half holds, in its binary form.
pub uninterp spec fn private_half(key: openssl::pkey::PKey<openssl::pkey::Private>) -> Seq<u8>;

/// The longest PEM file that OpenSSL reads.
pub const MAX_PEM_BYTES: usize = 0x7fff_ffff;

/// The word that marks what is encrypted in a PEM file: `ENCRYPTED`.
pub open spec fn encryption_mark() -> Seq<u8> {
    seq![69u8, 78u8, 67u8, 82u8, 89u8, 80u8, 84u8, 69u8, 68u8]
}

/// Is nothing in a PEM file encrypted? For what is, OpenSSL asks for a passphrase.
pub open spec fn is_plain(pem: Seq<u8>) -> bool {
    forall|i: int|
        0 <= i <= pem.len() - encryption_mark().len() ==> #[trigger] pem.subrange(
            i,
            i + encryption_mark().len(),
        ) != encryption_mark()
}

/// The certificates that `X509::stack_from_pem` reads, or that it reads none.
pub uninterp spec fn pem_certificates(pem: Seq<u8>) -> Option<Seq<Seq<u8>>>;

/// The key that `PKey::private_key_from_pem` reads, or that it reads none.
pub uninterp spec fn pem_key(pem: Seq<u8>) -> Option<Seq<u8>>;

/// The public key that `X509::public_key` finds in a certificate.
pub uninterp spec fn certified_key(cert: Seq<u8>) -> Option<Seq<u8>>;

/// Does `PKeyRef::public_eq` find that a public key and a private key belong
/// together?
pub uninterp spec fn keys_match(public: Seq<u8>, private: Seq<u8>) -> bool;

/// The alternative names that `X509::subject_alt_names` finds in a certificate,
/// where it has any: the text of each that is a DNS name, and `None` for each
/// that is something else.
pub uninterp spec fn alternative_names(cert: Seq<u8>) -> Option<Seq<Option<Seq<char>>>>;

/// The days from a time, in seconds since the Unix epoch, to the end of a certificate, as
/// `Asn1Time::from_unix` and `Asn1TimeRef::diff` count them, where they can.
pub uninterp spec fn days_to_end(cert: Seq<u8>, now: u64) -> Option<i32>;

/// What a list of certificates holds.
pub open spec fn certificates(chain: Seq<openssl::x509::X509>) -> Seq<Seq<u8>> {
    chain.map_values(|c: openssl::x509::X509| certificate_of(c))
}

/// What a list of names holds.
pub open spec fn name_texts(names: Seq<Option<String>>) -> Seq<Option<Seq<char>>> {
    names.map_values(
        |n: Option<String>|
            match n {
                Some(s) => Some(s@),
                None => None,
            },
    )
}

/// `openssl::x509::X509::stack_from_pem` reads the certificates of a PEM file, in
/// order, going by its bytes alone where none of them is encrypted. Nothing is said
/// of the words of an error: they hold whatever OpenSSL had noted down.
#[verifier::external_body]
fn read_chain(pem: &Vec<u8>) -> (r: Result<Vec<openssl::x509::X509>, String>)
    requires
        pem@.len() <= MAX_PEM_BYTES,
    ensures
        is_plain(pem@) ==> match r {
            Ok(chain) => pem_certificates(pem@) == Some(certificates(chain@)),
            Err(_) => pem_certificates(pem@) is None,
        },
{
    openssl::x509::X509::stack_from_pem(pem).map_err(|e| e.to_string())
}

/// `openssl::pkey::PKey::private_key_from_pem` reads the private key of a PEM file,
/// going by its bytes alone where it is not encrypted. Nothing is said of a key that
/// is encrypted: which key comes of it, if any, depends on the passphrase that
/// OpenSSL is given. Nor of the words of an error.
#[verifier::external_body]
fn read_key(pem: &Vec<u8>) -> (r: Result<openssl::pkey::PKey<openssl::pkey::Private>, String>)
    requires
        pem@.len() <= MAX_PEM_BYTES,
    ensures
        is_plain(pem@) ==> match r {
            Ok(key) => pem_key(pem@) == Some(private_half(key)),
            Err(_) => pem_key(pem@) is None,
        },
{
    openssl::pkey::PKey::private_key_from_pem(pem).map_err(|e| e.to_string())
}

/// `openssl::x509::X509Ref::public_key` takes the public key out of a
/// certificate, going by the certificate alone.
#[verifier::external_body]
fn key_in(cert: &openssl::x509::X509) -> (r: Result<
    openssl::pkey::PKey<openssl::pkey::Public>,
    String,
>)
    ensures
        match r {
            Ok(key) => certified_key(certificate_of(*cert)) == Some(public_half(key)),
            Err(_) => certified_key(certificate_of(*cert)) is None,
        },
{
    cert.public_key().map_err(|e| e.to_string())
}

/// `openssl::pkey::PKeyRef::public_eq` compares the public halves of two keys.
#[verifier::external_body]
fn belongs(
    public: &openssl::pkey::PKey<openssl::pkey::Public>,
    private: &openssl::pkey::PKey<openssl::pkey::Private>,
) -> (r: bool)
    ensures
        r == keys_match(public_half(*public), private_half(*private)),
{
    public.public_eq(private)
}

/// `openssl::x509::X509Ref::subject_alt_names` lists the alternative names of a
/// certificate, going by the certificate alone.
#[verifier::external_body]
fn names_in(cert: &openssl::x509::X509) -> (r: Option<Vec<Option<String>>>)
    ensures
        match r {
            Some(names) => alternative_names(certificate_of(*cert)) == Some(name_texts(names@)),
            None => alternative_names(certificate_of(*cert)) is None,
        },
{
    cert.subject_alt_names().map(
        |names| names.iter().map(|n| n.dnsname().map(|s| s.to_string())).collect(),
    )
}

/// The days from `now` to the end of a certificate, as
/// `openssl::asn1::Asn1TimeRef::diff` counts them from
/// `openssl::asn1::Asn1Time::from_unix`, going by the certificate and the time alone.
/// OpenSSL holds a time as a signed number. Nothing is said of the words of an error.
#[verifier::external_body]
fn days_left(cert: &openssl::x509::X509, now: u64) -> (r: Result<i32, String>)
    requires
        now <= i64::MAX,
    ensures
        match r {
            Ok(days) => days_to_end(certificate_of(*cert), now) == Some(days),
            Err(_) => days_to_end(certificate_of(*cert), now) is None,
        },
{
    match openssl::asn1::Asn1Time::from_unix(now as i64) {
        Ok(now) => now.diff(cert.not_after()).map(|d| d.days).map_err(|e| e.to_string()),
        Err(e) => Err(e.to_string()),
    }
}

/// A certificate chain and key, in the form that OpenSSL wants. Parsing happens
/// once, when the certificate is loaded.
pub struct ParsedCertificate {
    pub leaf: openssl::x509::X509,
    /// Intermediates, in the order they appeared in the chain.
    pub intermediates: Vec<openssl::x509::X509>,
    pub key: openssl::pkey::PKey<openssl::pkey::Private>,
}

/// What there is to say of a chain and a key.
pub ghost enum Verdict {
    /// They belong together.
    Good,
    /// The chain cannot be read, or the key in its first certificate cannot.
    BadChain,
    /// There is no certificate in the chain.
    EmptyChain,
    /// The key cannot be read.
    BadKey,
    /// The key is not the one that the first certificate is for.
    KeyMismatch,
}

/// What there is to say of a chain and a key, where they can be read.
pub open spec fn verdict_on(chain: Option<Seq<Seq<u8>>>, key: Option<Seq<u8>>) -> Verdict {
    match chain {
        None => Verdict::BadChain,
        Some(chain) => if chain.len() == 0 {
            Verdict::EmptyChain
        } else {
            match key {
                None => Verdict::BadKey,
                Some(private) => match certified_key(chain[0]) {
                    None => Verdict::BadChain,
                    Some(public) => if keys_match(public, private) {
                        Verdict::Good
                    } else {
                        Verdict::KeyMismatch
                    },
                },
            }
        },
    }
}

/// The verdict that an error stands for. Parsing a chain and a key gives no other
/// errors.
pub open spec fn verdict_of(e: CertificateError) -> Option<Verdict> {
    match e {
        CertificateError::BadChain(_) => Some(Verdict::BadChain),
        CertificateError::EmptyChain => Some(Verdict::EmptyChain),
        CertificateError::BadKey(_) => Some(Verdict::BadKey),
        CertificateError::KeyMismatch => Some(Verdict::KeyMismatch),
        _ => None,
    }
}

/// The DNS names among the alternative names, in the form used for comparisons.
pub open spec fn dns_names_among(names: Seq<Option<Seq<char>>>) -> Seq<Seq<char>>
    decreases names.len(),
{
    if names.len() == 0 {
        Seq::empty()
    } else {
        let front = dns_names_among(names.drop_last());
        match names.last() {
            Some(n) => front.push(store::canonical_name(n)),
            None => front,
        }
    }
}

/// The DNS names that a certificate is valid for.
pub open spec fn valid_names(cert: Seq<u8>) -> Seq<Seq<char>> {
    match alternative_names(cert) {
        Some(names) => dns_names_among(names),
        None => Seq::empty(),
    }
}

impl ParsedCertificate {
    /// The certificates are those of the chain, in order.
    pub open spec fn holds(self, chain: Seq<Seq<u8>>) -> bool {
        chain.len() > 0 && certificate_of(self.leaf) == chain[0] && certificates(
            self.intermediates@,
        ) == chain.skip(1)
    }

    /// The key is the one that the first certificate is for.
    pub open spec fn belongs_together(self) -> bool {
        certified_key(certificate_of(self.leaf)) matches Some(public) && keys_match(
            public,
            private_half(self.key),
        )
    }

    /// Puts a chain and what came of reading a key together, where they belong
    /// together. During a handshake it would be too late to find that they do
    /// not.
    pub fn pair(
        chain: Vec<openssl::x509::X509>,
        key: Result<openssl::pkey::PKey<openssl::pkey::Private>, String>,
    ) -> (r: Result<Self, CertificateError>)
        ensures
            ({
                let all = certificates(chain@);
                if all.len() == 0 {
                    r == Err::<Self, CertificateError>(CertificateError::EmptyChain)
                } else {
                    match key {
                        Err(e) => r == Err::<Self, CertificateError>(CertificateError::BadKey(e)),
                        Ok(k) => match certified_key(all[0]) {
                            None => r matches Err(e) && e is BadChain,
                            Some(public) => if keys_match(public, private_half(k)) {
                                r matches Ok(p) && p.holds(all) && p.key == k
                            } else {
                                r == Err::<Self, CertificateError>(CertificateError::KeyMismatch)
                            },
                        },
                    }
                }
            }),
    {
        let mut rest = chain;
        if rest.len() == 0 {
            return Err(CertificateError::EmptyChain);
        }
        let leaf = rest.remove(0);
        assert(rest@ == chain@.skip(1));
        assert(certificates(rest@) == certificates(chain@).skip(1));
        let key = match key {
            Ok(k) => k,
            Err(e) => return Err(CertificateError::BadKey(e)),
        };
        let public = match key_in(&leaf) {
            Ok(k) => k,
            Err(e) => return Err(CertificateError::BadChain(e)),
        };
        if !belongs(&public, &key) {
            return Err(CertificateError::KeyMismatch);
        }
        Ok(ParsedCertificate { leaf, intermediates: rest, key })
    }

    /// Parses and validates a certificate bundle.
    ///
    /// What comes of a bundle that is encrypted depends on the passphrase that is
    /// given; what is returned belongs together all the same.
    pub fn from_bundle(bundle: &CertificateBundle) -> (r: Result<Self, CertificateError>)
        requires
            bundle.fits(),
        ensures
            match r {
                Ok(p) => p.belongs_together(),
                Err(e) => verdict_of(e) is Some,
            },
            bundle.is_plain() ==> match r {
                Ok(p) => bundle.verdict() == Verdict::Good && p.holds(
                    pem_certificates(bundle.chain_pem@)->0,
                ) && pem_key(bundle.key_pem@) == Some(private_half(p.key)),
                Err(e) => verdict_of(e) == Some(bundle.verdict()),
            },
    {
        let chain = match read_chain(&bundle.chain_pem) {
            Ok(chain) => chain,
            Err(e) => return Err(CertificateError::BadChain(e)),
        };
        if chain.len() == 0 {
            return Err(CertificateError::EmptyChain);
        }
        let key = read_key(&bundle.key_pem);
        ParsedCertificate::pair(chain, key)
    }

    /// The DNS names among the alternative names of the certificate: what it is
    /// valid for, as opposed to what was asked for.
    pub fn dns_names(&self) -> (r: Vec<String>)
        ensures
            crate::text::texts(r@) == valid_names(certificate_of(self.leaf)),
    {
        let mut out: Vec<String> = Vec::new();
        let names = match names_in(&self.leaf) {
            Some(names) => names,
            None => {
                assert(crate::text::texts(out@) == Seq::<Seq<char>>::empty());
                return out;
            },
        };
        let ghost all = name_texts(names@);
        let mut i: usize = 0;
        assert(crate::text::texts(out@) == Seq::<Seq<char>>::empty());
        while i < names.len()
            invariant
                i <= names@.len(),
                all == name_texts(names@),
                crate::text::texts(out@) == dns_names_among(all.take(i as int)),
            decreases names@.len() - i,
        {
            let ghost before = out@;
            assert(all.take(i + 1).drop_last() == all.take(i as int));
            assert(all.take(i + 1).last() == all[i as int]);
            match &names[i] {
                Some(n) => {
                    let name = store::normalize(n.as_str());
                    out.push(name);
                    assert(crate::text::texts(out@) == crate::text::texts(before).push(name@));
                },
                None => {},
            }
            i = i + 1;
        }
        assert(all.take(all.len() as int) == all);
        out
    }

    /// How many days there are from `now`, in seconds since the Unix epoch, until the
    /// certificate expires, which is negative once it has.
    pub fn days_until_expiry(&self, now: u64) -> (r: Result<i32, CertificateError>)
        requires
            now <= i64::MAX,
        ensures
            match r {
                Ok(days) => days_to_end(certificate_of(self.leaf), now) == Some(days),
                Err(e) => e is BadChain && days_to_end(certificate_of(self.leaf), now) is None,
            },
    {
        match days_left(&self.leaf, now) {
            Ok(days) => Ok(days),
            Err(e) => Err(CertificateError::BadChain(e)),
        }
    }
}

/// The names that a certificate is valid for are all the DNS names among its alternative
/// names, in order, each in the form used for comparisons.
pub proof fn every_alternative_name_counts(names: Seq<Option<Seq<char>>>, i: int)
    ensures
        dns_names_among(names) == names.filter_map(
            |n: Option<Seq<char>>|
                match n {
                    Some(s) => Some(store::canonical_name(s)),
                    None => None,
                },
        ),
        0 <= i < names.len() && names[i] is Some ==> dns_names_among(names).contains(
            store::canonical_name(names[i]->0),
        ),
    decreases names.len(),
{
    if names.len() > 0 {
        let front = names.drop_last();
        every_alternative_name_counts(front, i);
        if 0 <= i < names.len() && names[i] is Some {
            let name = store::canonical_name(names[i]->0);
            if i < front.len() {
                assert(front[i] == names[i]);
                let k = dns_names_among(front).index_of(name);
                assert(dns_names_among(names)[k] == name);
            } else {
                assert(dns_names_among(names)[dns_names_among(front).len() as int] == name);
            }
        }
    }
}

/// Of a chain, the first certificate is the one that is served, and all the others go with
/// it, in their order.
pub proof fn the_whole_chain_is_served(p: ParsedCertificate, chain: Seq<Seq<u8>>, i: int)
    requires
        p.holds(chain),
        0 < i < chain.len(),
    ensures
        certificate_of(p.leaf) == chain[0],
        p.intermediates@.len() == chain.len() - 1,
        certificate_of(p.intermediates@[i - 1]) == chain[i],
{
    assert(certificates(p.intermediates@).len() == p.intermediates@.len());
    assert(certificates(p.intermediates@)[i - 1] == certificate_of(p.intermediates@[i - 1]));
}

/// A chain and a key are good if and only if both can be read, there is a certificate, and
/// the key is the one that the first certificate is for.
pub proof fn only_a_matching_pair_is_good(chain: Option<Seq<Seq<u8>>>, key: Option<Seq<u8>>)
    ensures
        verdict_on(chain, key) == Verdict::Good <==> chain is Some && chain->0.len() > 0
            && key is Some && certified_key(chain->0[0]) is Some && keys_match(
            certified_key(chain->0[0])->0,
            key->0,
        ),
        chain is Some && chain->0.len() == 0 ==> verdict_on(chain, key) == Verdict::EmptyChain,
        chain is None ==> verdict_on(chain, key) == Verdict::BadChain,
        chain is Some && chain->0.len() > 0 && key is None ==> verdict_on(chain, key)
            == Verdict::BadKey,
{
}

/// A certificate is valid for each of its DNS names, in the form used for comparisons, and
/// for nothing else.
pub proof fn a_certificate_is_valid_for_its_names(cert: Seq<u8>, name: Seq<char>, i: int)
    ensures
        alternative_names(cert) matches Some(names) && 0 <= i < names.len() && names[i] is Some
            ==> valid_names(cert).contains(
            store::canonical_name(alternative_names(cert)->0[i]->0),
        ),
        valid_names(cert).contains(name) ==> alternative_names(cert) is Some && exists|k: int|
            0 <= k < alternative_names(cert)->0.len() && ((
            #[trigger] alternative_names(cert)->0[k]) matches Some(n) && store::canonical_name(n)
                == name),
{
    if alternative_names(cert) is Some {
        let names = alternative_names(cert)->0;
        every_alternative_name_counts(names, i);
        if valid_names(cert).contains(name) {
            lemma_name_is_from(names, name);
        }
    }
}

proof fn lemma_name_is_from(names: Seq<Option<Seq<char>>>, name: Seq<char>)
    requires
        dns_names_among(names).contains(name),
    ensures
        exists|k: int|
            0 <= k < names.len() && ((#[trigger] names[k]) matches Some(n)
                && store::canonical_name(n) == name),
    decreases names.len(),
{
    if names.len() > 0 {
        let front = names.drop_last();
        let at = dns_names_among(names).index_of(name);
        if at < dns_names_among(front).len() {
            assert(dns_names_among(front)[at] == name);
            lemma_name_is_from(front, name);
            let k = choose|k: int|
                0 <= k < front.len() && ((#[trigger] front[k]) matches Some(n)
                    && store::canonical_name(n) == name);
            assert(names[k] == front[k]);
        } else {
            assert(names[names.len() - 1] is Some);
        }
    }
}

/// Each name of a list is read as it is.
pub proof fn every_name_is_read_as_it_is(names: Seq<Option<String>>, i: int)
    requires
        0 <= i < names.len(),
    ensures
        name_texts(names).len() == names.len(),
        name_texts(names)[i] == (match names[i] {
            Some(s) => Some(s@),
            None => None,
        }),
{
}

} // verus!
