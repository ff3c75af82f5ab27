//! Generating the certificate keypair and signing request.
use crate::acme::AcmeError;
use crate::text;
use crate::tls::backend::{self, Verdict};
use crate::tls::store::{self as names, CertificateBundle, ServedName};
use vstd::prelude::*;

verus! {

/// The curve that keys are made on, by the number that OpenSSL has for P-256.
pub const P256: i32 = 415;

/// The version of a signing request.
pub const VERSION: i32 = 0;

/// The longest name that an extension can hold, in bytes.
pub const MAX_NAME_BYTES: usize = 0x7fff_fffe;

/// A curve, as OpenSSL holds it.
#[verifier::external_type_specification]
#[verifier::external_body]
pub struct ExEcGroup(openssl::ec::EcGroup);

/// The name of a subject, as OpenSSL holds it.
#[verifier::external_type_specification]
#[verifier::external_body]
pub struct ExX509Name(openssl::x509::X509Name);

/// Alternative names that are being collected, as OpenSSL's bindings hold them.
#[verifier::external_type_specification]
#[verifier::external_body]
pub struct ExSubjectAlternativeName(openssl::x509::extension::SubjectAlternativeName);

/// An extension, as OpenSSL holds it.
#[verifier::external_type_specification]
#[verifier::external_body]
pub struct ExX509Extension(openssl::x509::X509Extension);

/// A signing request that is being put together, as OpenSSL holds it.
#[verifier::external_type_specification]
#[verifier::external_body]
pub struct ExX509ReqBuilder(openssl::x509::X509ReqBuilder);

/// What a signing request says.
pub ghost struct Request {
    pub version: int,
    /// Is nothing said of the subject?
    pub nameless: bool,
    /// The public key that a certificate is asked for.
    pub key: Option<Seq<u8>>,
    /// The names that a certificate is asked for.
    pub names: Seq<Seq<char>>,
    /// The private key that the request was signed with.
    pub signer: Option<Seq<u8>>,
}

/// The number of the curve that an `EcGroup` holds.
pub uninterp spec fn curve_of(group: openssl::ec::EcGroup) -> i32;

/// The number of the curve that a private key is on.
pub uninterp spec fn key_curve(private: Seq<u8>) -> i32;

/// Has an `X509Name` no entries?
pub uninterp spec fn is_empty_name(name: openssl::x509::X509Name) -> bool;

/// The DNS names that a `SubjectAlternativeName` was given.
pub uninterp spec fn collected(
    san: openssl::x509::extension::SubjectAlternativeName,
) -> Seq<Seq<char>>;

/// The DNS names that an `X509Extension` with alternative names holds.
pub uninterp spec fn extension_names(extension: openssl::x509::X509Extension) -> Seq<Seq<char>>;

/// What an `X509ReqBuilder` holds.
pub uninterp spec fn request_of(builder: openssl::x509::X509ReqBuilder) -> Request;

/// What the request says that the bytes are the binary form of.
pub uninterp spec fn written_request(der: Seq<u8>) -> Request;

/// `openssl::ec::EcGroup::from_curve_name` gives the curve of that number.
#[verifier::external_body]
fn curve(number: i32) -> (r: Result<openssl::ec::EcGroup, String>)
    ensures
        r matches Ok(group) ==> curve_of(group) == number,
{
    openssl::ec::EcGroup::from_curve_name(openssl::nid::Nid::from_raw(number)).map_err(
        |e| e.to_string(),
    )
}

/// `openssl::ec::EcKey::generate` makes a key on a curve, which
/// `openssl::pkey::PKey::from_ec_key` takes in. Which key it is depends on
/// chance.
#[verifier::external_body]
fn fresh_key(group: &openssl::ec::EcGroup) -> (r: Result<
    openssl::pkey::PKey<openssl::pkey::Private>,
    String,
>)
    ensures
        r matches Ok(key) ==> key_curve(backend::private_half(key)) == curve_of(*group),
{
    openssl::ec::EcKey::generate(group).and_then(openssl::pkey::PKey::from_ec_key).map_err(
        |e| e.to_string(),
    )
}

/// `openssl::x509::X509ReqBuilder::new` starts a request for no key and no names.
#[verifier::external_body]
fn start_request() -> (r: Result<openssl::x509::X509ReqBuilder, String>)
    ensures
        r matches Ok(b) ==> request_of(b).key is None && request_of(b).names.len() == 0
            && request_of(b).signer is None,
{
    openssl::x509::X509ReqBuilder::new().map_err(|e| e.to_string())
}

/// `openssl::x509::X509ReqBuilder::set_version` sets the version and nothing
/// else.
#[verifier::external_body]
fn set_version(b: &mut openssl::x509::X509ReqBuilder, version: i32) -> (r: Result<(), String>)
    requires
        request_of(*old(b)).signer is None,
    ensures
        r is Ok ==> request_of(*final(b)) == (Request {
            version: version as int,
            ..request_of(*old(b))
        }),
{
    b.set_version(version).map_err(|e| e.to_string())
}

/// `openssl::x509::X509NameBuilder::new` starts a name without entries.
#[verifier::external_body]
fn empty_name() -> (r: Result<openssl::x509::X509Name, String>)
    ensures
        r matches Ok(name) ==> is_empty_name(name),
{
    openssl::x509::X509NameBuilder::new().map(|b| b.build()).map_err(|e| e.to_string())
}

/// `openssl::x509::X509ReqBuilder::set_subject_name` sets the subject and nothing
/// else.
#[verifier::external_body]
fn set_subject(
    b: &mut openssl::x509::X509ReqBuilder,
    name: &openssl::x509::X509Name,
) -> (r: Result<(), String>)
    requires
        request_of(*old(b)).signer is None,
    ensures
        r is Ok ==> request_of(*final(b)) == (Request {
            nameless: is_empty_name(*name),
            ..request_of(*old(b))
        }),
{
    b.set_subject_name(name).map_err(|e| e.to_string())
}

/// `openssl::x509::X509ReqBuilder::set_pubkey` sets the public key to the one that
/// belongs with the private key, and nothing else.
#[verifier::external_body]
fn set_key(
    b: &mut openssl::x509::X509ReqBuilder,
    key: &openssl::pkey::PKey<openssl::pkey::Private>,
) -> (r: Result<(), String>)
    requires
        request_of(*old(b)).signer is None,
    ensures
        r is Ok ==> request_of(*final(b)) == (Request {
            key: request_of(*final(b)).key,
            ..request_of(*old(b))
        }),
        r is Ok ==> request_of(*final(b)).key is Some && backend::keys_match(
            request_of(*final(b)).key->0,
            backend::private_half(*key),
        ),
{
    b.set_pubkey(key).map_err(|e| e.to_string())
}

/// `openssl::x509::extension::SubjectAlternativeName::new` starts with no names.
#[verifier::external_body]
fn no_names() -> (r: openssl::x509::extension::SubjectAlternativeName)
    ensures
        collected(r).len() == 0,
{
    openssl::x509::extension::SubjectAlternativeName::new()
}

/// `openssl::x509::extension::SubjectAlternativeName::dns` adds a DNS name to those
/// that are there.
#[verifier::external_body]
fn add_name(san: &mut openssl::x509::extension::SubjectAlternativeName, name: &str)
    ensures
        collected(*final(san)) == collected(*old(san)).push(name@),
{
    san.dns(name);
}

/// `openssl::x509::extension::SubjectAlternativeName::build` makes an extension of
/// the names. It goes by the names alone, though it asks for the request that they
/// are for, and it cannot take a name that is longer than an extension can hold.
#[verifier::external_body]
fn build_extension(
    san: &openssl::x509::extension::SubjectAlternativeName,
    b: &openssl::x509::X509ReqBuilder,
) -> (r: Result<openssl::x509::X509Extension, String>)
    requires
        names_fit(collected(*san)),
    ensures
        r matches Ok(extension) ==> extension_names(extension) == collected(*san),
{
    san.build(&b.x509v3_context(None)).map_err(|e| e.to_string())
}

/// What went wrong while an extension was added.
enum Adding {
    List(String),
    Extension(String),
}

/// `openssl::x509::X509ReqBuilder::add_extensions` adds a list of extensions, here
/// of the one, to a request that has none, and changes nothing else.
#[verifier::external_body]
fn add_extension(
    b: &mut openssl::x509::X509ReqBuilder,
    extension: openssl::x509::X509Extension,
) -> (r: Result<(), Adding>)
    requires
        request_of(*old(b)).signer is None,
        request_of(*old(b)).names.len() == 0,
    ensures
        r is Ok ==> request_of(*final(b)) == (Request {
            names: extension_names(extension),
            ..request_of(*old(b))
        }),
{
    let mut list = openssl::stack::Stack::new().map_err(|e| Adding::List(e.to_string()))?;
    list.push(extension).map_err(|e| Adding::List(e.to_string()))?;
    b.add_extensions(&list).map_err(|e| Adding::Extension(e.to_string()))
}

/// `openssl::x509::X509ReqBuilder::sign` signs a request, here over its SHA-256
/// digest, and changes nothing of what it says.
#[verifier::external_body]
fn sign(
    b: &mut openssl::x509::X509ReqBuilder,
    key: &openssl::pkey::PKey<openssl::pkey::Private>,
) -> (r: Result<(), String>)
    ensures
        r is Ok ==> request_of(*final(b)) == (Request {
            signer: Some(backend::private_half(*key)),
            ..request_of(*old(b))
        }),
{
    b.sign(key, openssl::hash::MessageDigest::sha256()).map_err(|e| e.to_string())
}

/// `openssl::pkey::PKeyRef::private_key_to_pem_pkcs8` writes a key out, not
/// encrypted, so that it can be read back.
#[verifier::external_body]
fn write_key(key: &openssl::pkey::PKey<openssl::pkey::Private>) -> (r: Result<Vec<u8>, String>)
    ensures
        r matches Ok(pem) ==> backend::pem_key(pem@) == Some(backend::private_half(*key)),
{
    key.private_key_to_pem_pkcs8().map_err(|e| e.to_string())
}

/// `openssl::x509::X509ReqBuilder::build` gives the request, and
/// `openssl::x509::X509ReqRef::to_der` writes it out as it is.
#[verifier::external_body]
fn write_request(b: openssl::x509::X509ReqBuilder) -> (r: Result<Vec<u8>, String>)
    ensures
        r matches Ok(der) ==> written_request(der@) == request_of(b),
{
    b.build().to_der().map_err(|e| e.to_string())
}

/// A freshly generated keypair and the request that goes with it.
#[derive(Debug)]
pub struct KeyAndCsr {
    /// The private key, to be stored alongside the issued certificate.
    pub key_pem: Vec<u8>,
    /// The certificate signing request, to be sent to the certificate authority.
    pub csr_der: Vec<u8>,
}

impl KeyAndCsr {
    /// The request asks for these names and for the key that comes with it, which is
    /// on P-256 and signed the request.
    pub open spec fn asks_for(self, names: Seq<Seq<char>>) -> bool {
        let said = written_request(self.csr_der@);
        let private = backend::pem_key(self.key_pem@)->0;
        &&& backend::pem_key(self.key_pem@) is Some
        &&& said.version == VERSION
        &&& said.nameless
        &&& said.names == names
        &&& said.key is Some && backend::keys_match(said.key->0, private)
        &&& said.signer == Some(private)
        &&& key_curve(private) == P256
    }
}

/// Is none of the names too long for an extension?
pub open spec fn names_fit(names: Seq<Seq<char>>) -> bool {
    forall|i: int| 0 <= i < names.len() ==> text::utf8(#[trigger] names[i]).len() <= MAX_NAME_BYTES
}

/// The words for what was being done when making a request failed.
pub open spec fn steps() -> Seq<Seq<char>> {
    seq![
        "selecting a curve"@,
        "generating a key"@,
        "starting a request"@,
        "setting the version"@,
        "building the subject"@,
        "setting the subject"@,
        "setting the public key"@,
        "building the SAN extension"@,
        "building the extension list"@,
        "adding extensions"@,
        "signing the request"@,
        "serializing the key"@,
        "serializing the request"@,
    ]
}

/// An account of what failed at one of the steps, and why.
pub open spec fn account(step: int, why: Seq<char>) -> Seq<char> {
    steps()[step] + ": "@ + why
}

/// Is this the account of a failure at one of the steps?
pub open spec fn names_step(message: Seq<char>) -> bool {
    exists|step: int, why: Seq<char>|
        0 <= step < steps().len() && message == #[trigger] account(step, why)
}

fn failed(step: &str, why: String, Ghost(n): Ghost<int>) -> (r: AcmeError)
    requires
        0 <= n < steps().len(),
        step@ == steps()[n],
    ensures
        r is Csr && names_step(r->Csr_0@),
{
    let message = text::concat3(step, ": ", why.as_str());
    assert(message@ == account(n, why@));
    AcmeError::Csr(message)
}

/// The names that a request is made for: each domain as it is written, in order.
pub fn requested_names(domains: &[ServedName]) -> (r: Vec<String>)
    ensures
        text::texts(r@) == names::written_names(names::name_views(domains@)),
{
    names::write_names(domains)
}

fn alternative_names(
    domains: &[ServedName],
) -> (r: openssl::x509::extension::SubjectAlternativeName)
    ensures
        collected(r) == names::written_names(names::name_views(domains@)),
{
    let wanted = requested_names(domains);
    let mut san = no_names();
    let mut i: usize = 0;
    while i < wanted.len()
        invariant
            i <= wanted@.len(),
            collected(san) == text::texts(wanted@).take(i as int),
        decreases wanted@.len() - i,
    {
        add_name(&mut san, wanted[i].as_str());
        assert(text::texts(wanted@).take(i + 1) == text::texts(wanted@).take(i as int).push(
            wanted@[i as int]@,
        ));
        i = i + 1;
    }
    assert(text::texts(wanted@).take(wanted@.len() as int) == text::texts(wanted@));
    san
}

fn unsigned_request(
    domains: &[ServedName],
    key: &openssl::pkey::PKey<openssl::pkey::Private>,
) -> (r: Result<openssl::x509::X509ReqBuilder, AcmeError>)
    requires
        names_fit(names::written_names(names::name_views(domains@))),
    ensures
        match r {
            Ok(b) => {
                let said = request_of(b);
                &&& said.version == VERSION
                &&& said.nameless
                &&& said.key is Some && backend::keys_match(
                    said.key->0,
                    backend::private_half(*key),
                )
                &&& said.names == names::written_names(names::name_views(domains@))
                &&& said.signer is None
            },
            Err(e) => e is Csr && names_step(e->Csr_0@),
        },
{
    let mut b = match start_request() {
        Ok(b) => b,
        Err(e) => return Err(failed("starting a request", e, Ghost(2))),
    };
    match set_version(&mut b, VERSION) {
        Ok(()) => {},
        Err(e) => return Err(failed("setting the version", e, Ghost(3))),
    }
    let subject = match empty_name() {
        Ok(subject) => subject,
        Err(e) => return Err(failed("building the subject", e, Ghost(4))),
    };
    match set_subject(&mut b, &subject) {
        Ok(()) => {},
        Err(e) => return Err(failed("setting the subject", e, Ghost(5))),
    }
    match set_key(&mut b, key) {
        Ok(()) => {},
        Err(e) => return Err(failed("setting the public key", e, Ghost(6))),
    }
    let san = alternative_names(domains);
    let extension = match build_extension(&san, &b) {
        Ok(extension) => extension,
        Err(e) => return Err(failed("building the SAN extension", e, Ghost(7))),
    };
    match add_extension(&mut b, extension) {
        Ok(()) => Ok(b),
        Err(Adding::List(e)) => Err(failed("building the extension list", e, Ghost(8))),
        Err(Adding::Extension(e)) => Err(failed("adding extensions", e, Ghost(9))),
    }
}

/// Generates a keypair and a request covering `domains`. The subject is left
/// empty: the names of a certificate come from its alternative names.
///
/// No request is made for no domains. A request that is made asks for each domain
/// as it is written, in order, and for the public half of the key that comes with
/// it, which is on P-256 and signed the request. Whether OpenSSL fails, and which
/// key it makes, is left unsaid: both depend on chance and on the machine.
pub fn generate(domains: &[ServedName]) -> (r: Result<KeyAndCsr, AcmeError>)
    requires
        names_fit(names::written_names(names::name_views(domains@))),
    ensures
        domains@.len() == 0 ==> (r matches Err(e) && e is Csr && e->Csr_0@
            == "no domains to request"@),
        match r {
            Ok(made) => made.asks_for(names::written_names(names::name_views(domains@))),
            Err(e) => e is Csr && (domains@.len() > 0 ==> names_step(e->Csr_0@)),
        },
{
    if domains.len() == 0 {
        return Err(AcmeError::Csr("no domains to request".to_owned()));
    }
    let group = match curve(P256) {
        Ok(group) => group,
        Err(e) => return Err(failed("selecting a curve", e, Ghost(0))),
    };
    let key = match fresh_key(&group) {
        Ok(key) => key,
        Err(e) => return Err(failed("generating a key", e, Ghost(1))),
    };
    let mut request = match unsigned_request(domains, &key) {
        Ok(request) => request,
        Err(e) => return Err(e),
    };
    match sign(&mut request, &key) {
        Ok(()) => {},
        Err(e) => return Err(failed("signing the request", e, Ghost(10))),
    }
    let key_pem = match write_key(&key) {
        Ok(pem) => pem,
        Err(e) => return Err(failed("serializing the key", e, Ghost(11))),
    };
    match write_request(request) {
        Ok(csr_der) => Ok(KeyAndCsr { key_pem, csr_der }),
        Err(e) => Err(failed("serializing the request", e, Ghost(12))),
    }
}

/// A certificate that is issued for the key that was asked for can be served with the
/// key that came with the request.
pub proof fn an_issued_certificate_fits_the_key(
    made: KeyAndCsr,
    names: Seq<Seq<char>>,
    bundle: CertificateBundle,
)
    requires
        bundle.key_pem@ == made.key_pem@,
    ensures
        ({
            let chain = backend::pem_certificates(bundle.chain_pem@);
            &&& made.asks_for(names)
            &&& chain is Some && chain->0.len() > 0
            &&& backend::certified_key(chain->0[0]) == written_request(made.csr_der@).key
        }) ==> bundle.verdict() == Verdict::Good,
{
}

/// A request asks for every domain, in its place and as it is written: a wildcard with `*.`
/// before its parent. It asks for the key that comes with it, which signed it.
pub proof fn a_request_names_every_domain(made: KeyAndCsr, domains: Seq<ServedName>, i: int)
    requires
        made.asks_for(names::written_names(names::name_views(domains))),
        0 <= i < domains.len(),
    ensures
        ({
            let said = written_request(made.csr_der@);
            &&& said.names.len() == domains.len()
            &&& said.names[i] == (match domains[i] {
                ServedName::Exact(name) => name@,
                ServedName::Wildcard(parent) => "*."@ + parent@,
            })
            &&& said.nameless
            &&& backend::pem_key(made.key_pem@) matches Some(private) && said.signer == Some(
                private,
            ) && (said.key matches Some(public) && backend::keys_match(public, private))
        }),
{
    names::every_name_is_written(domains, i);
}

} // verus!
