//! Storage of certificates, and finding the one for a name.
use crate::text;
use crate::text_map::TextMap;
use crate::tls::backend::{self, ParsedCertificate, Verdict};
use crate::tls::CertificateError;
use std::sync::Arc;
use vstd::prelude::*;

verus! {

/// A certificate chain and its private key, as stored on disk.
#[derive(Clone, Debug, PartialEq, Eq)]
pub struct CertificateBundle {
    /// PEM encoded certificate chain, leaf certificate first.
    pub chain_pem: Vec<u8>,
    /// PEM encoded private key.
    pub key_pem: Vec<u8>,
}

impl CertificateBundle {
    /// Is neither file longer than can be read?
    pub open spec fn fits(self) -> bool {
        self.chain_pem@.len() <= backend::MAX_PEM_BYTES && self.key_pem@.len()
            <= backend::MAX_PEM_BYTES
    }

    /// Is nothing in the files encrypted?
    pub open spec fn is_plain(self) -> bool {
        backend::is_plain(self.chain_pem@) && backend::is_plain(self.key_pem@)
    }

    /// What there is to say of the chain and the key, where they are not encrypted.
    pub open spec fn verdict(self) -> Verdict {
        backend::verdict_on(
            backend::pem_certificates(self.chain_pem@),
            backend::pem_key(self.key_pem@),
        )
    }
}

/// A DNS name that a certificate can be served for.
///
/// Names are held lowercased and without any trailing dot, so that comparison
/// against the name a client sends is a plain string comparison.
#[derive(Clone, Debug, PartialEq, Eq)]
pub enum ServedName {
    /// An exact name, such as `example.com`.
    Exact(String),
    /// A wildcard name, such as `*.example.com`. The contained string is the
    /// parent domain, without the leading `*.`.
    Wildcard(String),
}

/// A name in the form used for comparisons: no white space around it, no
/// trailing dots, in lower case.
pub open spec fn canonical_name(s: Seq<char>) -> Seq<char> {
    text::lower_text(text::trim_end(text::trimmed(s), '.'))
}

/// A letter, a digit or a hyphen.
pub open spec fn is_label_char(c: char) -> bool {
    'a' <= c <= 'z' || 'A' <= c <= 'Z' || '0' <= c <= '9' || c == '-'
}

/// One label of a plausible DNS name.
pub open spec fn is_label(s: Seq<char>) -> bool {
    &&& 0 < s.len() <= 63
    &&& s[0] != '-'
    &&& s.last() != '-'
    &&& forall|i: int| 0 <= i < s.len() ==> is_label_char(#[trigger] s[i])
}

/// A name that could be a DNS name. A sanity check, not a full validation: the
/// certificate authority is the real authority on whether a name can be issued
/// for.
pub open spec fn plausible(s: Seq<char>) -> bool {
    &&& 0 < s.len() <= 253
    &&& forall|i: int|
        0 <= i < text::split(s, '.').len() ==> is_label(#[trigger] text::split(s, '.')[i])
}

/// The name that a text spells: whether it is a wildcard, and the name or the
/// parent domain.
pub open spec fn served(s: Seq<char>) -> Option<(bool, Seq<char>)> {
    let name = canonical_name(s);
    let wildcard = text::has_prefix(name, "*."@);
    let parent = if wildcard {
        name.skip(2)
    } else {
        name
    };
    if !plausible(parent) || wildcard && !parent.contains('.') {
        None
    } else {
        Some((wildcard, parent))
    }
}

/// Does `sni` sit exactly one label below `parent`?
pub open spec fn one_label_below(parent: Seq<char>, sni: Seq<char>) -> bool {
    exists|label: Seq<char>|
        label.len() > 0 && !label.contains('.') && sni == #[trigger] (label + seq!['.'] + parent)
}

impl View for ServedName {
    type V = (bool, Seq<char>);

    open spec fn view(&self) -> (bool, Seq<char>) {
        match self {
            ServedName::Exact(name) => (false, name@),
            ServedName::Wildcard(parent) => (true, parent@),
        }
    }
}

/// Puts a name into the form used for comparisons.
///
/// DNS names are case insensitive, and may be written with a trailing dot to
/// mark them as fully qualified.
pub fn normalize(name: &str) -> (r: String)
    ensures
        r@ == canonical_name(name@),
{
    let trimmed = text::trim(name);
    let bare = text::trim_end_matches(trimmed.as_str(), '.');
    text::to_lower_text(bare.as_str())
}

fn is_good_label(label: &str) -> (r: bool)
    ensures
        r == is_label(label@),
{
    let chars = text::chars_of(label);
    if chars.len() == 0 || chars.len() > 63 || chars[0] == '-' || chars[chars.len() - 1] == '-' {
        return false;
    }
    let mut i: usize = 0;
    while i < chars.len()
        invariant
            i <= chars.len(),
            chars@ == label@,
            forall|k: int| 0 <= k < i ==> is_label_char(#[trigger] label@[k]),
        decreases chars.len() - i,
    {
        let c = chars[i];
        if !(('a' <= c && c <= 'z') || ('A' <= c && c <= 'Z') || ('0' <= c && c <= '9') || c
            == '-') {
            assert(!is_label_char(label@[i as int]));
            return false;
        }
        i = i + 1;
    }
    true
}

/// A cheap check that a name could be a DNS name.
pub fn is_plausible_dns_name(name: &str) -> (r: bool)
    ensures
        r == plausible(name@),
{
    let chars = text::chars_of(name);
    if chars.len() == 0 || chars.len() > 253 {
        return false;
    }
    let labels = text::split_text(name, '.');
    let ghost all = text::split(name@, '.');
    assert(all == text::texts(labels@));
    let mut i: usize = 0;
    while i < labels.len()
        invariant
            i <= labels.len(),
            all == text::texts(labels@),
            all == text::split(name@, '.'),
            forall|k: int| 0 <= k < i ==> is_label(#[trigger] all[k]),
        decreases labels.len() - i,
    {
        if !is_good_label(labels[i].as_str()) {
            assert(!is_label(all[i as int]));
            return false;
        }
        i = i + 1;
    }
    true
}

/// Does `sni` sit exactly one label below `parent`?
///
/// A wildcard matches a single label only: `*.example.com` covers
/// `www.example.com`, but neither `example.com` itself nor `a.b.example.com`.
pub fn is_wildcard_child(parent: &str, sni: &str) -> (r: bool)
    ensures
        r == one_label_below(parent@, sni@),
{
    let up = text::chars_of(parent);
    let chars = text::chars_of(sni);
    if chars.len() < up.len() || chars.len() - up.len() < 2 {
        return false;
    }
    let n: usize = chars.len() - up.len();
    if chars[n - 1] != '.' || !text::matches_at(&chars, n, &up) {
        assert forall|label: Seq<char>| label.len() > 0 && !label.contains('.') implies sni@
            != #[trigger] (label + seq!['.'] + parent@) by {
            let whole = label + seq!['.'] + parent@;
            if sni@ == whole {
                assert(whole[n - 1] == '.');
                assert(whole.subrange(n as int, n + up@.len()) == parent@);
            }
        }
        return false;
    }
    let label = text::substring(&chars, 0, n - 1);
    let dotted = text::has_char(label.as_str(), '.');
    proof {
        assert(sni@ == label@ + seq!['.'] + parent@);
        if dotted {
            assert forall|other: Seq<char>| other.len() > 0 && !other.contains('.') implies sni@
                != #[trigger] (other + seq!['.'] + parent@) by {
                let whole = other + seq!['.'] + parent@;
                if sni@ == whole {
                    assert(other =~= whole.subrange(0, n - 1));
                    assert(label@ =~= sni@.subrange(0, n - 1));
                }
            }
        }
    }
    !dotted
}

/// A name as it is written: a wildcard has `*.` before its parent.
pub open spec fn written_name(name: (bool, Seq<char>)) -> Seq<char> {
    if name.0 {
        "*."@ + name.1
    } else {
        name.1
    }
}

/// The names of a list.
pub open spec fn name_views(names: Seq<ServedName>) -> Seq<(bool, Seq<char>)> {
    names.map_values(|n: ServedName| n@)
}

/// The names of a list, as they are written.
pub open spec fn written_names(names: Seq<(bool, Seq<char>)>) -> Seq<Seq<char>> {
    names.map_values(|n: (bool, Seq<char>)| written_name(n))
}

/// Writes out each of the names, in order.
pub fn write_names(names: &[ServedName]) -> (r: Vec<String>)
    ensures
        text::texts(r@) == written_names(name_views(names@)),
{
    let mut out: Vec<String> = Vec::new();
    let ghost all = written_names(name_views(names@));
    let mut i: usize = 0;
    while i < names.len()
        invariant
            i <= names@.len(),
            all == written_names(name_views(names@)),
            text::texts(out@) == all.take(i as int),
        decreases names@.len() - i,
    {
        let ghost before = out@;
        let name = names[i].to_text();
        out.push(name);
        assert(text::texts(out@) == text::texts(before).push(name@));
        assert(all.take(i + 1) == all.take(i as int).push(all[i as int]));
        i = i + 1;
    }
    assert(all.take(all.len() as int) == all);
    out
}

impl ServedName {
    /// Reads a name as it was written in the configuration file.
    pub fn parse(name: &str) -> (r: Result<Self, CertificateError>)
        ensures
            match r {
                Ok(n) => served(name@) == Some(n@),
                Err(e) => served(name@) is None && e is BadName && e->BadName_0@ == name@,
            },
    {
        let normalized = normalize(name);
        let wildcard = text::starts_with(normalized.as_str(), "*.");
        let parent = if wildcard {
            let chars = text::chars_of(normalized.as_str());
            proof {
                reveal_strlit("*.");
            }
            text::substring(&chars, 2, chars.len())
        } else {
            normalized
        };
        if !is_plausible_dns_name(parent.as_str()) {
            return Err(CertificateError::BadName(name.to_owned()));
        }
        // A wildcard needs something to be a wildcard *of*: `*.com` is far more
        // likely to be a typo than an intent.
        if wildcard && !text::has_char(parent.as_str(), '.') {
            return Err(CertificateError::BadName(name.to_owned()));
        }
        if wildcard {
            Ok(ServedName::Wildcard(parent))
        } else {
            Ok(ServedName::Exact(parent))
        }
    }

    /// The names that this one covers, among names in the form used for
    /// comparisons.
    pub open spec fn covers(self, sni: Seq<char>) -> bool {
        match self {
            ServedName::Exact(name) => name@ == sni,
            ServedName::Wildcard(parent) => one_label_below(parent@, sni),
        }
    }

    /// Does this name cover `sni`? `sni` is expected to be normalized already.
    pub fn matches(&self, sni: &str) -> (r: bool)
        ensures
            r == self.covers(sni@),
    {
        match self {
            ServedName::Exact(name) => text::same_text(name.as_str(), sni),
            ServedName::Wildcard(parent) => is_wildcard_child(parent.as_str(), sni),
        }
    }

    /// Is this a wildcard name? Wildcards can only be issued against a `dns-01`
    /// challenge.
    pub fn is_wildcard(&self) -> (r: bool)
        ensures
            r == self@.0,
    {
        match self {
            ServedName::Wildcard(_) => true,
            ServedName::Exact(_) => false,
        }
    }

    /// The name as it is written.
    pub open spec fn written(self) -> Seq<char> {
        written_name(self@)
    }

    /// The name as it is written.
    pub fn to_text(&self) -> (r: String)
        ensures
            r@ == self.written(),
    {
        match self {
            ServedName::Exact(name) => name.clone(),
            ServedName::Wildcard(parent) => text::concat2("*.", parent.as_str()),
        }
    }
}

/// A certificate that has been parsed and is ready to serve.
pub struct Certificate {
    pub bundle: CertificateBundle,
    pub parsed: ParsedCertificate,
}

impl Certificate {
    /// The certificate and the key belong together, and where the bundle is not
    /// encrypted they are those of the bundle.
    pub open spec fn wf(self) -> bool {
        &&& self.parsed.belongs_together()
        &&& self.bundle.is_plain() ==> self.bundle.verdict() == Verdict::Good && self.parsed.holds(
            backend::pem_certificates(self.bundle.chain_pem@)->0,
        ) && backend::pem_key(self.bundle.key_pem@) == Some(backend::private_half(self.parsed.key))
    }

    /// Parses and validates a certificate bundle: that the chain and the key can
    /// be read, and that they belong together.
    pub fn new(bundle: CertificateBundle) -> (r: Result<Self, CertificateError>)
        requires
            bundle.fits(),
        ensures
            match r {
                Ok(c) => c.bundle == bundle && c.wf(),
                Err(e) => backend::verdict_of(e) is Some && (bundle.is_plain()
                    ==> backend::verdict_of(e) == Some(bundle.verdict())),
            },
            bundle.is_plain() ==> r is Ok == (bundle.verdict() == Verdict::Good),
    {
        match ParsedCertificate::from_bundle(&bundle) {
            Ok(parsed) => Ok(Certificate { bundle, parsed }),
            Err(e) => Err(e),
        }
    }

    /// The certificate as it is stored.
    pub fn bundle(&self) -> (r: &CertificateBundle)
        ensures
            *r == self.bundle,
    {
        &self.bundle
    }

    /// The certificate as it is served.
    pub fn parsed(&self) -> (r: &ParsedCertificate)
        ensures
            *r == self.parsed,
    {
        &self.parsed
    }
}

/// The certificates that can be served at the moment.
///
/// Replacing a certificate is an insert: connections that are established keep
/// the certificate they have, and the next handshake picks up the new one.
pub struct CertStore {
    exact: TextMap<Arc<Certificate>>,
    /// Keyed by the parent domain, so `*.example.com` is stored as
    /// `example.com`.
    wildcard: TextMap<Arc<Certificate>>,
}

/// Certificates by name.
pub type ByName = Map<Seq<char>, Arc<Certificate>>;

/// Where the first dot of a name is.
pub open spec fn first_dot(name: Seq<char>) -> Option<int>
    decreases name.len(),
{
    if name.len() == 0 {
        None
    } else {
        match first_dot(name.drop_last()) {
            Some(i) => Some(i),
            None => if name.last() == '.' {
                Some(name.len() - 1)
            } else {
                None
            },
        }
    }
}

/// The certificate for a name: the one under the name itself, or else the one
/// under the wildcard of its parent. A name with nothing before its first dot is below
/// no parent.
pub open spec fn lookup(exact: ByName, wildcard: ByName, sni: Seq<char>) -> Option<
    Arc<Certificate>,
> {
    if exact.contains_key(sni) {
        Some(exact[sni])
    } else {
        match first_dot(sni) {
            Some(i) => if i > 0 && wildcard.contains_key(sni.skip(i + 1)) {
                Some(wildcard[sni.skip(i + 1)])
            } else {
                None
            },
            None => None,
        }
    }
}

/// The certificates by their exact names, once one has been registered under
/// some names.
pub open spec fn with_exact(exact: ByName, names: Seq<ServedName>, cert: Arc<Certificate>) -> ByName
    decreases names.len(),
{
    if names.len() == 0 {
        exact
    } else {
        let front = with_exact(exact, names.drop_last(), cert);
        match names.last() {
            ServedName::Exact(name) => front.insert(name@, cert),
            ServedName::Wildcard(_) => front,
        }
    }
}

/// The certificates by the parents of their wildcard names, once one has been
/// registered under some names.
pub open spec fn with_wildcard(
    wildcard: ByName,
    names: Seq<ServedName>,
    cert: Arc<Certificate>,
) -> ByName
    decreases names.len(),
{
    if names.len() == 0 {
        wildcard
    } else {
        let front = with_wildcard(wildcard, names.drop_last(), cert);
        match names.last() {
            ServedName::Exact(_) => front,
            ServedName::Wildcard(parent) => front.insert(parent@, cert),
        }
    }
}

fn dot_in(chars: &[char]) -> (r: Option<usize>)
    ensures
        match r {
            Some(i) => i < chars@.len() && first_dot(chars@) == Some(i as int),
            None => first_dot(chars@) is None,
        },
{
    let mut i: usize = 0;
    while i < chars.len()
        invariant
            i <= chars@.len(),
            first_dot(chars@.take(i as int)) is None,
        decreases chars@.len() - i,
    {
        assert(chars@.take(i + 1).drop_last() == chars@.take(i as int));
        if chars[i] == '.' {
            proof {
                lemma_first_dot_stays(chars@, i + 1);
            }
            return Some(i);
        }
        i = i + 1;
    }
    assert(chars@.take(chars@.len() as int) == chars@);
    None
}

proof fn lemma_first_dot_stays(name: Seq<char>, n: int)
    requires
        0 <= n <= name.len(),
        first_dot(name.take(n)) is Some,
    ensures
        first_dot(name) == first_dot(name.take(n)),
    decreases name.len() - n,
{
    if n < name.len() {
        assert(name.take(n + 1).drop_last() == name.take(n));
        lemma_first_dot_stays(name, n + 1);
    } else {
        assert(name.take(n) == name);
    }
}

impl CertStore {
    /// Every name has one certificate.
    pub closed spec fn wf(&self) -> bool {
        self.exact.wf() && self.wildcard.wf()
    }

    /// The certificates by their exact names.
    pub closed spec fn exact(&self) -> ByName {
        self.exact@
    }

    /// The certificates by the parents of their wildcard names.
    pub closed spec fn wildcard(&self) -> ByName {
        self.wildcard@
    }

    /// A store with no certificates.
    pub fn new() -> (r: Self)
        ensures
            r.wf(),
            r.exact() == ByName::empty(),
            r.wildcard() == ByName::empty(),
    {
        CertStore { exact: TextMap::new(), wildcard: TextMap::new() }
    }

    /// Registers `cert` under each of `names`, in place of any certificate that
    /// is registered under one of them.
    pub fn insert(&mut self, names: &[ServedName], cert: Arc<Certificate>)
        requires
            old(self).wf(),
        ensures
            final(self).wf(),
            final(self).exact() == with_exact(old(self).exact(), names@, cert),
            final(self).wildcard() == with_wildcard(old(self).wildcard(), names@, cert),
    {
        let ghost exact = self.exact@;
        let ghost wildcard = self.wildcard@;
        let mut i: usize = 0;
        while i < names.len()
            invariant
                i <= names@.len(),
                self.wf(),
                self.exact@ == with_exact(exact, names@.take(i as int), cert),
                self.wildcard@ == with_wildcard(wildcard, names@.take(i as int), cert),
            decreases names@.len() - i,
        {
            assert(names@.take(i + 1).drop_last() == names@.take(i as int));
            match &names[i] {
                ServedName::Exact(name) => self.exact.insert(name.as_str(), cert.clone()),
                ServedName::Wildcard(parent) => self.wildcard.insert(parent.as_str(), cert.clone()),
            }
            i = i + 1;
        }
        assert(names@.take(names@.len() as int) == names@);
    }

    /// The certificate to serve for a name. An exact match always wins over a
    /// wildcard.
    pub fn get(&self, sni: &str) -> (r: Option<Arc<Certificate>>)
        requires
            self.wf(),
        ensures
            r == lookup(self.exact(), self.wildcard(), canonical_name(sni@)),
    {
        let name = normalize(sni);
        match self.exact.get(name.as_str()) {
            Some(cert) => return Some(cert.clone()),
            None => {},
        }
        // Only the immediate parent can match, since a wildcard covers exactly
        // one label.
        let chars = text::chars_of(name.as_str());
        let end = chars.len();
        match dot_in(&chars) {
            Some(i) => {
                if i == 0 {
                    return None;
                }
                let parent = text::substring(&chars, i + 1, end);
                assert(parent@ == name@.skip(i + 1));
                match self.wildcard.get(parent.as_str()) {
                    Some(cert) => Some(cert.clone()),
                    None => None,
                }
            },
            None => None,
        }
    }

    /// Is a certificate registered under the name?
    pub open spec fn registered(&self, name: ServedName) -> bool {
        match name {
            ServedName::Exact(n) => self.exact().contains_key(n@),
            ServedName::Wildcard(parent) => self.wildcard().contains_key(parent@),
        }
    }

    /// Is a certificate registered for every one of `names`?
    pub fn covers_all(&self, names: &[ServedName]) -> (r: bool)
        requires
            self.wf(),
        ensures
            r == forall|i: int| 0 <= i < names@.len() ==> self.registered(#[trigger] names@[i]),
    {
        let mut i: usize = 0;
        while i < names.len()
            invariant
                i <= names@.len(),
                self.wf(),
                forall|k: int| 0 <= k < i ==> self.registered(#[trigger] names@[k]),
            decreases names@.len() - i,
        {
            let there = match &names[i] {
                ServedName::Exact(name) => self.exact.contains(name.as_str()),
                ServedName::Wildcard(parent) => self.wildcard.contains(parent.as_str()),
            };
            if !there {
                assert(!self.registered(names@[i as int]));
                return false;
            }
            i = i + 1;
        }
        true
    }
}

impl Default for CertStore {
    fn default() -> (r: Self)
        ensures
            r.wf(),
            r.exact() == ByName::empty(),
            r.wildcard() == ByName::empty(),
    {
        CertStore::new()
    }
}

proof fn lemma_first_dot(name: Seq<char>)
    ensures
        match first_dot(name) {
            Some(i) => 0 <= i < name.len() && name[i] == '.' && !name.take(i).contains('.'),
            None => !name.contains('.'),
        },
    decreases name.len(),
{
    if name.len() > 0 {
        let front = name.drop_last();
        lemma_first_dot(front);
        match first_dot(front) {
            Some(i) => {
                assert(name[i] == '.');
                assert(name.take(i) == front.take(i));
            },
            None => {
                assert(name.take(name.len() - 1) == front);
                assert forall|k: int| 0 <= k < name.len() && name.last() != '.' implies name[k]
                    != '.' by {
                    if k < front.len() {
                        assert(front[k] == name[k]);
                        assert(front.contains(front[k]));
                    }
                }
            },
        }
    }
}

/// A wildcard serves the names that are one label below its parent, and no
/// others.
pub proof fn wildcards_cover_one_label(
    exact: ByName,
    wildcard: ByName,
    parent: Seq<char>,
    sni: Seq<char>,
)
    requires
        !exact.contains_key(sni),
        wildcard.contains_key(parent),
    ensures
        one_label_below(parent, sni) ==> lookup(exact, wildcard, sni) == Some(wildcard[parent]),
        lookup(exact, wildcard, sni) is Some ==> exists|p: Seq<char>| #[trigger]
            wildcard.contains_key(p) && one_label_below(p, sni),
{
    if one_label_below(parent, sni) {
        lemma_parent(parent, sni);
    }
    if lookup(exact, wildcard, sni) is Some {
        lemma_found(exact, wildcard, sni);
    }
}

/// The parent of a name is what follows its first dot.
proof fn lemma_parent(parent: Seq<char>, sni: Seq<char>)
    requires
        one_label_below(parent, sni),
    ensures
        first_dot(sni) matches Some(i) && i > 0 && sni.skip(i + 1) == parent,
{
    lemma_first_dot(sni);
    let label = choose|label: Seq<char>|
        label.len() > 0 && !label.contains('.') && sni == #[trigger] (label + seq!['.'] + parent);
    let n = label.len() as int;
    assert(sni[n] == '.');
    assert(sni.contains('.'));
    let i = first_dot(sni)->0;
    if i < n {
        assert(label[i] == '.');
        assert(label.contains('.'));
    }
    if n < i {
        assert(sni.take(i)[n] == '.');
        assert(sni.take(i).contains('.'));
    }
    assert(sni.skip(i + 1) == parent);
}

/// A wildcard under which a name is found is that of its parent.
proof fn lemma_found(exact: ByName, wildcard: ByName, sni: Seq<char>)
    requires
        !exact.contains_key(sni),
        lookup(exact, wildcard, sni) is Some,
    ensures
        exists|p: Seq<char>| #[trigger] wildcard.contains_key(p) && one_label_below(p, sni),
{
    lemma_first_dot(sni);
    let i = first_dot(sni)->0;
    let p = sni.skip(i + 1);
    let label = sni.take(i);
    assert(sni == label + seq!['.'] + p);
    assert(one_label_below(p, sni));
    assert(wildcard.contains_key(p));
}

/// There is a certificate for a name where one is registered under the name itself or
/// under a wildcard that covers it, and only there.
pub proof fn a_name_is_served_where_one_covers_it(exact: ByName, wildcard: ByName, sni: Seq<char>)
    ensures
        lookup(exact, wildcard, sni) is Some <==> exact.contains_key(sni) || exists|p: Seq<char>|
         #[trigger] wildcard.contains_key(p) && one_label_below(p, sni),
{
    if !exact.contains_key(sni) {
        if exists|p: Seq<char>| #[trigger] wildcard.contains_key(p) && one_label_below(p, sni) {
            let p = choose|p: Seq<char>| #[trigger]
                wildcard.contains_key(p) && one_label_below(p, sni);
            lemma_parent(p, sni);
        }
        if lookup(exact, wildcard, sni) is Some {
            lemma_found(exact, wildcard, sni);
        }
    }
}

/// Registering a certificate makes exactly those names served that one of its own
/// covers, besides those that were served before.
pub proof fn registering_serves_what_its_names_cover(
    exact: ByName,
    wildcard: ByName,
    names: Seq<ServedName>,
    cert: Arc<Certificate>,
    sni: Seq<char>,
)
    ensures
        lookup(with_exact(exact, names, cert), with_wildcard(wildcard, names, cert), sni) is Some
            <==> lookup(exact, wildcard, sni) is Some || exists|i: int|
            0 <= i < names.len() && (#[trigger] names[i]).covers(sni),
{
    let after = with_exact(exact, names, cert);
    let wild = with_wildcard(wildcard, names, cert);
    a_name_is_served_where_one_covers_it(exact, wildcard, sni);
    a_name_is_served_where_one_covers_it(after, wild, sni);
    registering_touches_only_its_names(exact, wildcard, names, cert, sni);
    assert forall|p: Seq<char>| #[trigger]
        wild.contains_key(p) == (wildcard.contains_key(p) || among(names, true, p)) by {
        registering_touches_only_its_names(exact, wildcard, names, cert, p);
    }
    if exists|i: int| 0 <= i < names.len() && (#[trigger] names[i]).covers(sni) {
        let i = choose|i: int| 0 <= i < names.len() && (#[trigger] names[i]).covers(sni);
        match names[i] {
            ServedName::Exact(name) => {
                assert(names[i]@ == (false, sni));
                assert(among(names, false, sni));
            },
            ServedName::Wildcard(parent) => {
                assert(names[i]@ == (true, parent@));
                assert(among(names, true, parent@));
                assert(wild.contains_key(parent@));
            },
        }
    }
    if after.contains_key(sni) && !exact.contains_key(sni) {
        let i = choose|i: int| 0 <= i < names.len() && (#[trigger] names[i])@ == (false, sni);
        assert(names[i].covers(sni));
    }
    if exists|p: Seq<char>| #[trigger] wild.contains_key(p) && one_label_below(p, sni) {
        let p = choose|p: Seq<char>| #[trigger] wild.contains_key(p) && one_label_below(p, sni);
        if !wildcard.contains_key(p) {
            let i = choose|i: int| 0 <= i < names.len() && (#[trigger] names[i])@ == (true, p);
            assert(names[i].covers(sni));
        }
    }
    if exists|p: Seq<char>| #[trigger] wildcard.contains_key(p) && one_label_below(p, sni) {
        let p = choose|p: Seq<char>| #[trigger]
            wildcard.contains_key(p) && one_label_below(p, sni);
        assert(wild.contains_key(p));
    }
}

/// A certificate that is registered under the name itself is the one that is
/// served, whatever wildcards there are.
pub proof fn an_exact_name_wins(exact: ByName, wildcard: ByName, sni: Seq<char>)
    requires
        exact.contains_key(sni),
    ensures
        lookup(exact, wildcard, sni) == Some(exact[sni]),
{
}

/// Is the name among those, as a wildcard's parent or as an exact name?
pub open spec fn among(names: Seq<ServedName>, wildcard: bool, name: Seq<char>) -> bool {
    exists|i: int| 0 <= i < names.len() && (#[trigger] names[i])@ == (wildcard, name)
}

proof fn lemma_among(names: Seq<ServedName>, wildcard: bool, name: Seq<char>)
    requires
        names.len() > 0,
    ensures
        among(names, wildcard, name) == (names.last()@ == (wildcard, name) || among(
            names.drop_last(),
            wildcard,
            name,
        )),
{
    let front = names.drop_last();
    assert(names[names.len() - 1] == names.last());
    if among(names, wildcard, name) {
        let i = choose|i: int| 0 <= i < names.len() && (#[trigger] names[i])@ == (wildcard, name);
        if i < front.len() {
            assert(front[i]@ == (wildcard, name));
        }
    }
    if among(front, wildcard, name) {
        let i = choose|i: int| 0 <= i < front.len() && (#[trigger] front[i])@ == (wildcard, name);
        assert(names[i]@ == (wildcard, name));
    }
}

/// Registering a certificate puts it under each of the names, and leaves every
/// other name with what it had.
pub proof fn registering_touches_only_its_names(
    exact: ByName,
    wildcard: ByName,
    names: Seq<ServedName>,
    cert: Arc<Certificate>,
    name: Seq<char>,
)
    ensures
        ({
            let after = with_exact(exact, names, cert);
            if among(names, false, name) {
                after.contains_key(name) && after[name] == cert
            } else {
                after.contains_key(name) == exact.contains_key(name) && (exact.contains_key(name)
                    ==> after[name] == exact[name])
            }
        }),
        ({
            let after = with_wildcard(wildcard, names, cert);
            if among(names, true, name) {
                after.contains_key(name) && after[name] == cert
            } else {
                after.contains_key(name) == wildcard.contains_key(name) && (
                wildcard.contains_key(name) ==> after[name] == wildcard[name])
            }
        }),
    decreases names.len(),
{
    if names.len() > 0 {
        registering_touches_only_its_names(exact, wildcard, names.drop_last(), cert, name);
        lemma_among(names, true, name);
        lemma_among(names, false, name);
    }
}

proof fn lemma_name_chars(s: Seq<char>)
    requires
        forall|i: int, k: int|
            0 <= i < text::split(s, '.').len() && 0 <= k < text::split(s, '.')[i].len()
                ==> is_label_char(#[trigger] text::split(s, '.')[i][k]),
    ensures
        forall|k: int| 0 <= k < s.len() ==> #[trigger] s[k] == '.' || is_label_char(s[k]),
    decreases s.len(),
{
    if s.len() > 0 {
        let front = s.drop_last();
        let pieces = text::split(front, '.');
        let all = text::split(s, '.');
        text::lemma_split_nonempty(front, '.');
        assert forall|i: int, k: int|
            0 <= i < pieces.len() && 0 <= k < pieces[i].len() implies is_label_char(
            #[trigger] pieces[i][k],
        ) by {
            if s.last() == '.' || i < pieces.len() - 1 {
                assert(all[i] == pieces[i]);
            } else {
                assert(all[i] == pieces[i].push(s.last()));
            }
            assert(is_label_char(all[i][k]));
        }
        lemma_name_chars(front);
        assert forall|k: int| 0 <= k < s.len() implies #[trigger] s[k] == '.' || is_label_char(
            s[k],
        ) by {
            if k < front.len() {
                assert(s[k] == front[k]);
            } else if s.last() != '.' {
                let last = all[all.len() - 1];
                assert(last == pieces.last().push(s.last()));
                assert(is_label_char(last[last.len() - 1]));
            }
        }
    }
}

proof fn lemma_plausible(s: Seq<char>)
    requires
        plausible(s),
    ensures
        s.last() != '.',
        forall|k: int| 0 <= k < s.len() ==> #[trigger] s[k] == '.' || is_label_char(s[k]),
{
    let all = text::split(s, '.');
    text::lemma_split_nonempty(s, '.');
    assert(is_label(all[all.len() - 1]));
    assert forall|i: int, k: int| 0 <= i < all.len() && 0 <= k < all[i].len() implies is_label_char(
        #[trigger] all[i][k],
    ) by {
        assert(is_label(all[i]));
    }
    lemma_name_chars(s);
}

proof fn lemma_trim_end(s: Seq<char>, c: char)
    ensures
        text::trim_end(s, c).len() <= s.len(),
        text::trim_end(s, c) == s.take(text::trim_end(s, c).len() as int),
        text::trim_end(s, c).len() > 0 ==> text::trim_end(s, c).last() != c,
    decreases s.len(),
{
    if s.len() > 0 && s.last() == c {
        lemma_trim_end(s.drop_last(), c);
        let n = text::trim_end(s, c).len() as int;
        assert(s.drop_last().take(n) == s.take(n));
    } else {
        assert(s.take(s.len() as int) == s);
    }
}

proof fn lemma_trimmed_end(s: Seq<char>)
    ensures
        text::trimmed_end(s).len() <= s.len(),
        text::trimmed_end(s) == s.take(text::trimmed_end(s).len() as int),
    decreases s.len(),
{
    if s.len() > 0 && text::is_space(s.last()) {
        lemma_trimmed_end(s.drop_last());
        let n = text::trimmed_end(s).len() as int;
        assert(s.drop_last().take(n) == s.take(n));
    } else {
        assert(s.take(s.len() as int) == s);
    }
}

proof fn lemma_trimmed_start(s: Seq<char>)
    ensures
        text::trimmed_start(s).len() > 0 ==> !text::is_space(text::trimmed_start(s)[0]),
    decreases s.len(),
{
    if s.len() > 0 && text::is_space(s[0]) {
        lemma_trimmed_start(s.drop_first());
    }
}

proof fn lemma_lower(c: char)
    ensures
        text::is_space(text::lower(c)) == text::is_space(c),
        (text::lower(c) == '.') == (c == '.'),
        text::lower(text::lower(c)) == text::lower(c),
{
}

proof fn lemma_lower_trims(s: Seq<char>)
    ensures
        text::trimmed_start(text::lower_text(s)) == text::lower_text(text::trimmed_start(s)),
        text::trimmed_end(text::lower_text(s)) == text::lower_text(text::trimmed_end(s)),
        text::trim_end(text::lower_text(s), '.') == text::lower_text(text::trim_end(s, '.')),
    decreases s.len(),
{
    let low = text::lower_text(s);
    if s.len() > 0 {
        lemma_lower(s[0]);
        lemma_lower(s.last());
        lemma_lower_trims(s.drop_first());
        lemma_lower_trims(s.drop_last());
        assert(low.drop_first() == text::lower_text(s.drop_first()));
        assert(low.drop_last() == text::lower_text(s.drop_last()));
    }
}

proof fn lemma_trimmed_start_cat(blank: Seq<char>, s: Seq<char>)
    requires
        forall|i: int| 0 <= i < blank.len() ==> text::is_space(#[trigger] blank[i]),
    ensures
        text::trimmed_start(blank + s) == text::trimmed_start(s),
    decreases blank.len(),
{
    if blank.len() == 0 {
        assert(blank + s == s);
    } else {
        assert((blank + s).drop_first() == blank.drop_first() + s);
        assert(text::is_space(blank[0]));
        lemma_trimmed_start_cat(blank.drop_first(), s);
    }
}

proof fn lemma_trimmed_end_cat(s: Seq<char>, blank: Seq<char>)
    requires
        forall|i: int| 0 <= i < blank.len() ==> text::is_space(#[trigger] blank[i]),
    ensures
        text::trimmed_end(s + blank) == text::trimmed_end(s),
    decreases blank.len(),
{
    if blank.len() == 0 {
        assert(s + blank == s);
    } else {
        assert((s + blank).drop_last() == s + blank.drop_last());
        assert(text::is_space(blank[blank.len() - 1]));
        lemma_trimmed_end_cat(s, blank.drop_last());
    }
}

/// White space at the end of a text is no matter to the white space at its start, unless
/// there is nothing else.
proof fn lemma_trimmed_start_before(s: Seq<char>, blank: Seq<char>)
    requires
        forall|i: int| 0 <= i < blank.len() ==> text::is_space(#[trigger] blank[i]),
    ensures
        text::trimmed_end(text::trimmed_start(s + blank)) == text::trimmed_end(
            text::trimmed_start(s),
        ),
    decreases s.len(),
{
    if s.len() == 0 {
        assert(s + blank == blank + s);
        lemma_trimmed_start_cat(blank, s);
    } else if text::is_space(s[0]) {
        assert((s + blank).drop_first() == s.drop_first() + blank);
        assert((s + blank)[0] == s[0]);
        lemma_trimmed_start_before(s.drop_first(), blank);
    } else {
        assert((s + blank)[0] == s[0]);
        lemma_trimmed_end_cat(s, blank);
    }
}

proof fn lemma_trim_end_cat(s: Seq<char>, dots: Seq<char>)
    requires
        forall|i: int| 0 <= i < dots.len() ==> #[trigger] dots[i] == '.',
    ensures
        text::trim_end(s + dots, '.') == text::trim_end(s, '.'),
    decreases dots.len(),
{
    if dots.len() == 0 {
        assert(s + dots == s);
    } else {
        assert((s + dots).drop_last() == s + dots.drop_last());
        assert(dots[dots.len() - 1] == '.');
        lemma_trim_end_cat(s, dots.drop_last());
    }
}

proof fn lemma_trimmed_start_dots(s: Seq<char>, dots: Seq<char>)
    requires
        s.len() > 0,
        !text::is_space(s.last()),
    ensures
        text::trimmed_start(s + dots) == text::trimmed_start(s) + dots,
        text::trimmed_start(s).len() > 0,
        text::trimmed_start(s).last() == s.last(),
    decreases s.len(),
{
    assert((s + dots)[0] == s[0]);
    if text::is_space(s[0]) {
        assert(s.len() > 1);
        assert((s + dots).drop_first() == s.drop_first() + dots);
        assert(s.drop_first().last() == s.last());
        lemma_trimmed_start_dots(s.drop_first(), dots);
    }
}

/// White space around a name makes no difference to what it is compared as.
pub proof fn blanks_make_no_difference(before: Seq<char>, name: Seq<char>, after: Seq<char>)
    requires
        forall|i: int| 0 <= i < before.len() ==> text::is_space(#[trigger] before[i]),
        forall|i: int| 0 <= i < after.len() ==> text::is_space(#[trigger] after[i]),
    ensures
        canonical_name(before + name + after) == canonical_name(name),
{
    assert(before + name + after == before + (name + after));
    lemma_trimmed_start_cat(before, name + after);
    lemma_trimmed_start_before(name, after);
}

/// Dots at the end of a name make no difference to what it is compared as. White space in
/// front of them does: it is not around the name.
pub proof fn trailing_dots_make_no_difference(name: Seq<char>, dots: Seq<char>)
    requires
        forall|i: int| 0 <= i < dots.len() ==> #[trigger] dots[i] == '.',
        name.len() > 0 ==> !text::is_space(name.last()),
    ensures
        canonical_name(name + dots) == canonical_name(name),
{
    let whole = name + dots;
    if name.len() > 0 {
        lemma_trimmed_start_dots(name, dots);
        let start = text::trimmed_start(name);
        assert(text::trimmed_end(start) == start);
        if dots.len() > 0 {
            assert(dots[dots.len() - 1] == '.');
        } else {
            assert(start + dots == start);
        }
        assert(text::trimmed(whole) == start + dots);
        lemma_trim_end_cat(start, dots);
    } else {
        assert(whole == dots);
        if dots.len() > 0 {
            assert(dots[0] == '.' && dots[dots.len() - 1] == '.');
            assert(text::trimmed(whole) == Seq::<char>::empty() + dots);
        }
        lemma_trim_end_cat(Seq::<char>::empty(), dots);
        assert(name == Seq::<char>::empty());
    }
}

/// The case of its letters makes no difference to what a name is compared as.
pub proof fn case_makes_no_difference(one: Seq<char>, other: Seq<char>)
    requires
        text::lower_text(one) == text::lower_text(other),
    ensures
        canonical_name(one) == canonical_name(other),
{
    lemma_lower_trims(one);
    lemma_lower_trims(other);
    lemma_lower_trims(text::trimmed_start(one));
    lemma_lower_trims(text::trimmed_start(other));
    lemma_lower_trims(text::trimmed(one));
    lemma_lower_trims(text::trimmed(other));
}

/// A name in the form used for comparisons is in that form already. The exception is a
/// name with white space between the dots at its end: taking the last dots off bares it.
pub proof fn comparing_twice_is_comparing_once(s: Seq<char>)
    requires
        canonical_name(s).len() > 0 ==> !text::is_space(canonical_name(s).last()),
    ensures
        canonical_name(canonical_name(s)) == canonical_name(s),
{
    let start = text::trimmed_start(s);
    let inner = text::trimmed(s);
    let bare = text::trim_end(inner, '.');
    let whole = canonical_name(s);
    lemma_trimmed_start(s);
    lemma_trimmed_end(start);
    lemma_trim_end(inner, '.');
    if whole.len() > 0 {
        assert(bare[0] == start[0]);
        lemma_lower(bare[0]);
        lemma_lower(bare.last());
        assert(whole[0] == text::lower(bare[0]));
        assert(whole.last() == text::lower(bare.last()));
        assert(text::trimmed_start(whole) == whole);
        assert(text::trimmed_end(whole) == whole);
    }
    assert(text::trimmed(whole) == whole);
    assert(text::trim_end(whole, '.') == whole);
    assert forall|k: int| 0 <= k < whole.len() implies text::lower(#[trigger] whole[k])
        == whole[k] by {
        lemma_lower(bare[k]);
        assert(whole[k] == text::lower(bare[k]));
    }
    assert(text::lower_text(whole) == whole);
}

/// A name that was read and is written out again reads as the same name.
pub proof fn a_name_reads_back(s: Seq<char>)
    ensures
        served(s) matches Some(name) ==> served(written_name(name)) == Some(name),
{
    if served(s) is Some {
        reveal_strlit("*.");
        let name = served(s)->0;
        let whole = canonical_name(s);
        let bare = text::trim_end(text::trimmed(s), '.');
        assert(written_name(name) == whole);
        lemma_plausible(name.1);
        assert(whole.last() == name.1.last());
        assert(whole[0] == '*' || whole[0] == name.1[0]);
        assert(text::trimmed_start(whole) == whole);
        assert(text::trimmed(whole) == whole);
        assert(text::trim_end(whole, '.') == whole);
        assert forall|k: int| 0 <= k < whole.len() implies text::lower(whole[k]) == whole[k] by {
            assert(whole[k] == text::lower(bare[k]));
        }
        assert(text::lower_text(whole) == whole);
    }
}

/// A name is plausible label by label: two plausible names with a dot between them are one,
/// as long as it is not too long, and no part of a plausible name at a dot is anything
/// else. A name without a dot is one label: of letters, digits and hyphens, with no hyphen
/// at either end, and not too long.
pub proof fn names_are_plausible_label_by_label(a: Seq<char>, b: Seq<char>)
    ensures
        plausible(a + seq!['.'] + b) <==> plausible(a) && plausible(b) && a.len() + 1 + b.len()
            <= 253,
        !a.contains('.') ==> (plausible(a) <==> 1 <= a.len() <= 63 && a[0] != '-' && a.last() != '-'
            && forall|i: int|
            0 <= i < a.len() ==> 'a' <= #[trigger] a[i] <= 'z' || 'A' <= a[i] <= 'Z' || '0' <= a[i]
                <= '9' || a[i] == '-'),
{
    let whole = a + seq!['.'] + b;
    let one = text::split(a, '.');
    let other = text::split(b, '.');
    let all = text::split(whole, '.');
    text::a_split_goes_on_behind_a_separator(a, b, '.');
    text::lemma_split_nonempty(a, '.');
    text::lemma_split_nonempty(b, '.');
    assert(all == one + other);
    if plausible(whole) {
        assert forall|i: int| 0 <= i < one.len() implies is_label(#[trigger] one[i]) by {
            assert(is_label(all[i]));
        }
        assert forall|i: int| 0 <= i < other.len() implies is_label(#[trigger] other[i]) by {
            assert(is_label(all[one.len() + i]));
        }
        if a.len() == 0 {
            assert(one == seq![Seq::<char>::empty()]);
            assert(is_label(one[0]));
        }
        if b.len() == 0 {
            assert(other == seq![Seq::<char>::empty()]);
            assert(is_label(other[0]));
        }
    }
    if plausible(a) && plausible(b) && whole.len() <= 253 {
        assert forall|i: int| 0 <= i < all.len() implies is_label(#[trigger] all[i]) by {
            if i < one.len() {
                assert(is_label(one[i]));
            } else {
                assert(is_label(other[i - one.len()]));
            }
        }
    }
    if !a.contains('.') {
        assert(one == seq![a]);
        if plausible(a) {
            assert(is_label(one[0]));
            assert forall|i: int| 0 <= i < a.len() implies 'a' <= #[trigger] a[i] <= 'z' || 'A'
                <= a[i] <= 'Z' || '0' <= a[i] <= '9' || a[i] == '-' by {
                assert(is_label_char(a[i]));
            }
        }
        if 1 <= a.len() <= 63 && a[0] != '-' && a.last() != '-' && (forall|i: int|
            0 <= i < a.len() ==> 'a' <= #[trigger] a[i] <= 'z' || 'A' <= a[i] <= 'Z' || '0' <= a[i]
                <= '9' || a[i] == '-') {
            assert forall|i: int| 0 <= i < a.len() implies is_label_char(#[trigger] a[i]) by {}
            assert(is_label(a));
        }
    }
}

/// A name is below a parent by exactly one label: with one label more it is, with none or
/// with two it is not.
pub proof fn one_label_and_no_more(parent: Seq<char>, label: Seq<char>, above: Seq<char>)
    requires
        label.len() > 0,
        !label.contains('.'),
        above.len() > 0,
        !above.contains('.'),
    ensures
        one_label_below(parent, label + seq!['.'] + parent),
        !one_label_below(parent, parent),
        !one_label_below(parent, above + seq!['.'] + (label + seq!['.'] + parent)),
        !one_label_below(parent, seq!['.'] + parent),
{
    let deep = above + seq!['.'] + (label + seq!['.'] + parent);
    if one_label_below(parent, deep) {
        let l = choose|l: Seq<char>|
            l.len() > 0 && !l.contains('.') && deep == #[trigger] (l + seq!['.'] + parent);
        assert(deep.len() == l.len() + 1 + parent.len());
        assert(deep.len() == above.len() + 1 + (label.len() + 1 + parent.len()));
        assert(deep[above.len() as int] == '.');
        assert(l[above.len() as int] == deep[above.len() as int]);
        assert(l.contains('.'));
    }
    if one_label_below(parent, parent) {
        let l = choose|l: Seq<char>|
            l.len() > 0 && !l.contains('.') && parent == #[trigger] (l + seq!['.'] + parent);
        assert(parent.len() == l.len() + 1 + parent.len());
    }
    let bare = seq!['.'] + parent;
    if one_label_below(parent, bare) {
        let l = choose|l: Seq<char>|
            l.len() > 0 && !l.contains('.') && bare == #[trigger] (l + seq!['.'] + parent);
        assert(bare.len() == l.len() + 1 + parent.len());
    }
}

/// A name that is written without capitals, without white space around it and without a
/// dot at its end is compared as it is.
pub proof fn a_plain_name_is_compared_as_it_is(s: Seq<char>)
    requires
        s.len() > 0,
        !text::is_space(s[0]),
        !text::is_space(s.last()),
        s.last() != '.',
        forall|i: int| 0 <= i < s.len() ==> !('A' <= #[trigger] s[i] <= 'Z'),
    ensures
        canonical_name(s) == s,
{
    assert(text::trimmed_start(s) == s);
    assert(text::trimmed_end(s) == s);
    assert(text::trim_end(s, '.') == s);
    assert(text::lower_text(s) == s);
}

/// Each name of a list is written out in its place: an exact name as it is, and a wildcard
/// with `*.` before its parent.
pub proof fn every_name_is_written(names: Seq<ServedName>, i: int)
    requires
        0 <= i < names.len(),
    ensures
        written_names(name_views(names)).len() == names.len(),
        written_names(name_views(names))[i] == (match names[i] {
            ServedName::Exact(name) => name@,
            ServedName::Wildcard(parent) => "*."@ + parent@,
        }),
{
}

/// A certificate is registered under every one of its names, wherever in the list it
/// stands.
pub proof fn every_name_is_registered(
    exact: ByName,
    wildcard: ByName,
    names: Seq<ServedName>,
    cert: Arc<Certificate>,
    i: int,
)
    requires
        0 <= i < names.len(),
    ensures
        match names[i] {
            ServedName::Exact(name) => with_exact(exact, names, cert).contains_key(name@)
                && with_exact(exact, names, cert)[name@] == cert,
            ServedName::Wildcard(parent) => with_wildcard(wildcard, names, cert).contains_key(
                parent@,
            ) && with_wildcard(wildcard, names, cert)[parent@] == cert,
        },
{
    let name = names[i]@.1;
    registering_touches_only_its_names(exact, wildcard, names, cert, name);
    assert(names[i]@ == (names[i]@.0, name));
    assert(among(names, names[i]@.0, name));
}

} // verus!
