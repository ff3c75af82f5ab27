//! What is kept of certificates between one run and the next.
//!
//! Under the store directory, `account.json` holds the account, and each
//! certificate has a directory of its own under `certs`, named by its
//! identifier, with `fullchain.pem`, `key.pem` and `meta.json` in it.
use crate::acme::AcmeError;
use crate::text;
use crate::tls::store::{self as names, CertificateBundle, ServedName};
use vstd::prelude::*;

verus! {

/// The SHA-256 digest that `openssl::sha::sha256` computes.
pub uninterp spec fn digest_of(bytes: Seq<u8>) -> Seq<u8>;

/// `openssl::sha::sha256` is a function of the bytes, and 32 bytes long.
#[verifier::external_body]
fn digest(bytes: &Vec<u8>) -> (r: Vec<u8>)
    ensures
        r@ == digest_of(bytes@),
        r@.len() == 32,
{
    openssl::sha::sha256(bytes).to_vec()
}

/// Names a certificate by the set of domains it covers.
#[derive(Clone, Debug, PartialEq, Eq, PartialOrd, Ord, Hash)]
pub struct CertificateId(pub String);

/// A digit of a byte in hexadecimal.
pub open spec fn hex_digit(n: nat) -> char {
    if n < 10 {
        (('0' as nat) + n) as char
    } else {
        (('a' as nat) + (n - 10)) as char
    }
}

/// Bytes written out in hexadecimal.
pub open spec fn hex_text(bytes: Seq<u8>) -> Seq<char>
    decreases bytes.len(),
{
    if bytes.len() == 0 {
        Seq::empty()
    } else {
        hex_text(bytes.drop_last()) + seq![
            hex_digit(bytes.last() as nat / 16),
            hex_digit(bytes.last() as nat % 16),
        ]
    }
}

/// A character in a form that is safe in the name of a directory.
pub open spec fn safe_char(c: char) -> Seq<char> {
    if 'a' <= c <= 'z' || '0' <= c <= '9' || c == '.' || c == '-' {
        seq![c]
    } else if 'A' <= c <= 'Z' {
        seq![text::lower(c)]
    } else if c == '*' {
        "wildcard"@
    } else {
        seq!['_']
    }
}

/// A text in a form that is safe as the name of a directory.
pub open spec fn safe_text(s: Seq<char>) -> Seq<char>
    decreases s.len(),
{
    if s.len() == 0 {
        Seq::empty()
    } else {
        safe_text(s.drop_last()) + safe_char(s.last())
    }
}

/// Makes a domain safe to use as the name of a directory.
pub fn sanitize(domain: &str) -> (r: String)
    ensures
        r@ == safe_text(domain@),
{
    let chars = text::chars_of(domain);
    let mut out = String::new();
    let mut i: usize = 0;
    while i < chars.len()
        invariant
            i <= chars@.len(),
            out@ == safe_text(chars@.take(i as int)),
        decreases chars@.len() - i,
    {
        let ghost next = chars@.take(i + 1);
        assert(next.drop_last() == chars@.take(i as int));
        assert(next.last() == chars@[i as int]);
        let c = chars[i];
        let ghost before = out@;
        if ('a' <= c && c <= 'z') || ('0' <= c && c <= '9') || c == '.' || c == '-' {
            out.push(c);
            assert(out@ == before + seq![c]);
        } else if 'A' <= c && c <= 'Z' {
            out.push(text::to_lower(c));
            assert(out@ == before + seq![text::lower(c)]);
        } else if c == '*' {
            // `*.example.com` becomes `wildcard.example.com`
            let longer = text::concat2(out.as_str(), "wildcard");
            out = longer;
        } else {
            out.push('_');
            assert(out@ == before + seq!['_']);
        }
        i = i + 1;
    }
    assert(chars@.take(chars@.len() as int) == chars@);
    out
}

fn nibble(n: u8) -> (r: char)
    requires
        n < 16,
    ensures
        r == hex_digit(n as nat),
{
    if n < 10 {
        (48u8 + n) as char
    } else {
        (97u8 + (n - 10)) as char
    }
}

fn write_hex(bytes: &[u8]) -> (r: String)
    ensures
        r@ == hex_text(bytes@),
{
    let mut out = String::new();
    let mut i: usize = 0;
    while i < bytes.len()
        invariant
            i <= bytes@.len(),
            out@ == hex_text(bytes@.take(i as int)),
        decreases bytes@.len() - i,
    {
        let ghost next = bytes@.take(i + 1);
        assert(next.drop_last() == bytes@.take(i as int));
        assert(next.last() == bytes@[i as int]);
        let ghost before = out@;
        out.push(nibble(bytes[i] / 16));
        out.push(nibble(bytes[i] % 16));
        assert(out@ == before + seq![
            hex_digit(bytes@[i as int] as nat / 16),
            hex_digit(bytes@[i as int] as nat % 16),
        ]);
        i = i + 1;
    }
    assert(bytes@.take(bytes@.len() as int) == bytes@);
    out
}

/// The identifier of a set of names: the first of them in order, so that the
/// directory can be recognised, and the digest of all of them, which makes it
/// unique.
pub open spec fn id_of(domains: Seq<(bool, Seq<char>)>) -> Seq<char> {
    let sorted = text::ordered(names::written_names(domains));
    let label = if sorted.len() == 0 {
        "none"@
    } else {
        safe_text(sorted[0])
    };
    label + "-"@ + hex_text(digest_of(text::utf8(text::join(sorted, ","@))).take(4))
}

impl View for CertificateId {
    type V = Seq<char>;

    open spec fn view(&self) -> Seq<char> {
        self.0@
    }
}

impl CertificateId {
    /// The identifier for a set of domains. Changing the set gives another
    /// identifier, since it is then another certificate.
    pub fn for_domains(domains: &[ServedName]) -> (r: Self)
        ensures
            r@ == id_of(names::name_views(domains@)),
    {
        let written = names::write_names(domains);
        let sorted = text::sort_distinct(written.as_slice());
        let all = text::join_text(sorted.as_slice(), ",");
        let mut bytes = digest(&text::bytes_of(all.as_str()));
        let ghost whole = bytes@;
        bytes.truncate(4);
        assert(bytes@ == whole.take(4));
        let short = write_hex(bytes.as_slice());
        assert(text::texts(sorted@).len() == sorted@.len());
        let label = if sorted.len() == 0 {
            "none".to_owned()
        } else {
            sanitize(sorted[0].as_str())
        };
        CertificateId(text::concat3(label.as_str(), "-", short.as_str()))
    }

    pub fn as_str(&self) -> (r: &str)
        ensures
            r@ == self@,
    {
        self.0.as_str()
    }
}

/// The order that domains are named in, and naming one of them twice, make no
/// difference to the identifier.
pub proof fn the_identifier_goes_by_the_set(
    a: Seq<(bool, Seq<char>)>,
    b: Seq<(bool, Seq<char>)>,
)
    requires
        forall|n: (bool, Seq<char>)| a.contains(n) <==> b.contains(n),
    ensures
        id_of(a) == id_of(b),
{
    let x = names::written_names(a);
    let y = names::written_names(b);
    assert forall|t: Seq<char>| x.contains(t) <==> y.contains(t) by {
        if x.contains(t) {
            let i = x.index_of(t);
            assert(a.contains(a[i]));
            let j = b.index_of(a[i]);
            assert(b.contains(a[i]));
            assert(y[j] == t);
        }
        if y.contains(t) {
            let i = y.index_of(t);
            assert(b.contains(b[i]));
            let j = a.index_of(b[i]);
            assert(a.contains(b[i]));
            assert(x[j] == t);
        }
    }
    text::ordered_is_the_set(x);
    text::ordered_is_the_set(y);
    assert forall|t: Seq<char>| text::ordered(x).contains(t) <==> text::ordered(y).contains(t) by {
        assert(text::ordered(x).contains(t) <==> x.contains(t));
        assert(text::ordered(y).contains(t) <==> y.contains(t));
    }
    text::increasing_is_unique(text::ordered(x), text::ordered(y));
}

/// A character that can stand in the name of a directory as it is.
pub open spec fn is_safe(c: char) -> bool {
    'a' <= c <= 'z' || '0' <= c <= '9' || c == '.' || c == '-' || c == '_'
}

proof fn lemma_safe_text(s: Seq<char>)
    ensures
        forall|i: int| 0 <= i < safe_text(s).len() ==> is_safe(#[trigger] safe_text(s)[i]),
    decreases s.len(),
{
    if s.len() > 0 {
        let front = safe_text(s.drop_last());
        let last = safe_char(s.last());
        lemma_safe_text(s.drop_last());
        reveal_strlit("wildcard");
        assert forall|i: int| 0 <= i < (front + last).len() implies is_safe(
            #[trigger] (front + last)[i],
        ) by {
            if i < front.len() {
                assert(front[i] == (front + last)[i]);
            } else {
                assert(last[i - front.len()] == (front + last)[i]);
            }
        }
    }
}

proof fn lemma_hex_text(bytes: Seq<u8>)
    ensures
        forall|i: int| 0 <= i < hex_text(bytes).len() ==> is_safe(#[trigger] hex_text(bytes)[i]),
    decreases bytes.len(),
{
    if bytes.len() > 0 {
        let front = hex_text(bytes.drop_last());
        lemma_hex_text(bytes.drop_last());
        let last = seq![
            hex_digit(bytes.last() as nat / 16),
            hex_digit(bytes.last() as nat % 16),
        ];
        assert forall|i: int| 0 <= i < (front + last).len() implies is_safe(
            #[trigger] (front + last)[i],
        ) by {
            if i < front.len() {
                assert(front[i] == (front + last)[i]);
            } else {
                assert(last[i - front.len()] == (front + last)[i]);
            }
        }
    }
}

/// An identifier is safe as the name of a directory, whatever the domains are:
/// it holds neither a separator nor a star.
pub proof fn identifiers_are_path_safe(domains: Seq<(bool, Seq<char>)>)
    ensures
        forall|i: int| 0 <= i < id_of(domains).len() ==> is_safe(#[trigger] id_of(domains)[i]),
{
    let sorted = text::ordered(names::written_names(domains));
    let hex = hex_text(digest_of(text::utf8(text::join(sorted, ","@))).take(4));
    let label = if sorted.len() == 0 {
        "none"@
    } else {
        safe_text(sorted[0])
    };
    reveal_strlit("none");
    reveal_strlit("-");
    if sorted.len() > 0 {
        lemma_safe_text(sorted[0]);
    }
    lemma_hex_text(digest_of(text::utf8(text::join(sorted, ","@))).take(4));
    assert forall|i: int| 0 <= i < id_of(domains).len() implies is_safe(
        #[trigger] id_of(domains)[i],
    ) by {
        let c = id_of(domains)[i];
        if i < label.len() {
            assert(c == label[i]);
        } else if i > label.len() {
            assert(c == hex[i - label.len() - 1]);
        }
    }
}

/// What is recorded about a certificate beyond the certificate itself.
#[derive(Clone, Debug, PartialEq, Eq)]
pub struct CertificateMeta {
    /// The domains this certificate was requested for.
    pub domains: Vec<String>,
    /// When it was obtained, in seconds since the Unix epoch.
    pub issued_at: u64,
    /// The order it came from, kept for debugging.
    pub order_url: Option<String>,
}

impl CertificateMeta {
    /// The record of a certificate that was obtained at `now`.
    pub fn now(domains: &[ServedName], now: u64, order_url: Option<String>) -> (r: Self)
        ensures
            text::texts(r.domains@) == names::written_names(names::name_views(domains@)),
            r.issued_at == now,
            r.order_url == order_url,
    {
        CertificateMeta { domains: names::write_names(domains), issued_at: now, order_url }
    }

    /// How many days ago the certificate was obtained: none, where the clock
    /// says that it was not yet.
    pub open spec fn age(self, now: u64) -> int {
        if now > self.issued_at {
            (now - self.issued_at) / 86400
        } else {
            0
        }
    }

    /// How many days before `now` the certificate was obtained.
    pub fn days_since_issue(&self, now: u64) -> (r: u64)
        ensures
            r == self.age(now),
    {
        if now > self.issued_at {
            (now - self.issued_at) / 86400
        } else {
            0
        }
    }
}

/// A certificate as it was read back.
#[derive(Clone, Debug)]
pub struct StoredCertificate {
    pub bundle: CertificateBundle,
    pub meta: CertificateMeta,
}

/// What came of reading one file: its contents, or that there is no such file.
pub type Reading<T> = Result<Option<T>, AcmeError>;

/// One of the files of a stored certificate.
#[derive(Debug, Clone, PartialEq, Eq)]
pub struct StoredFile {
    pub name: String,
    /// Where the file is.
    pub path: String,
    pub contents: Vec<u8>,
    /// The permissions that the file has from the start.
    pub mode: u32,
}

/// A file as its name, its place, its contents and its permissions.
pub open spec fn file_view(f: StoredFile) -> (Seq<char>, Seq<char>, Seq<u8>, u32) {
    (f.name@, f.path@, f.contents@, f.mode)
}

/// The files of a certificate below its directory, in the order they are written in: the
/// key, which only its owner may read, the chain, and last the record, without which the
/// others count for nothing.
pub open spec fn files_of(dir: Seq<char>, bundle: CertificateBundle, meta: Seq<u8>) -> Seq<
    (Seq<char>, Seq<char>, Seq<u8>, u32),
> {
    seq![
        ("key.pem"@, inside(dir, "key.pem"@), bundle.key_pem@, 0o600u32),
        ("fullchain.pem"@, inside(dir, "fullchain.pem"@), bundle.chain_pem@, 0o644u32),
        ("meta.json"@, inside(dir, "meta.json"@), meta, 0o644u32),
    ]
}

/// A name below a directory, written as a path.
pub open spec fn inside(dir: Seq<char>, name: Seq<char>) -> Seq<char> {
    if dir.len() == 0 || dir.last() == '/' {
        dir + name
    } else {
        dir + "/"@ + name
    }
}

fn path_inside(dir: &str, name: &str) -> (r: String)
    ensures
        r@ == inside(dir@, name@),
{
    let chars = text::chars_of(dir);
    if chars.len() == 0 || chars[chars.len() - 1] == '/' {
        text::concat2(dir, name)
    } else {
        text::concat3(dir, "/", name)
    }
}

/// The credentials of an account, as the `instant_acme` crate holds them.
#[verifier::external_type_specification]
#[verifier::external_body]
pub struct ExAccountCredentials(instant_acme::AccountCredentials);

/// What the credentials of an account hold: its address, its key, and where the
/// certificate authority is found.
pub uninterp spec fn account_of(c: instant_acme::AccountCredentials) -> Seq<u8>;

/// What `serde_json::from_slice` makes of a file as the credentials of an account: what
/// they hold, or why it is none.
pub uninterp spec fn parsed_account(raw: Seq<u8>) -> Result<Seq<u8>, Seq<char>>;

/// Is a file read as these credentials?
pub open spec fn reads_as_account(raw: Seq<u8>, c: instant_acme::AccountCredentials) -> bool {
    parsed_account(raw) == Ok::<Seq<u8>, Seq<char>>(account_of(c))
}

/// `serde_json::from_slice` goes by the bytes alone.
#[verifier::external_body]
fn parse_account(raw: &Vec<u8>) -> (r: Result<instant_acme::AccountCredentials, String>)
    ensures
        match r {
            Ok(c) => parsed_account(raw@) == Ok::<Seq<u8>, Seq<char>>(account_of(c)),
            Err(e) => parsed_account(raw@) == Err::<Seq<u8>, Seq<char>>(e@),
        },
{
    serde_json::from_slice(raw).map_err(|e| e.to_string())
}

/// `serde_json::to_vec_pretty` writes credentials out so that they read back as the
/// same. Nothing is said of the bytes themselves: a part of the credentials is a hash map,
/// which is written in whatever order it is walked in.
#[verifier::external_body]
fn write_account(c: &instant_acme::AccountCredentials) -> (r: Result<Vec<u8>, String>)
    ensures
        r matches Ok(raw) ==> reads_as_account(raw@, *c),
{
    serde_json::to_vec_pretty(c).map_err(|e| e.to_string())
}

/// The directory that the account and the certificates are kept in.
///
/// ```text
/// account.json                  the ACME account credentials
/// .lock                         held while an order is in flight
/// certs/<id>/fullchain.pem      the issued certificate chain
/// certs/<id>/key.pem            its private key
/// certs/<id>/meta.json          when it was issued, and for what
/// ```
#[derive(Debug, Clone)]
pub struct AcmeStore {
    pub dir: String,
}

impl AcmeStore {
    /// The directory of a certificate.
    pub open spec fn cert_path(self, id: Seq<char>) -> Seq<char> {
        inside(inside(self.dir@, "certs"@), id)
    }

    /// The store in a directory.
    pub fn new(dir: String) -> (r: Self)
        ensures
            r.dir == dir,
    {
        AcmeStore { dir }
    }

    /// Where the directories of the certificates are.
    pub fn certs_dir(&self) -> (r: String)
        ensures
            r@ == inside(self.dir@, "certs"@),
    {
        path_inside(self.dir.as_str(), "certs")
    }

    /// Where the credentials of the account are.
    pub fn account_path(&self) -> (r: String)
        ensures
            r@ == inside(self.dir@, "account.json"@),
    {
        path_inside(self.dir.as_str(), "account.json")
    }

    /// The file that is locked while an order is in flight.
    pub fn lock_path(&self) -> (r: String)
        ensures
            r@ == inside(self.dir@, ".lock"@),
    {
        path_inside(self.dir.as_str(), ".lock")
    }

    /// Where the files of a certificate are.
    pub fn cert_dir(&self, id: &CertificateId) -> (r: String)
        ensures
            r@ == self.cert_path(id@),
    {
        path_inside(self.certs_dir().as_str(), id.as_str())
    }

    /// Where one of the files of a certificate is.
    pub fn file(&self, id: &CertificateId, name: &str) -> (r: String)
        ensures
            r@ == inside(self.cert_path(id@), name@),
    {
        path_inside(self.cert_dir(id).as_str(), name)
    }

    /// The stored credentials of the account, if there are any. `raw` is what came of
    /// reading their file.
    pub fn load_account(&self, raw: Reading<Vec<u8>>) -> (r: Reading<
        instant_acme::AccountCredentials,
    >)
        ensures
            match raw {
                Ok(Some(bytes)) => match parsed_account(bytes@) {
                    Ok(account) => r matches Ok(Some(c)) && account_of(c) == account,
                    Err(why) => r matches Err(AcmeError::Malformed { path, source }) && path@
                        == inside(self.dir@, "account.json"@) && source@ == why,
                },
                Ok(None) => r matches Ok(None),
                Err(e) => r matches Err(f) && f == e,
            },
    {
        match raw {
            Ok(Some(bytes)) => match parse_account(&bytes) {
                Ok(c) => Ok(Some(c)),
                Err(source) => Err(AcmeError::Malformed { path: self.account_path(), source }),
            },
            Ok(None) => Ok(None),
            Err(e) => Err(e),
        }
    }

    /// The file to write for the credentials of the account, once they have been written
    /// out. Only its owner may read it.
    pub fn account_file(&self, encoded: Result<Vec<u8>, String>) -> (r: Result<
        StoredFile,
        AcmeError,
    >)
        ensures
            match encoded {
                Ok(raw) => r matches Ok(f) && file_view(f) == (
                    "account.json"@,
                    inside(self.dir@, "account.json"@),
                    raw@,
                    0o600u32,
                ),
                Err(why) => r matches Err(AcmeError::Malformed { path, source }) && path@ == inside(
                    self.dir@,
                    "account.json"@,
                ) && source == why,
            },
    {
        match encoded {
            Ok(contents) => Ok(
                StoredFile {
                    name: "account.json".to_owned(),
                    path: self.account_path(),
                    contents,
                    mode: 0o600,
                },
            ),
            Err(source) => Err(AcmeError::Malformed { path: self.account_path(), source }),
        }
    }

    /// The file to write for the credentials of the account. What is read out of it again
    /// is the same account.
    pub fn save_account(&self, credentials: &instant_acme::AccountCredentials) -> (r: Result<
        StoredFile,
        AcmeError,
    >)
        ensures
            match r {
                Ok(f) => {
                    &&& f.name@ == "account.json"@
                    &&& f.path@ == inside(self.dir@, "account.json"@)
                    &&& f.mode == 0o600
                    &&& reads_as_account(f.contents@, *credentials)
                },
                Err(e) => e matches AcmeError::Malformed { path, .. } && path@ == inside(
                    self.dir@,
                    "account.json"@,
                ),
            },
    {
        self.account_file(write_account(credentials))
    }

    /// Puts together what was read of a stored certificate. One whose files are not
    /// all there, or of which one cannot be read or makes no sense, reads as absent: the
    /// right response is to obtain a new one.
    pub fn load_certificate(
        &self,
        chain: Reading<Vec<u8>>,
        key: Reading<Vec<u8>>,
        meta: Reading<CertificateMeta>,
    ) -> (r: Reading<StoredCertificate>)
        ensures
            r == Ok::<Option<StoredCertificate>, AcmeError>(
                match (chain, key, meta) {
                    (Ok(Some(chain_pem)), Ok(Some(key_pem)), Ok(Some(m))) => Some(
                        StoredCertificate {
                            bundle: CertificateBundle { chain_pem, key_pem },
                            meta: m,
                        },
                    ),
                    _ => None,
                },
            ),
    {
        match (chain, key, meta) {
            (Ok(Some(chain_pem)), Ok(Some(key_pem)), Ok(Some(meta))) => Ok(
                Some(
                    StoredCertificate { bundle: CertificateBundle { chain_pem, key_pem }, meta },
                ),
            ),
            _ => Ok(None),
        }
    }

    /// The files to write for a certificate, in order. `meta` is its record, written
    /// out.
    pub fn save_certificate(
        &self,
        id: &CertificateId,
        bundle: &CertificateBundle,
        meta: Vec<u8>,
    ) -> (r: Vec<StoredFile>)
        ensures
            r@.map_values(|f: StoredFile| file_view(f)) == files_of(
                self.cert_path(id@),
                *bundle,
                meta@,
            ),
    {
        let mut out: Vec<StoredFile> = Vec::new();
        out.push(
            StoredFile {
                name: "key.pem".to_owned(),
                path: self.file(id, "key.pem"),
                contents: text::owned_bytes(bundle.key_pem.as_slice()),
                mode: 0o600,
            },
        );
        out.push(
            StoredFile {
                name: "fullchain.pem".to_owned(),
                path: self.file(id, "fullchain.pem"),
                contents: text::owned_bytes(bundle.chain_pem.as_slice()),
                mode: 0o644,
            },
        );
        out.push(
            StoredFile {
                name: "meta.json".to_owned(),
                path: self.file(id, "meta.json"),
                contents: meta,
                mode: 0o644,
            },
        );
        assert(out@.map_values(|f: StoredFile| file_view(f)) == files_of(
            self.cert_path(id@),
            *bundle,
            meta@,
        ));
        out
    }
}

/// The contents of the file at a path among those that were written: what was last
/// written there.
pub open spec fn written_at(
    files: Seq<(Seq<char>, Seq<char>, Seq<u8>, u32)>,
    path: Seq<char>,
) -> Option<Seq<u8>>
    decreases files.len(),
{
    if files.len() == 0 {
        None
    } else if files.last().1 == path {
        Some(files.last().2)
    } else {
        written_at(files.drop_last(), path)
    }
}

/// The three files of a certificate have different places.
proof fn lemma_places(dir: Seq<char>)
    ensures
        inside(dir, "key.pem"@) != inside(dir, "fullchain.pem"@),
        inside(dir, "key.pem"@) != inside(dir, "meta.json"@),
        inside(dir, "meta.json"@) != inside(dir, "fullchain.pem"@),
{
    reveal_strlit("key.pem");
    reveal_strlit("fullchain.pem");
    reveal_strlit("meta.json");
    assert(inside(dir, "key.pem"@).len() != inside(dir, "fullchain.pem"@).len());
    assert(inside(dir, "key.pem"@).len() != inside(dir, "meta.json"@).len());
    assert(inside(dir, "meta.json"@).len() != inside(dir, "fullchain.pem"@).len());
}

/// Once all the files are written they read back as what was saved. Where the
/// writing was cut short, at least one is missing, so that the certificate reads
/// as absent.
pub proof fn a_certificate_reads_back_whole_or_not_at_all(
    dir: Seq<char>,
    bundle: CertificateBundle,
    meta: Seq<u8>,
    written: int,
)
    requires
        0 <= written <= 3,
    ensures
        ({
            let files = files_of(dir, bundle, meta).take(written);
            let chain = written_at(files, inside(dir, "fullchain.pem"@));
            let key = written_at(files, inside(dir, "key.pem"@));
            let record = written_at(files, inside(dir, "meta.json"@));
            &&& written == 3 ==> chain == Some(bundle.chain_pem@) && key == Some(bundle.key_pem@)
                && record == Some(meta)
            &&& written < 3 ==> chain is None || key is None || record is None
        }),
{
    lemma_places(dir);
    let all = files_of(dir, bundle, meta);
    assert(all.take(3).drop_last() == all.take(2));
    assert(all.take(2).drop_last() == all.take(1));
    assert(all.take(1).drop_last() == all.take(0));
    reveal_with_fuel(written_at, 4);
}

proof fn lemma_written_at_added(
    old: Seq<(Seq<char>, Seq<char>, Seq<u8>, u32)>,
    new: Seq<(Seq<char>, Seq<char>, Seq<u8>, u32)>,
    path: Seq<char>,
)
    requires
        written_at(new, path) is None,
    ensures
        written_at(old + new, path) == written_at(old, path),
    decreases new.len(),
{
    if new.len() > 0 {
        assert((old + new).drop_last() == old + new.drop_last());
        assert((old + new).last() == new.last());
        lemma_written_at_added(old, new.drop_last(), path);
    } else {
        assert(old + new == old);
    }
}

/// Where writing a renewed certificate is cut short, the record is still that of the
/// certificate before it: what is there never claims to be newer than it is.
pub proof fn an_interrupted_renewal_claims_nothing(
    before: Seq<(Seq<char>, Seq<char>, Seq<u8>, u32)>,
    dir: Seq<char>,
    bundle: CertificateBundle,
    meta: Seq<u8>,
    written: int,
)
    requires
        0 <= written < 3,
    ensures
        written_at(
            before + files_of(dir, bundle, meta).take(written),
            inside(dir, "meta.json"@),
        ) == written_at(before, inside(dir, "meta.json"@)),
{
    lemma_places(dir);
    let all = files_of(dir, bundle, meta);
    assert(all.take(2).drop_last() == all.take(1));
    assert(all.take(1).drop_last() == all.take(0));
    reveal_with_fuel(written_at, 4);
    lemma_written_at_added(before, all.take(written), inside(dir, "meta.json"@));
}

/// Bytes are written two digits each, one after the other.
pub proof fn bytes_are_written_one_by_one(one: Seq<u8>, other: Seq<u8>, single: u8)
    ensures
        hex_text(one + other) == hex_text(one) + hex_text(other),
        hex_text(seq![single]) == seq![
            hex_digit(single as nat / 16),
            hex_digit(single as nat % 16),
        ],
        hex_text(one).len() == 2 * one.len(),
    decreases other.len(), one.len(),
{
    assert(seq![single].drop_last() == Seq::<u8>::empty());
    assert(hex_text(seq![single].drop_last()) == Seq::<char>::empty());
    if other.len() > 0 {
        assert((one + other).drop_last() == one + other.drop_last());
        bytes_are_written_one_by_one(one, other.drop_last(), single);
    } else {
        assert(one + other == one);
        if one.len() > 0 {
            bytes_are_written_one_by_one(one.drop_last(), other, single);
        }
    }
}

/// A name is made safe character by character: letters, digits, dots and hyphens stay, in
/// lower case, a star becomes a word, and anything else an underscore.
pub proof fn characters_are_made_safe_one_by_one(one: Seq<char>, other: Seq<char>, c: char)
    ensures
        safe_text(one + other) == safe_text(one) + safe_text(other),
        safe_text(seq![c]) == (if 'a' <= c <= 'z' || '0' <= c <= '9' || c == '.' || c == '-' {
            seq![c]
        } else if 'A' <= c <= 'Z' {
            seq![text::lower(c)]
        } else if c == '*' {
            "wildcard"@
        } else {
            seq!['_']
        }),
    decreases other.len(),
{
    assert(seq![c].drop_last() == Seq::<char>::empty());
    assert(safe_text(seq![c].drop_last()) == Seq::<char>::empty());
    if other.len() > 0 {
        assert((one + other).drop_last() == one + other.drop_last());
        characters_are_made_safe_one_by_one(one, other.drop_last(), c);
    } else {
        assert(one + other == one);
    }
}

/// The identifier of a set is told from the names of the whole set, each of them once and
/// in order: it begins with the first, and ends with a digest of them all.
pub proof fn the_identifier_is_of_all_names(
    domains: Seq<(bool, Seq<char>)>,
    sorted: Seq<Seq<char>>,
)
    requires
        text::increasing(sorted),
        forall|t: Seq<char>| #[trigger]
            sorted.contains(t) <==> names::written_names(domains).contains(t),
        domains.len() > 0,
    ensures
        id_of(domains) == safe_text(sorted[0]) + "-"@ + hex_text(
            digest_of(text::utf8(text::join(sorted, ","@))).take(4),
        ),
{
    let written = names::written_names(domains);
    text::ordered_is_the_set(written);
    assert forall|t: Seq<char>| text::ordered(written).contains(t) <==> sorted.contains(t) by {
        assert(text::ordered(written).contains(t) <==> written.contains(t));
    }
    text::increasing_is_unique(text::ordered(written), sorted);
    assert(written.contains(written[0]));
    assert(sorted.contains(written[0]));
}

/// The age of a certificate is the whole days that have passed since it was obtained.
pub proof fn an_age_is_in_whole_days(meta: CertificateMeta, now: u64)
    ensures
        now >= meta.issued_at ==> meta.age(now) * 86400 <= now - meta.issued_at < (meta.age(now)
            + 1) * 86400,
        now <= meta.issued_at ==> meta.age(now) == 0,
{
}

/// Of the files of a certificate, the key is there for its owner alone, the chain and the
/// record for everyone to read, and each is below the directory of the certificate.
pub proof fn a_key_is_for_its_owner_alone(
    dir: Seq<char>,
    bundle: CertificateBundle,
    meta: Seq<u8>,
    i: int,
)
    requires
        0 <= i < files_of(dir, bundle, meta).len(),
    ensures
        ({
            let (name, path, contents, mode) = files_of(dir, bundle, meta)[i];
            &&& path == (if dir.len() == 0 || dir.last() == '/' {
                dir + name
            } else {
                dir + "/"@ + name
            })
            &&& name == "key.pem"@ ==> contents == bundle.key_pem@ && mode == 0o600
            &&& name == "fullchain.pem"@ ==> contents == bundle.chain_pem@ && mode == 0o644
            &&& name == "meta.json"@ ==> contents == meta && mode == 0o644
            &&& name == "key.pem"@ || name == "fullchain.pem"@ || name == "meta.json"@
        }),
        files_of(dir, bundle, meta).len() == 3,
{
    reveal_strlit("key.pem");
    reveal_strlit("fullchain.pem");
    reveal_strlit("meta.json");
    assert("key.pem"@.len() != "fullchain.pem"@.len());
    assert("key.pem"@.len() != "meta.json"@.len());
    assert("meta.json"@.len() != "fullchain.pem"@.len());
}

} // verus!
