//! The configuration as the rest of the library works with it.
//!
//! This is the buffer between how a configuration is written and how it is
//! used: whatever form it is read from, it ends up here.
use crate::lists;
use crate::net::{IpCidr, SocketAddr};
use crate::proxy::glob::Glob;
use crate::proxy::rate_limiting;
use crate::proxy::rate_limiting::{AllRateConfig, RegexShim};
use crate::text;
use crate::tls::store;
use vstd::prelude::*;

verus! {

/// A span of time, in whole milliseconds.
#[derive(Debug, Clone, Copy, PartialEq, Eq, Structural)]
pub struct Duration {
    pub millis: u128,
}

impl Duration {
    /// So many seconds.
    pub fn from_secs(secs: u64) -> (r: Self)
        ensures
            r.millis == secs * 1000,
    {
        Duration { millis: secs as u128 * 1000 }
    }

    /// So many milliseconds.
    pub fn from_millis(millis: u64) -> (r: Self)
        ensures
            r.millis == millis,
    {
        Duration { millis: millis as u128 }
    }

    /// The whole seconds in it.
    pub fn as_secs(&self) -> (r: u128)
        ensures
            r == self.millis / 1000,
    {
        self.millis / 1000
    }

    /// Is it no time at all?
    pub fn is_zero(&self) -> (r: bool)
        ensures
            r == (self.millis == 0),
    {
        self.millis == 0
    }
}

/// The whole configuration.
#[derive(Debug, Clone)]
pub struct Config {
    pub validate_configs: bool,
    pub threads_per_service: usize,
    pub daemonize: bool,
    pub pid_file: Option<String>,
    pub upgrade_socket: Option<String>,
    pub upgrade: bool,
    pub basic_proxies: Vec<ProxyConfig>,
    pub file_servers: Vec<FileServerConfig>,
    /// Account-level ACME settings, when any listener manages domains.
    pub acme: Option<AcmeConfig>,
}

/// The rate limiting rules of a service.
#[derive(Debug, Clone, PartialEq)]
pub struct RateLimitingConfig {
    pub rules: Vec<AllRateConfig>,
}

/// Account-level settings for automatic certificate management. Which domains
/// are managed is set per listener.
#[derive(Debug, Clone, PartialEq)]
pub struct AcmeConfig {
    /// The ACME server to obtain certificates from.
    pub directory: AcmeDirectory,
    /// Contact URIs registered with the account.
    pub contacts: Vec<String>,
    /// Set when the operator has agreed to the CA's terms of service.
    pub accept_terms_of_service: bool,
    /// Where the account key and issued certificates are kept.
    pub store_dir: String,
    /// When certificates should be renewed.
    pub renewal: RenewalPolicy,
    /// The challenge used for domains without a more specific setting.
    pub default_challenge: ChallengeKind,
    /// An optional listener dedicated to answering HTTP-01 challenges.
    pub challenge_listener: Option<String>,
    /// How long to wait after a DNS-01 hook returns, before asking the CA to
    /// check.
    pub dns_propagation_seconds: u32,
    /// Per-domain overrides of the default challenge.
    pub domains: Vec<AcmeDomainConfig>,
}

/// The ACME server to talk to.
#[derive(Debug, Clone, PartialEq)]
pub enum AcmeDirectory {
    LetsEncrypt,
    LetsEncryptStaging,
    /// A directory URL, for any other CA or for a test server.
    Custom(String),
}

/// When a certificate should be replaced: counting backward from when it
/// expires, or forward from when it was obtained.
#[derive(Debug, Clone, Copy, PartialEq, Eq, Structural)]
pub enum RenewalPolicy {
    /// Renew once fewer than this many days remain before expiry.
    BeforeExpiry { days: u32 },
    /// Renew once this many days have passed since the certificate was issued.
    AfterIssue { days: u32 },
}

/// How control of a domain is proved.
#[derive(Debug, Clone, Copy, PartialEq, Eq, Structural)]
pub enum ChallengeKind {
    /// Serve a token over plain HTTP on port 80.
    Http01,
    /// Publish a TXT record, via an operator-supplied hook. Required for
    /// wildcard domains.
    Dns01,
}

/// Settings that apply to one managed domain rather than to all of them.
#[derive(Debug, Clone, PartialEq)]
pub struct AcmeDomainConfig {
    /// The domain this applies to, exactly as it appears in `acme-domains`.
    pub domain: String,
    /// The challenge to use for this domain.
    pub challenge: ChallengeKind,
    /// The program run to publish and remove DNS-01 TXT records.
    pub dns_hook: Option<String>,
}

/// How a filter answers a request it has decided to reject.
#[derive(Debug, PartialEq, Eq)]
pub struct Rejection {
    /// The HTTP status sent downstream.
    pub status: u16,
    /// Sent as the response body, when set.
    pub body: Option<String>,
}

impl Clone for Rejection {
    fn clone(&self) -> (r: Self)
        ensures
            r == *self,
    {
        Rejection {
            status: self.status,
            body: match &self.body {
                Some(b) => Some(b.clone()),
                None => None,
            },
        }
    }
}

impl Rejection {
    /// The HTTP status sent downstream.
    pub fn status(&self) -> (r: u16)
        ensures
            r == self.status,
    {
        self.status
    }
}

/// Which checks a request goes through before anything else looks at it.
#[derive(Debug, Clone, PartialEq, Eq)]
pub struct Normalization {
    /// Reject header values holding bytes outside US-ASCII.
    pub header_non_ascii: bool,
    /// Require one `Host` header that agrees with the request line.
    pub host: bool,
    /// Reject control characters in the path.
    pub control_characters: bool,
    /// Reject malformed percent-encodings, and decode unreserved characters.
    pub percent_encoding: bool,
    /// Reject an encoded `/` or `\` in the path.
    pub encoded_separators: bool,
    /// Collapse runs of `/`.
    pub duplicate_slashes: bool,
    /// Resolve `.` and `..`.
    pub dot_segments: bool,
    /// How a request that fails a check is answered.
    pub rejection: Rejection,
}

impl Normalization {
    /// Every check on or off alike.
    pub open spec fn all(self, on: bool) -> bool {
        self.header_non_ascii == on && self.host == on && self.control_characters == on
            && self.percent_encoding == on && self.encoded_separators == on
            && self.duplicate_slashes == on && self.dot_segments == on
    }

    /// Is there nothing to check?
    pub fn is_noop(&self) -> (r: bool)
        ensures
            r == self.all(false),
    {
        !(self.header_non_ascii || self.host || self.control_characters || self.percent_encoding
            || self.encoded_separators || self.duplicate_slashes || self.dot_segments)
    }
}

impl Default for Normalization {
    /// Everything but the check on header values, and `400` as the answer.
    fn default() -> (r: Self)
        ensures
            !r.header_non_ascii && r.host && r.control_characters && r.percent_encoding
                && r.encoded_separators && r.duplicate_slashes && r.dot_segments,
            r.rejection == (Rejection { status: 400, body: None }),
    {
        Normalization {
            header_non_ascii: false,
            host: true,
            control_characters: true,
            percent_encoding: true,
            encoded_separators: true,
            duplicate_slashes: true,
            dot_segments: true,
            rejection: Rejection { status: 400, body: None },
        }
    }
}

/// How much work a service is willing to take on at once.
#[derive(Debug, Clone, PartialEq, Eq)]
pub struct OverloadConfig {
    /// Requests handled at once.
    pub max_concurrent_requests: Option<usize>,
    /// Headers that a request may have.
    pub max_headers: Option<usize>,
    /// Bytes that the names and values of a request's headers may add up to.
    pub max_header_bytes: Option<usize>,
    /// How long a client may take over sending.
    pub read_timeout: Option<Duration>,
    /// How long a client may take over receiving.
    pub write_timeout: Option<Duration>,
    /// How long is spent reading what is left of a request after its response.
    pub drain_timeout: Option<Duration>,
    /// Bytes per second below which a client counts as too slow.
    pub min_send_rate: Option<usize>,
    /// How a request that is shed is answered.
    pub rejection: Rejection,
}

impl OverloadConfig {
    /// Is nothing limited?
    pub open spec fn unlimited(self) -> bool {
        self.max_concurrent_requests is None && self.max_headers is None
            && self.max_header_bytes is None && self.read_timeout is None
            && self.write_timeout is None && self.drain_timeout is None
            && self.min_send_rate is None
    }

    /// Is nothing limited?
    pub fn is_noop(&self) -> (r: bool)
        ensures
            r == self.unlimited(),
    {
        self.max_concurrent_requests.is_none() && self.max_headers.is_none()
            && self.max_header_bytes.is_none() && self.read_timeout.is_none()
            && self.write_timeout.is_none() && self.drain_timeout.is_none()
            && self.min_send_rate.is_none()
    }
}

impl Default for OverloadConfig {
    /// No limits, and `503` as the answer.
    fn default() -> (r: Self)
        ensures
            r.unlimited(),
            r.rejection == (Rejection { status: 503, body: None }),
    {
        OverloadConfig {
            max_concurrent_requests: None,
            max_headers: None,
            max_header_bytes: None,
            read_timeout: None,
            write_timeout: None,
            drain_timeout: None,
            min_send_rate: None,
            rejection: Rejection { status: 503, body: None },
        }
    }
}

/// The modifiers applied at each stage of the request lifecycle. Each list runs
/// in the order it was written in the configuration file.
#[derive(Debug, Clone, PartialEq)]
pub struct PathControl {
    pub request_filters: Vec<RequestFilterConfig>,
    pub upstream_request_filters: Vec<RequestModifierConfig>,
    pub upstream_response_filters: Vec<ResponseModifierConfig>,
    /// Applied to the response on its way downstream.
    pub response_filters: Vec<ResponseModifierConfig>,
    /// Bounds the size of a request body.
    pub request_body_limit: Option<BodySizeLimit>,
    /// Bounds the size of a response body.
    pub response_body_limit: Option<BodySizeLimit>,
}

impl PathControl {
    /// Nothing configured at any stage.
    pub open spec fn is_empty(self) -> bool {
        self.request_filters@.len() == 0 && self.upstream_request_filters@.len() == 0
            && self.upstream_response_filters@.len() == 0 && self.response_filters@.len() == 0
            && self.request_body_limit is None && self.response_body_limit is None
    }
}

impl Default for PathControl {
    fn default() -> (r: Self)
        ensures
            r.is_empty(),
    {
        PathControl {
            request_filters: Vec::new(),
            upstream_request_filters: Vec::new(),
            upstream_response_filters: Vec::new(),
            response_filters: Vec::new(),
            request_body_limit: None,
            response_body_limit: None,
        }
    }
}

/// A bound on how large a body may be. The body stages count and reject; they
/// do not rewrite.
#[derive(Debug, Clone, Copy, PartialEq, Eq, Structural)]
pub struct BodySizeLimit {
    /// Bytes allowed before the request is rejected.
    pub max_bytes: usize,
    /// The status sent downstream once the limit is passed.
    pub status: u16,
}

/// A filter at the "downstream request arrival" stage.
#[derive(Debug, Clone, PartialEq)]
pub enum RequestFilterConfig {
    /// Reject a request whose client address falls inside any of these ranges.
    BlockCidr { blocks: Vec<IpCidr>, rejection: Rejection },
    /// Reject a request whose client address falls outside all of these ranges.
    AllowCidr { blocks: Vec<IpCidr>, rejection: Rejection },
}

/// A change made to a request's headers or a response's headers.
#[derive(Debug, Clone, PartialEq)]
#[allow(inconsistent_fields)]
pub enum HeaderModifier {
    /// Remove every header whose name matches the regular expression.
    RemoveHeaderKeyRegex { pattern: RegexShim },
    /// Remove every header whose name matches the glob.
    RemoveHeaderKeyGlob { pattern: Glob },
    /// Remove this one header.
    RemoveHeader { key: String },
    /// Add the header, replacing any existing value.
    UpsertHeader { key: String, value: Vec<u8> },
    /// Add the header, keeping any existing value alongside it.
    AppendHeader { key: String, value: Vec<u8> },
}

pub type RequestModifierConfig = HeaderModifier;

pub type ResponseModifierConfig = HeaderModifier;

/// How the address that a request came from is worked out. Absent at the edge,
/// where the peer address is the client's.
#[derive(Debug, Clone, PartialEq)]
pub struct ClientIpConfig {
    /// Peers whose forwarding header is believed.
    pub trusted_proxies: Vec<IpCidr>,
    /// The header the client address is read from.
    pub header: String,
}

/// A service that serves files.
#[derive(Debug, Clone, PartialEq)]
pub struct FileServerConfig {
    pub name: String,
    pub listeners: Vec<ListenerConfig>,
    pub base_path: Option<String>,
}

/// A service that proxies requests.
#[derive(Debug, Clone, PartialEq)]
pub struct ProxyConfig {
    pub name: String,
    pub listeners: Vec<ListenerConfig>,
    /// Which requests go to which set of upstream servers.
    pub routes: Vec<RouteConfig>,
    /// The answer when no route matches the request.
    pub no_route: Rejection,
    /// How the client address is worked out, when there is a proxy in front.
    pub client_ip: Option<ClientIpConfig>,
    pub normalization: Normalization,
    pub overload: OverloadConfig,
    pub path_control: PathControl,
    pub rate_limiting: RateLimitingConfig,
}

/// One route: the requests it claims, and the servers it sends them to.
#[derive(Debug, Clone, PartialEq)]
pub struct RouteConfig {
    pub matcher: RouteMatch,
    /// Only requests using one of these methods match this route. Empty means
    /// any method.
    pub methods: Vec<String>,
    pub upstream_options: UpstreamOptions,
    pub upstreams: Vec<UpstreamConfig>,
}

/// How a route decides whether it claims a request.
#[derive(Debug, Clone, PartialEq)]
pub enum RouteMatch {
    /// Claims every request.
    Any,
    /// The URI path is exactly this.
    Exact { path: String },
    /// The URI path is this, or continues after it at a segment boundary.
    Prefix { path: String },
    /// The URI path matches this expression.
    Regex { pattern: RegexShim },
}

/// One source of upstream servers.
#[derive(Debug, Clone, PartialEq)]
pub struct UpstreamConfig {
    pub kind: UpstreamKind,
    /// How to connect to whatever this source discovers.
    pub peer: PeerTemplate,
}

/// Where a source's list of servers comes from.
#[derive(Debug, Clone, PartialEq)]
pub enum UpstreamKind {
    /// A single address, written out in the configuration file.
    Static { addr: SocketAddr },
    /// Every address behind a hostname's A and AAAA records.
    Dns { host: String, port: u16, refresh: RefreshPolicy },
    /// Every target named by a `_service._proto.name` SRV record set.
    Srv { name: String, refresh: RefreshPolicy },
}

/// How often a source is re-resolved.
#[derive(Debug, Clone, Copy, PartialEq, Eq, Structural)]
pub struct RefreshPolicy {
    pub kind: RefreshKind,
    /// Never re-resolve more often than this.
    pub min: Duration,
    /// Always re-resolve at least this often.
    pub max: Duration,
}

/// Where the interval between re-resolutions comes from.
#[derive(Debug, Clone, Copy, PartialEq, Eq, Structural)]
pub enum RefreshKind {
    /// From the TTL of the records that were returned.
    Ttl,
    /// From the configuration file, ignoring the TTL.
    Fixed(Duration),
}

/// The protocols offered to an upstream server.
#[derive(Debug, Clone, Copy, PartialEq, Eq, Structural)]
pub enum ALPN {
    H1,
    H2,
    H2H1,
}

/// How to connect to a server, once one has been discovered.
#[derive(Debug, Clone, PartialEq)]
pub struct PeerTemplate {
    /// Whether to connect over TLS, and if so how the name is chosen.
    pub tls: TlsName,
    pub alpn: ALPN,
    pub timeouts: PeerTimeouts,
}

/// The name sent when connecting to an upstream server over TLS.
#[derive(Debug, Clone, PartialEq, Eq)]
pub enum TlsName {
    /// Connect without TLS.
    Plain,
    /// Connect over TLS, sending this name.
    Fixed(String),
    /// Connect over TLS, sending the name the server was discovered under.
    Discovered,
}

/// Timeouts applied to connections to an upstream server.
#[derive(Debug, Clone, Copy, PartialEq, Eq, Structural)]
pub struct PeerTimeouts {
    /// Establishing the TCP connection.
    pub connection: Option<Duration>,
    /// Establishing the connection including the TLS handshake.
    pub total_connection: Option<Duration>,
    /// Waiting for data from the upstream, which bounds a request.
    pub read: Option<Duration>,
    /// Writing data to the upstream.
    pub write: Option<Duration>,
    /// How long an unused pooled connection is kept.
    pub idle: Option<Duration>,
}

/// Everything needed to connect to one upstream server.
#[derive(Debug, PartialEq)]
pub struct Peer {
    pub addr: SocketAddr,
    pub tls: bool,
    pub sni: String,
    pub alpn: ALPN,
    pub timeouts: PeerTimeouts,
}

impl Clone for Peer {
    fn clone(&self) -> (r: Self)
        ensures
            r == *self,
    {
        Peer {
            addr: self.addr,
            tls: self.tls,
            sni: self.sni.clone(),
            alpn: self.alpn,
            timeouts: self.timeouts,
        }
    }
}

/// The certificates of a TLS listener.
#[derive(Debug, PartialEq, Clone)]
pub struct TlsConfig {
    /// A certificate and key loaded from disk.
    pub cert: Option<CertKeyPaths>,
    /// Domains that certificates are obtained and renewed for over ACME.
    pub acme_domains: Vec<String>,
}

/// Where a certificate and its key are.
#[derive(Debug, PartialEq, Clone)]
pub struct CertKeyPaths {
    pub cert_path: String,
    pub key_path: String,
}

/// One listener of a service.
#[derive(Debug, PartialEq, Clone)]
pub struct ListenerConfig {
    pub source: ListenerKind,
}

/// What a listener binds.
#[derive(Debug, PartialEq, Clone)]
pub enum ListenerKind {
    Tcp { addr: String, tls: Option<TlsConfig>, offer_h2: bool },
    Uds(String),
}

/// What picks the server that a request is sent to, where the choice depends on
/// the request.
#[derive(Debug, Clone, Copy, PartialEq, Eq, Structural)]
pub enum RequestSelector {
    /// Nothing in the request counts.
    Null,
    /// The path of the request.
    UriPath,
    /// The address of the client, and the path of the request.
    SourceAddrAndUriPath,
}

/// How a route balances its servers.
#[derive(Debug, Clone, PartialEq)]
pub struct UpstreamOptions {
    pub selection: SelectionKind,
    pub selector: RequestSelector,
    pub health_checks: HealthCheckKind,
}

/// How the next server is selected.
#[derive(Debug, PartialEq, Eq, Clone, Copy, Structural)]
pub enum SelectionKind {
    RoundRobin,
    Random,
    Fnv,
    Ketama,
}

/// How it is decided whether an upstream server is fit to receive traffic.
#[derive(Debug, PartialEq, Clone)]
pub enum HealthCheckKind {
    /// Every discovered server is assumed healthy.
    Off,
    /// Open a connection and close it again.
    Tcp {
        settings: HealthCheckSettings,
        /// When set, complete a TLS handshake with this name as well.
        sni: Option<String>,
    },
    /// Make a request and check the response status.
    Http {
        settings: HealthCheckSettings,
        /// Value of the `Host` header, and the name sent when `tls` is set.
        host: String,
        /// Request path.
        path: String,
        tls: bool,
        /// The status that counts as healthy.
        expect_status: u16,
        /// Check a different port than the one traffic is sent to.
        port: Option<u16>,
        /// Reuse the connection between checks.
        reuse_connection: bool,
    },
}

/// The parts of health checking that do not depend on the kind of check.
#[derive(Debug, Clone, Copy, PartialEq, Eq, Structural)]
pub struct HealthCheckSettings {
    /// How often every server is checked.
    pub frequency: Duration,
    /// How long one check may take before it counts as a failure.
    pub timeout: Duration,
    /// Checks that must pass in a row before an unhealthy server is used again.
    pub consecutive_success: usize,
    /// Checks that must fail in a row before a healthy server is taken out.
    pub consecutive_failure: usize,
    /// Check every server at once, rather than one after another.
    pub parallel: bool,
}

/// The domains that one listener manages over ACME.
pub open spec fn listener_domains(l: ListenerConfig) -> Seq<Seq<char>> {
    match l.source {
        ListenerKind::Tcp { tls: Some(tls), .. } => text::texts(tls.acme_domains@),
        _ => Seq::empty(),
    }
}

/// The domains that listeners manage over ACME, in order.
pub open spec fn domains_of(listeners: Seq<ListenerConfig>) -> Seq<Seq<char>>
    decreases listeners.len(),
{
    if listeners.len() == 0 {
        Seq::empty()
    } else {
        domains_of(listeners.drop_last()) + listener_domains(listeners.last())
    }
}

/// The domains that proxies manage over ACME, in order.
pub open spec fn proxy_domains(proxies: Seq<ProxyConfig>) -> Seq<Seq<char>>
    decreases proxies.len(),
{
    if proxies.len() == 0 {
        Seq::empty()
    } else {
        proxy_domains(proxies.drop_last()) + domains_of(proxies.last().listeners@)
    }
}

/// The domains that file servers manage over ACME, in order.
pub open spec fn file_server_domains(servers: Seq<FileServerConfig>) -> Seq<Seq<char>>
    decreases servers.len(),
{
    if servers.len() == 0 {
        Seq::empty()
    } else {
        file_server_domains(servers.drop_last()) + domains_of(servers.last().listeners@)
    }
}

fn add_domains(out: &mut Vec<String>, listeners: &[ListenerConfig])
    ensures
        text::texts(final(out)@) == text::texts(old(out)@) + domains_of(listeners@),
{
    let ghost start = text::texts(out@);
    let mut i: usize = 0;
    assert(start + Seq::<Seq<char>>::empty() == start);
    while i < listeners.len()
        invariant
            i <= listeners@.len(),
            text::texts(out@) == start + domains_of(listeners@.take(i as int)),
        decreases listeners@.len() - i,
    {
        let ghost so_far = text::texts(out@);
        let ghost next = listeners@.take(i + 1);
        assert(next.drop_last() == listeners@.take(i as int));
        assert(next.last() == listeners@[i as int]);
        match &listeners[i].source {
            ListenerKind::Tcp { tls: Some(tls), .. } => {
                let mut k: usize = 0;
                let ghost all = text::texts(tls.acme_domains@);
                assert(all.take(0) == Seq::<Seq<char>>::empty());
                assert(so_far + Seq::<Seq<char>>::empty() == so_far);
                while k < tls.acme_domains.len()
                    invariant
                        k <= tls.acme_domains@.len(),
                        all == text::texts(tls.acme_domains@),
                        text::texts(out@) == so_far + all.take(k as int),
                    decreases tls.acme_domains@.len() - k,
                {
                    let ghost before = out@;
                    out.push(tls.acme_domains[k].clone());
                    assert(text::texts(out@) == text::texts(before).push(all[k as int]));
                    assert(all.take(k + 1) == all.take(k as int).push(all[k as int]));
                    k = k + 1;
                }
                assert(all.take(all.len() as int) == all);
                assert(listener_domains(next.last()) == all);
            },
            _ => {
                assert(listener_domains(next.last()) == Seq::<Seq<char>>::empty());
                assert(so_far + Seq::<Seq<char>>::empty() == so_far);
            },
        }
        assert(text::texts(out@) == start + domains_of(next));
        i = i + 1;
    }
    assert(listeners@.take(listeners@.len() as int) == listeners@);
}

/// Can this listener be reached without TLS?
pub open spec fn is_plaintext(l: ListenerConfig) -> bool {
    match l.source {
        ListenerKind::Tcp { tls, .. } => tls is None,
        ListenerKind::Uds(_) => true,
    }
}

/// Can this set of listeners answer an HTTP-01 challenge?
///
/// A certificate authority validates `http-01` over plain HTTP, so only a
/// listener without TLS can serve one. A service that might be needed to answer
/// a challenge must not wait for the thing that is waiting on the challenge.
pub fn serves_plaintext(listeners: &[ListenerConfig]) -> (r: bool)
    ensures
        r == (exists|i: int| 0 <= i < listeners@.len() && is_plaintext(#[trigger] listeners@[i])),
{
    let mut i: usize = 0;
    while i < listeners.len()
        invariant
            i <= listeners@.len(),
            forall|k: int| 0 <= k < i ==> !is_plaintext(#[trigger] listeners@[k]),
        decreases listeners@.len() - i,
    {
        let plain = match &listeners[i].source {
            ListenerKind::Tcp { tls, .. } => tls.is_none(),
            ListenerKind::Uds(_) => true,
        };
        if plain {
            assert(is_plaintext(listeners@[i as int]));
            return true;
        }
        i = i + 1;
    }
    false
}

/// The command line side of the server's settings.
#[derive(Debug, Clone, Copy, PartialEq, Eq, Structural)]
pub struct ServerOpt {
    pub upgrade: bool,
    pub daemon: bool,
    pub nocapture: bool,
    pub test: bool,
}

/// The configuration file side of the server's settings.
#[derive(Debug, Clone, PartialEq, Eq)]
pub struct ServerConf {
    pub daemon: bool,
    pub pid_file: String,
    pub upgrade_sock: String,
    pub threads: usize,
    pub work_stealing: bool,
}

/// Why a configuration cannot be run.
#[derive(Debug, Clone, Copy, PartialEq, Eq, Structural)]
pub enum Invalid {
    RelativePidFile,
    MissingPidFile,
    UpgradeUnsupported,
    RelativeUpgradeSocket,
    MissingUpgradeSocket,
    RelativeStoreDir,
}

/// What is odd about a configuration that can be run.
#[derive(Debug, Clone, Copy, PartialEq, Eq, Structural)]
pub enum Warning {
    RelativePidFile,
    RelativeUpgradeSocket,
    NoAcmeDomains,
}

/// An absolute path starts at the root.
pub open spec fn is_absolute_path(path: Seq<char>) -> bool {
    path.len() > 0 && path[0] == '/'
}

/// Does the path start at the root?
pub fn is_absolute(path: &str) -> (r: bool)
    ensures
        r == is_absolute_path(path@),
{
    let chars = text::chars_of(path);
    chars.len() > 0 && chars[0] == '/'
}

impl Config {
    /// Every domain named by any listener's `acme-domains`, proxies first.
    pub open spec fn managed_domains(self) -> Seq<Seq<char>> {
        proxy_domains(self.basic_proxies@) + file_server_domains(self.file_servers@)
    }

    /// Every domain named by any listener's `acme-domains`.
    ///
    /// Duplicates are preserved: the same domain appearing on two listeners is
    /// unusual but not wrong, and the caller decides what to make of it.
    pub fn acme_domains(&self) -> (r: Vec<String>)
        ensures
            text::texts(r@) == self.managed_domains(),
    {
        let mut out: Vec<String> = Vec::new();
        let mut i: usize = 0;
        assert(text::texts(out@) == Seq::<Seq<char>>::empty());
        while i < self.basic_proxies.len()
            invariant
                i <= self.basic_proxies@.len(),
                text::texts(out@) == proxy_domains(self.basic_proxies@.take(i as int)),
            decreases self.basic_proxies@.len() - i,
        {
            let ghost next = self.basic_proxies@.take(i + 1);
            assert(next.drop_last() == self.basic_proxies@.take(i as int));
            add_domains(&mut out, &self.basic_proxies[i].listeners);
            i = i + 1;
        }
        assert(self.basic_proxies@.take(self.basic_proxies@.len() as int) == self.basic_proxies@);
        let ghost first = text::texts(out@);
        let mut k: usize = 0;
        assert(first + Seq::<Seq<char>>::empty() == first);
        while k < self.file_servers.len()
            invariant
                k <= self.file_servers@.len(),
                text::texts(out@) == first + file_server_domains(
                    self.file_servers@.take(k as int),
                ),
            decreases self.file_servers@.len() - k,
        {
            let ghost next = self.file_servers@.take(k + 1);
            assert(next.drop_last() == self.file_servers@.take(k as int));
            let ghost before = file_server_domains(self.file_servers@.take(k as int));
            let ghost more = domains_of(self.file_servers@[k as int].listeners@);
            add_domains(&mut out, &self.file_servers[k].listeners);
            assert((first + before) + more == first + (before + more));
            k = k + 1;
        }
        assert(self.file_servers@.take(self.file_servers@.len() as int) == self.file_servers@);
        out
    }

    /// The command line side of the server's settings.
    pub fn pingora_opt(&self) -> (r: ServerOpt)
        ensures
            r == (ServerOpt {
                upgrade: self.upgrade,
                daemon: self.daemonize,
                nocapture: false,
                test: self.validate_configs,
            }),
    {
        ServerOpt {
            upgrade: self.upgrade,
            daemon: self.daemonize,
            nocapture: false,
            test: self.validate_configs,
        }
    }

    /// The configuration file side of the server's settings.
    pub fn pingora_server_conf(&self) -> (r: ServerConf)
        ensures
            r.daemon == self.daemonize,
            r.threads == self.threads_per_service,
            r.work_stealing,
            r.pid_file@ == (match self.pid_file {
                Some(p) => p@,
                None => "/tmp/river.pidfile"@,
            }),
            r.upgrade_sock@ == (match self.upgrade_socket {
                Some(p) => p@,
                None => "/tmp/river-upgrade.sock"@,
            }),
    {
        ServerConf {
            daemon: self.daemonize,
            pid_file: match &self.pid_file {
                Some(p) => p.clone(),
                None => "/tmp/river.pidfile".to_owned(),
            },
            upgrade_sock: match &self.upgrade_socket {
                Some(p) => p.clone(),
                None => "/tmp/river-upgrade.sock".to_owned(),
            },
            threads: self.threads_per_service,
            work_stealing: true,
        }
    }

    /// Why the configuration cannot be run, if it cannot. `linux` says whether
    /// the server runs on Linux, the one system that can be upgraded in place.
    pub open spec fn fault(self, linux: bool) -> Option<Invalid> {
        if self.daemonize && self.pid_file is None {
            Some(Invalid::MissingPidFile)
        } else if self.daemonize && !is_absolute_path(self.pid_file->0@) {
            Some(Invalid::RelativePidFile)
        } else if self.upgrade && !linux {
            Some(Invalid::UpgradeUnsupported)
        } else if self.upgrade && self.upgrade_socket is None {
            Some(Invalid::MissingUpgradeSocket)
        } else if self.upgrade && !is_absolute_path(self.upgrade_socket->0@) {
            Some(Invalid::RelativeUpgradeSocket)
        } else if self.acme is Some && !is_absolute_path(self.acme->0.store_dir@) {
            Some(Invalid::RelativeStoreDir)
        } else {
            None
        }
    }

    /// What is odd about the configuration, in order.
    pub open spec fn oddities(self) -> Seq<Warning> {
        let pid = if !self.daemonize && self.pid_file is Some && !is_absolute_path(
            self.pid_file->0@,
        ) {
            seq![Warning::RelativePidFile]
        } else {
            Seq::empty()
        };
        let socket = if !self.upgrade && self.upgrade_socket is Some && !is_absolute_path(
            self.upgrade_socket->0@,
        ) {
            seq![Warning::RelativeUpgradeSocket]
        } else {
            Seq::empty()
        };
        let domains = if self.acme is Some && self.managed_domains().len() == 0 {
            seq![Warning::NoAcmeDomains]
        } else {
            Seq::empty()
        };
        pid + socket + domains
    }

    /// Checks what the parts of a configuration ask of one another.
    ///
    /// Paths have to be absolute because the working directory changes when the
    /// server daemonizes.
    pub fn validate(&self, linux: bool) -> (r: Result<Vec<Warning>, Invalid>)
        ensures
            match r {
                Ok(warnings) => self.fault(linux) is None && warnings@ == self.oddities(),
                Err(why) => self.fault(linux) == Some(why),
            },
    {
        let mut warnings: Vec<Warning> = Vec::new();
        match &self.pid_file {
            Some(path) => {
                if !is_absolute(path.as_str()) {
                    if self.daemonize {
                        return Err(Invalid::RelativePidFile);
                    }
                    warnings.push(Warning::RelativePidFile);
                }
            },
            None => {
                if self.daemonize {
                    return Err(Invalid::MissingPidFile);
                }
            },
        }
        if self.upgrade && !linux {
            return Err(Invalid::UpgradeUnsupported);
        }
        match &self.upgrade_socket {
            Some(path) => {
                if !is_absolute(path.as_str()) {
                    if self.upgrade {
                        return Err(Invalid::RelativeUpgradeSocket);
                    }
                    warnings.push(Warning::RelativeUpgradeSocket);
                }
            },
            None => {
                if self.upgrade {
                    return Err(Invalid::MissingUpgradeSocket);
                }
            },
        }
        match &self.acme {
            Some(acme) => {
                if !is_absolute(acme.store_dir.as_str()) {
                    return Err(Invalid::RelativeStoreDir);
                }
                let domains = self.acme_domains();
                if domains.len() == 0 {
                    warnings.push(Warning::NoAcmeDomains);
                }
            },
            None => {},
        }
        assert(warnings@ == self.oddities());
        Ok(warnings)
    }
}

impl Default for Config {
    fn default() -> (r: Self)
        ensures
            !r.validate_configs && !r.daemonize && !r.upgrade,
            r.threads_per_service == 8,
            r.pid_file is None && r.upgrade_socket is None && r.acme is None,
            r.basic_proxies@.len() == 0 && r.file_servers@.len() == 0,
    {
        Config {
            validate_configs: false,
            threads_per_service: 8,
            daemonize: false,
            pid_file: None,
            upgrade_socket: None,
            upgrade: false,
            basic_proxies: Vec::new(),
            file_servers: Vec::new(),
            acme: None,
        }
    }
}

impl AcmeDirectory {
    /// Where the directory is.
    pub open spec fn location(self) -> Seq<char> {
        match self {
            AcmeDirectory::LetsEncrypt => "https://acme-v02.api.letsencrypt.org/directory"@,
            AcmeDirectory::LetsEncryptStaging =>
                "https://acme-staging-v02.api.letsencrypt.org/directory"@,
            AcmeDirectory::Custom(url) => url@,
        }
    }

    /// Where the directory is.
    pub fn url(&self) -> (r: &str)
        ensures
            r@ == self.location(),
    {
        match self {
            AcmeDirectory::LetsEncrypt => "https://acme-v02.api.letsencrypt.org/directory",
            AcmeDirectory::LetsEncryptStaging =>
                "https://acme-staging-v02.api.letsencrypt.org/directory",
            AcmeDirectory::Custom(url) => url.as_str(),
        }
    }
}

impl Default for RenewalPolicy {
    /// With a third of a ninety day lifetime left.
    fn default() -> (r: Self)
        ensures
            r == (RenewalPolicy::BeforeExpiry { days: 30 }),
    {
        RenewalPolicy::BeforeExpiry { days: 30 }
    }
}

impl ChallengeKind {
    /// The name that ACME has for the challenge.
    pub open spec fn words(self) -> Seq<char> {
        match self {
            ChallengeKind::Http01 => "http-01"@,
            ChallengeKind::Dns01 => "dns-01"@,
        }
    }

    /// The name that ACME has for the challenge.
    pub fn as_str(&self) -> (r: &'static str)
        ensures
            r@ == self.words(),
    {
        match self {
            ChallengeKind::Http01 => "http-01",
            ChallengeKind::Dns01 => "dns-01",
        }
    }
}

/// The first override that speaks of the domain, in canonical form.
pub open spec fn override_for(domains: Seq<AcmeDomainConfig>, domain: Seq<char>) -> Option<int>
    decreases domains.len(),
{
    if domains.len() == 0 {
        None
    } else {
        match override_for(domains.drop_last(), domain) {
            Some(i) => Some(i),
            None => if store::canonical_name(domains.last().domain@) == store::canonical_name(
                domain,
            ) {
                Some(domains.len() - 1)
            } else {
                None
            },
        }
    }
}

impl AcmeConfig {
    /// The challenge used for a domain, and the hook that goes with it.
    pub open spec fn challenge_of(self, domain: Seq<char>) -> (ChallengeKind, Option<String>) {
        match override_for(self.domains@, domain) {
            Some(i) => (self.domains@[i].challenge, self.domains@[i].dns_hook),
            None => (self.default_challenge, None),
        }
    }

    /// The challenge to use for `domain`, and the hook to run if it is DNS-01.
    pub fn challenge_for(&self, domain: &str) -> (r: (ChallengeKind, Option<&String>))
        ensures
            r.0 == self.challenge_of(domain@).0,
            match r.1 {
                Some(hook) => self.challenge_of(domain@).1 == Some(*hook),
                None => self.challenge_of(domain@).1 is None,
            },
    {
        let normalized = store::normalize(domain);
        let mut i: usize = 0;
        while i < self.domains.len()
            invariant
                i <= self.domains@.len(),
                normalized@ == store::canonical_name(domain@),
                override_for(self.domains@.take(i as int), domain@) is None,
            decreases self.domains@.len() - i,
        {
            let ghost next = self.domains@.take(i + 1);
            assert(next.drop_last() == self.domains@.take(i as int));
            assert(next.last() == self.domains@[i as int]);
            let name = store::normalize(self.domains[i].domain.as_str());
            if text::same_text(name.as_str(), normalized.as_str()) {
                proof {
                    lemma_override_is_final(self.domains@, i + 1, domain@);
                }
                return (self.domains[i].challenge, self.domains[i].dns_hook.as_ref());
            }
            i = i + 1;
        }
        assert(self.domains@.take(self.domains@.len() as int) == self.domains@);
        (self.default_challenge, None)
    }
}

proof fn lemma_override_is_final(domains: Seq<AcmeDomainConfig>, n: int, domain: Seq<char>)
    requires
        0 <= n <= domains.len(),
        override_for(domains.take(n), domain) is Some,
    ensures
        override_for(domains, domain) == override_for(domains.take(n), domain),
    decreases domains.len() - n,
{
    if n < domains.len() {
        assert(domains.take(n + 1).drop_last() == domains.take(n));
        lemma_override_is_final(domains, n + 1, domain);
    } else {
        assert(domains.take(n) == domains);
    }
}

impl RouteMatch {
    /// The paths that the route claims.
    pub open spec fn claims(self, path: Seq<char>) -> bool {
        match self {
            RouteMatch::Any => true,
            RouteMatch::Exact { path: want } => path == want@,
            RouteMatch::Prefix { path: want } => text::has_prefix(path, want@) && (path.len()
                == want@.len() || want@.len() > 0 && want@.last() == '/' || path[want@.len() as int]
                == '/'),
            RouteMatch::Regex { pattern } => rate_limiting::regex_finds(pattern.source(), path),
        }
    }

    /// Does this route claim the given path?
    ///
    /// A prefix stops at a segment boundary: `/api` claims `/api` and
    /// `/api/users`, but not `/apiary`.
    pub fn matches(&self, path: &str) -> (r: bool)
        ensures
            r == self.claims(path@),
    {
        match self {
            RouteMatch::Any => true,
            RouteMatch::Exact { path: want } => text::same_text(path, want.as_str()),
            RouteMatch::Prefix { path: want } => {
                if !text::starts_with(path, want.as_str()) {
                    return false;
                }
                let have = text::chars_of(path);
                let need = text::chars_of(want.as_str());
                have.len() == need.len() || (need.len() > 0 && need[need.len() - 1] == '/')
                    || have[need.len()] == '/'
            },
            RouteMatch::Regex { pattern } => pattern.is_match(path),
        }
    }

    /// Where the route stands in the order that routes are tried in.
    pub open spec fn rank(self) -> (u8, usize) {
        match self {
            RouteMatch::Exact { .. } => (0, 0),
            RouteMatch::Prefix { path } => (
                1,
                (usize::MAX - text::utf8(path@).len() as usize) as usize,
            ),
            RouteMatch::Regex { .. } => (2, 0),
            RouteMatch::Any => (3, 0),
        }
    }

    /// Sort key deciding which route wins when several could match.
    ///
    /// Exact before prefix, longer prefix before shorter, then regular
    /// expressions in the order they were written, and finally the catch-all.
    pub fn precedence(&self) -> (r: (u8, usize))
        ensures
            r == self.rank(),
    {
        match self {
            RouteMatch::Exact { .. } => (0, 0),
            RouteMatch::Prefix { path } => (1, usize::MAX - path.as_str().len()),
            RouteMatch::Regex { .. } => (2, 0),
            RouteMatch::Any => (3, 0),
        }
    }
}

impl Default for RefreshPolicy {
    fn default() -> (r: Self)
        ensures
            r == (RefreshPolicy {
                kind: RefreshKind::Ttl,
                min: Duration { millis: 5000 },
                max: Duration { millis: 300000 },
            }),
    {
        RefreshPolicy {
            kind: RefreshKind::Ttl,
            min: Duration { millis: 5000 },
            max: Duration { millis: 300000 },
        }
    }
}

/// `x` brought into the range from `low` to `high`.
pub open spec fn clamped(x: int, low: int, high: int) -> int {
    if x < low {
        low
    } else if x > high {
        high
    } else {
        x
    }
}

impl RefreshPolicy {
    /// The bounds are the right way round.
    pub open spec fn wf(self) -> bool {
        self.min.millis <= self.max.millis
    }

    /// The delay before the next resolution, given the TTL of the last answer.
    pub open spec fn interval_of(self, ttl: int) -> int {
        let raw = match self.kind {
            RefreshKind::Ttl => ttl,
            RefreshKind::Fixed(fixed) => fixed.millis as int,
        };
        clamped(raw, self.min.millis as int, self.max.millis as int)
    }

    /// The delay before the next resolution, given the TTL of the last answer.
    ///
    /// `ttl` is ignored when the policy names a fixed interval, and the result
    /// is always inside `min..=max` either way.
    pub fn interval(&self, ttl: Duration) -> (r: Duration)
        requires
            self.wf(),
        ensures
            r.millis == self.interval_of(ttl.millis as int),
            self.min.millis <= r.millis <= self.max.millis,
    {
        let raw = match self.kind {
            RefreshKind::Ttl => ttl,
            RefreshKind::Fixed(fixed) => fixed,
        };
        if raw.millis < self.min.millis {
            self.min
        } else if raw.millis > self.max.millis {
            self.max
        } else {
            raw
        }
    }

    /// The delay before retrying, after `failures` consecutive failed lookups: `min`
    /// after the first, and then twice as long each time, up to `max`.
    pub open spec fn backoff_of(self, failures: nat) -> int
        decreases failures,
    {
        if failures <= 1 {
            self.min.millis as int
        } else {
            let twice = 2 * self.backoff_of((failures - 1) as nat);
            if twice > self.max.millis {
                self.max.millis as int
            } else {
                twice
            }
        }
    }

    /// The delay before retrying, after `failures` consecutive failed lookups.
    ///
    /// Doubles from `min` up to `max`, so a nameserver that is down is asked
    /// about it less and less often.
    pub fn backoff(&self, failures: u32) -> (r: Duration)
        requires
            self.wf(),
        ensures
            r.millis == self.backoff_of(failures as nat),
            self.min.millis <= r.millis <= self.max.millis,
    {
        let mut delay: u128 = self.min.millis;
        let mut i: u32 = 1;
        // Once the ceiling is reached, further doubling changes nothing.
        while i < failures && 0 < delay && delay < self.max.millis
            invariant
                1 <= i,
                i <= failures || i == 1,
                self.wf(),
                self.min.millis <= delay <= self.max.millis,
                delay == self.backoff_of(i as nat),
            decreases failures - i,
        {
            if delay > self.max.millis / 2 {
                delay = self.max.millis;
            } else {
                delay = delay * 2;
            }
            i = i + 1;
        }
        proof {
            if i < failures {
                lemma_backoff_settles(*self, i as nat, failures as nat);
            }
        }
        Duration { millis: delay }
    }
}

/// A delay of nothing, or of all there may be, does not change any more.
proof fn lemma_backoff_settles(policy: RefreshPolicy, fewer: nat, more: nat)
    requires
        policy.wf(),
        1 <= fewer <= more,
        policy.backoff_of(fewer) == 0 || policy.backoff_of(fewer) == policy.max.millis,
    ensures
        policy.backoff_of(more) == policy.backoff_of(fewer),
    decreases more,
{
    if fewer < more {
        lemma_backoff_settles(policy, fewer, (more - 1) as nat);
    }
}

/// An interval is never outside the configured band, whatever the TTL says.
pub proof fn intervals_stay_in_the_band(policy: RefreshPolicy, ttl: int)
    requires
        policy.wf(),
    ensures
        policy.min.millis <= policy.interval_of(ttl) <= policy.max.millis,
{
}

/// The delay before a retry starts at the floor, never shrinks as failures add
/// up, and never leaves the configured band.
pub proof fn backoff_never_shrinks(policy: RefreshPolicy, fewer: nat, more: nat)
    requires
        policy.wf(),
        fewer <= more,
    ensures
        policy.backoff_of(fewer) <= policy.backoff_of(more),
        policy.min.millis <= policy.backoff_of(fewer) <= policy.max.millis,
        policy.min.millis <= policy.backoff_of(more) <= policy.max.millis,
        policy.backoff_of(1) == policy.min.millis,
    decreases more,
{
    if more > 1 {
        if fewer < more {
            backoff_never_shrinks(policy, fewer, (more - 1) as nat);
        } else {
            backoff_never_shrinks(policy, (more - 1) as nat, (more - 1) as nat);
        }
    }
}

/// Each failure doubles the delay until it is as long as it may be, and as long as it
/// may be it gets: however far the ceiling is, it is reached.
pub proof fn backoff_doubles_up_to_the_ceiling(policy: RefreshPolicy, failures: nat)
    requires
        policy.wf(),
        failures >= 1,
    ensures
        policy.backoff_of(failures + 1) == (if 2 * policy.backoff_of(failures)
            > policy.max.millis {
            policy.max.millis as int
        } else {
            2 * policy.backoff_of(failures)
        }),
        policy.min.millis > 0 && failures > policy.max.millis ==> policy.backoff_of(failures)
            == policy.max.millis,
    decreases failures,
{
    if policy.min.millis > 0 {
        lemma_backoff_grows(policy, failures);
    }
}

proof fn lemma_backoff_grows(policy: RefreshPolicy, failures: nat)
    requires
        policy.wf(),
        failures >= 1,
        policy.min.millis > 0,
    ensures
        0 < policy.backoff_of(failures) <= policy.max.millis,
        policy.backoff_of(failures) >= failures || policy.backoff_of(failures)
            == policy.max.millis,
    decreases failures,
{
    if failures > 1 {
        lemma_backoff_grows(policy, (failures - 1) as nat);
    }
}

impl PeerTimeouts {
    /// Nothing set.
    pub open spec fn unset(self) -> bool {
        self.connection is None && self.total_connection is None && self.read is None
            && self.write is None && self.idle is None
    }

    /// Overrides what is configured, and leaves the rest as it was: each
    /// timeout starts from the connection library's own default.
    pub fn apply(&self, peer: &mut Peer)
        ensures
            final(peer).addr == old(peer).addr,
            final(peer).tls == old(peer).tls,
            final(peer).sni == old(peer).sni,
            final(peer).alpn == old(peer).alpn,
            final(peer).timeouts == (PeerTimeouts {
                connection: over(self.connection, old(peer).timeouts.connection),
                total_connection: over(
                    self.total_connection,
                    old(peer).timeouts.total_connection,
                ),
                read: over(self.read, old(peer).timeouts.read),
                write: over(self.write, old(peer).timeouts.write),
                idle: over(self.idle, old(peer).timeouts.idle),
            }),
    {
        if self.connection.is_some() {
            peer.timeouts.connection = self.connection;
        }
        if self.total_connection.is_some() {
            peer.timeouts.total_connection = self.total_connection;
        }
        if self.read.is_some() {
            peer.timeouts.read = self.read;
        }
        if self.write.is_some() {
            peer.timeouts.write = self.write;
        }
        if self.idle.is_some() {
            peer.timeouts.idle = self.idle;
        }
    }
}

/// The configured value, or else the one that was there.
pub open spec fn over(set: Option<Duration>, was: Option<Duration>) -> Option<Duration> {
    if set is Some {
        set
    } else {
        was
    }
}

impl Default for PeerTimeouts {
    fn default() -> (r: Self)
        ensures
            r.unset(),
    {
        PeerTimeouts { connection: None, total_connection: None, read: None, write: None, idle: None }
    }
}

impl PeerTemplate {
    /// The name that is sent to a server discovered under `name`.
    pub open spec fn sni_for(self, name: Seq<char>) -> Seq<char> {
        match self.tls {
            TlsName::Plain => Seq::empty(),
            TlsName::Fixed(sni) => sni@,
            TlsName::Discovered => name,
        }
    }

    /// The peer for one discovered address.
    ///
    /// `name` is the hostname the address was discovered under, and is used
    /// only when the template asks for it.
    pub fn peer(&self, addr: SocketAddr, name: &str) -> (r: Peer)
        ensures
            r.addr == addr,
            r.tls == !(self.tls is Plain),
            r.sni@ == self.sni_for(name@),
            r.alpn == self.alpn,
            r.timeouts == self.timeouts,
    {
        let (tls, sni) = match &self.tls {
            TlsName::Plain => (false, String::new()),
            TlsName::Fixed(sni) => (true, sni.clone()),
            TlsName::Discovered => (true, name.to_owned()),
        };
        let mut peer = Peer { addr, tls, sni, alpn: self.alpn, timeouts: PeerTimeouts::default() };
        self.timeouts.apply(&mut peer);
        peer
    }
}

impl Default for PeerTemplate {
    fn default() -> (r: Self)
        ensures
            r.tls is Plain,
            r.alpn == ALPN::H1,
            r.timeouts.unset(),
    {
        PeerTemplate { tls: TlsName::Plain, alpn: ALPN::H1, timeouts: PeerTimeouts::default() }
    }
}

impl Default for UpstreamOptions {
    fn default() -> (r: Self)
        ensures
            r.selection == SelectionKind::RoundRobin,
            r.selector == RequestSelector::Null,
            r.health_checks is Off,
    {
        UpstreamOptions {
            selection: SelectionKind::RoundRobin,
            selector: RequestSelector::Null,
            health_checks: HealthCheckKind::Off,
        }
    }
}

impl HealthCheckKind {
    /// The settings of the check, unless there is no check.
    pub fn settings(&self) -> (r: Option<&HealthCheckSettings>)
        ensures
            match *self {
                HealthCheckKind::Off => r is None,
                HealthCheckKind::Tcp { settings, .. } => r == Some(&settings),
                HealthCheckKind::Http { settings, .. } => r == Some(&settings),
            },
    {
        match self {
            HealthCheckKind::Off => None,
            HealthCheckKind::Tcp { settings, .. } => Some(settings),
            HealthCheckKind::Http { settings, .. } => Some(settings),
        }
    }
}

/// The settings that a health check has unless told otherwise.
pub open spec fn default_health_settings() -> HealthCheckSettings {
    HealthCheckSettings {
        frequency: Duration { millis: 5000 },
        timeout: Duration { millis: 1000 },
        consecutive_success: 1,
        consecutive_failure: 1,
        parallel: false,
    }
}

impl Default for HealthCheckSettings {
    fn default() -> (r: Self)
        ensures
            r == default_health_settings(),
    {
        HealthCheckSettings {
            frequency: Duration { millis: 5000 },
            timeout: Duration { millis: 1000 },
            consecutive_success: 1,
            consecutive_failure: 1,
            parallel: false,
        }
    }
}

impl Default for RateLimitingConfig {
    fn default() -> (r: Self)
        ensures
            r.rules@.len() == 0,
    {
        RateLimitingConfig { rules: Vec::new() }
    }
}

proof fn lemma_domains_of(listeners: Seq<ListenerConfig>)
    ensures
        domains_of(listeners) == listeners.map_values(
            |l: ListenerConfig| listener_domains(l),
        ).flatten(),
    decreases listeners.len(),
{
    let all = listeners.map_values(|l: ListenerConfig| listener_domains(l));
    if listeners.len() > 0 {
        lemma_domains_of(listeners.drop_last());
        lists::lemma_joined_last(all);
        assert(all.drop_last() == listeners.drop_last().map_values(
            |l: ListenerConfig| listener_domains(l),
        ));
    }
}

proof fn lemma_proxy_domains(proxies: Seq<ProxyConfig>)
    ensures
        proxy_domains(proxies) == proxies.map_values(
            |p: ProxyConfig| domains_of(p.listeners@),
        ).flatten(),
    decreases proxies.len(),
{
    let all = proxies.map_values(|p: ProxyConfig| domains_of(p.listeners@));
    if proxies.len() > 0 {
        lemma_proxy_domains(proxies.drop_last());
        lists::lemma_joined_last(all);
        assert(all.drop_last() == proxies.drop_last().map_values(
            |p: ProxyConfig| domains_of(p.listeners@),
        ));
    }
}

proof fn lemma_file_server_domains(servers: Seq<FileServerConfig>)
    ensures
        file_server_domains(servers) == servers.map_values(
            |s: FileServerConfig| domains_of(s.listeners@),
        ).flatten(),
    decreases servers.len(),
{
    let all = servers.map_values(|s: FileServerConfig| domains_of(s.listeners@));
    if servers.len() > 0 {
        lemma_file_server_domains(servers.drop_last());
        lists::lemma_joined_last(all);
        assert(all.drop_last() == servers.drop_last().map_values(
            |s: FileServerConfig| domains_of(s.listeners@),
        ));
    }
}

/// The managed domains are those of every listener, in order: of the proxies first, and
/// then of the file servers. None is left out, and none is there that no listener names.
pub proof fn every_listener_has_its_domains_managed(config: Config, listeners: Seq<ListenerConfig>)
    ensures
        config.managed_domains() == config.basic_proxies@.map_values(
            |p: ProxyConfig| domains_of(p.listeners@),
        ).flatten() + config.file_servers@.map_values(
            |s: FileServerConfig| domains_of(s.listeners@),
        ).flatten(),
        domains_of(listeners) == listeners.map_values(
            |l: ListenerConfig| listener_domains(l),
        ).flatten(),
        forall|l: int|
            0 <= l < listeners.len() ==> match (#[trigger] listeners[l]).source {
                ListenerKind::Tcp { tls: Some(tls), .. } => listener_domains(listeners[l])
                    == tls.acme_domains@.map_values(|d: String| d@),
                _ => listener_domains(listeners[l]).len() == 0,
            },
{
    lemma_proxy_domains(config.basic_proxies@);
    lemma_file_server_domains(config.file_servers@);
    lemma_domains_of(listeners);
    assert forall|l: int| 0 <= l < listeners.len() implies match (#[trigger] listeners[l]).source {
        ListenerKind::Tcp { tls: Some(tls), .. } => listener_domains(listeners[l])
            == tls.acme_domains@.map_values(|d: String| d@),
        _ => listener_domains(listeners[l]).len() == 0,
    } by {
        match listeners[l].source {
            ListenerKind::Tcp { tls: Some(tls), .. } => {
                assert(text::texts(tls.acme_domains@) == tls.acme_domains@.map_values(
                    |d: String| d@,
                ));
            },
            _ => {},
        }
    }
}

/// A domain that is managed is one that some listener names: of the proxy, or of the file
/// server, and with the listener and the domain, at the places that are given.
pub proof fn every_managed_domain_has_a_listener(config: Config, domain: Seq<char>) -> (at: (
    bool,
    int,
    int,
    int,
))
    requires
        config.managed_domains().contains(domain),
    ensures
        ({
            let (proxied, i, l, k) = at;
            let listeners = if proxied {
                config.basic_proxies@[i].listeners@
            } else {
                config.file_servers@[i].listeners@
            };
            &&& 0 <= i < (if proxied {
                config.basic_proxies@.len()
            } else {
                config.file_servers@.len()
            })
            &&& 0 <= l < listeners.len()
            &&& listeners[l].source matches ListenerKind::Tcp { tls: Some(tls), .. } && 0 <= k
                < tls.acme_domains@.len() && tls.acme_domains@[k]@ == domain
        }),
{
    lemma_proxy_domains(config.basic_proxies@);
    lemma_file_server_domains(config.file_servers@);
    let first = proxy_domains(config.basic_proxies@);
    let at = config.managed_domains().index_of(domain);
    let proxied = at < first.len();
    let i = if proxied {
        assert(first[at] == domain);
        lists::lemma_joined_from(
            config.basic_proxies@.map_values(|p: ProxyConfig| domains_of(p.listeners@)),
            domain,
        )
    } else {
        assert(file_server_domains(config.file_servers@)[at - first.len()] == domain);
        lists::lemma_joined_from(
            config.file_servers@.map_values(|s: FileServerConfig| domains_of(s.listeners@)),
            domain,
        )
    };
    let listeners = if proxied {
        config.basic_proxies@[i].listeners@
    } else {
        config.file_servers@[i].listeners@
    };
    lemma_domains_of(listeners);
    let l = lists::lemma_joined_from(
        listeners.map_values(|l: ListenerConfig| listener_domains(l)),
        domain,
    );
    let k = listener_domains(listeners[l]).index_of(domain);
    assert(listener_domains(listeners[l])[k] == domain);
    (proxied, i, l, k)
}

/// The first override that names a domain, whatever the case and the dots behind it,
/// decides about it. Where none does, the default does, and there is no hook.
pub proof fn the_first_override_decides(config: AcmeConfig, domain: Seq<char>, i: int)
    requires
        0 <= i <= config.domains@.len(),
        forall|k: int|
            0 <= k < i ==> store::canonical_name((#[trigger] config.domains@[k]).domain@)
                != store::canonical_name(domain),
        i < config.domains@.len() ==> store::canonical_name(config.domains@[i].domain@)
            == store::canonical_name(domain),
    ensures
        config.challenge_of(domain) == (if i < config.domains@.len() {
            (config.domains@[i].challenge, config.domains@[i].dns_hook)
        } else {
            (config.default_challenge, None)
        }),
{
    lemma_first_override(config.domains@, domain, i);
}

proof fn lemma_first_override(domains: Seq<AcmeDomainConfig>, domain: Seq<char>, i: int)
    requires
        0 <= i <= domains.len(),
        forall|k: int|
            0 <= k < i ==> store::canonical_name((#[trigger] domains[k]).domain@)
                != store::canonical_name(domain),
        i < domains.len() ==> store::canonical_name(domains[i].domain@) == store::canonical_name(
            domain,
        ),
    ensures
        override_for(domains, domain) == (if i < domains.len() {
            Some(i)
        } else {
            None
        }),
    decreases domains.len(),
{
    if domains.len() > 0 {
        let front = domains.drop_last();
        assert forall|k: int| 0 <= k < front.len() implies #[trigger] front[k] == domains[k] by {}
        if i < front.len() {
            lemma_first_override(front, domain, i);
        } else {
            lemma_first_override(front, domain, front.len() as int);
        }
    }
}

/// A prefix claims itself and whatever is below it, and stops at a segment boundary: a
/// path that goes on with anything but a slash is not below it, unless the prefix ends with
/// a slash itself. What does not begin with the prefix is not claimed.
pub proof fn a_prefix_stops_at_a_segment(
    prefix: RouteMatch,
    rest: Seq<char>,
    c: char,
    other: Seq<char>,
)
    requires
        prefix is Prefix,
    ensures
        ({
            let p = prefix->Prefix_path@;
            &&& prefix.claims(p)
            &&& prefix.claims(p + seq!['/'] + rest)
            &&& p.len() > 0 && p.last() == '/' ==> prefix.claims(p + rest)
            &&& c != '/' && (p.len() == 0 || p.last() != '/') ==> !prefix.claims(
                p + seq![c] + rest,
            )
            &&& other.len() < p.len() || other.take(p.len() as int) != p ==> !prefix.claims(other)
        }),
{
    let p = prefix->Prefix_path@;
    assert(p.take(p.len() as int) == p);
    assert((p + seq!['/'] + rest).take(p.len() as int) == p);
    assert((p + rest).take(p.len() as int) == p);
    assert((p + seq![c] + rest).take(p.len() as int) == p);
    assert((p + seq![c] + rest)[p.len() as int] == c);
    assert((p + seq!['/'] + rest)[p.len() as int] == '/');
}

/// An exact route claims its own path alone, and the catch-all every path.
pub proof fn an_exact_route_claims_one_path(exact: RouteMatch, any: RouteMatch, path: Seq<char>)
    requires
        exact is Exact,
        any is Any,
    ensures
        exact.claims(path) == (path == exact->Exact_path@),
        any.claims(path),
{
}

/// The interval follows the TTL as far as the band lets it, or the fixed interval where
/// one is set, which the TTL then has no say in.
pub proof fn intervals_follow_the_ttl(policy: RefreshPolicy, ttl: int, longer: int)
    requires
        policy.wf(),
        ttl <= longer,
    ensures
        policy.kind is Ttl && policy.min.millis <= ttl <= policy.max.millis ==> policy.interval_of(
            ttl,
        ) == ttl,
        policy.interval_of(ttl) <= policy.interval_of(longer),
        policy.kind is Ttl && ttl < policy.min.millis ==> policy.interval_of(ttl)
            == policy.min.millis,
        policy.kind is Ttl && ttl > policy.max.millis ==> policy.interval_of(ttl)
            == policy.max.millis,
        policy.kind matches RefreshKind::Fixed(fixed) ==> policy.interval_of(ttl)
            == policy.interval_of(longer) && (policy.min.millis <= fixed.millis
            <= policy.max.millis ==> policy.interval_of(ttl) == fixed.millis),
{
}

/// A configuration can be run if and only if what it needs is there: a server in the
/// background has a file for its process number, and one that is upgraded has a socket and
/// runs on Linux, with every path absolute, and so is the directory of the certificates.
pub proof fn a_configuration_that_can_be_run(config: Config, linux: bool)
    ensures
        config.fault(linux) is None <==> {
            &&& config.daemonize ==> (config.pid_file matches Some(p) && is_absolute_path(p@))
            &&& config.upgrade ==> linux && (config.upgrade_socket matches Some(p)
                && is_absolute_path(p@))
            &&& config.acme matches Some(a) ==> is_absolute_path(a.store_dir@)
        },
        config.daemonize && config.pid_file is None ==> config.fault(linux) == Some(
            Invalid::MissingPidFile,
        ),
        !config.daemonize && config.upgrade && !linux ==> config.fault(linux) == Some(
            Invalid::UpgradeUnsupported,
        ),
{
}

/// A path is absolute if and only if it begins at the root.
pub proof fn an_absolute_path_begins_at_the_root(path: Seq<char>)
    ensures
        is_absolute_path(seq!['/'] + path),
        is_absolute_path(path) ==> path.len() > 0 && path[0] == '/',
{
}

/// Each oddity is told if and only if it is there.
pub proof fn every_oddity_is_told(config: Config)
    ensures
        config.oddities().contains(Warning::RelativePidFile) <==> !config.daemonize && (
        config.pid_file matches Some(p) && !is_absolute_path(p@)),
        config.oddities().contains(Warning::RelativeUpgradeSocket) <==> !config.upgrade && (
        config.upgrade_socket matches Some(p) && !is_absolute_path(p@)),
        config.oddities().contains(Warning::NoAcmeDomains) <==> config.acme is Some
            && config.managed_domains().len() == 0,
{
    let all = config.oddities();
    let pid = !config.daemonize && config.pid_file is Some && !is_absolute_path(
        config.pid_file->0@,
    );
    let socket = !config.upgrade && config.upgrade_socket is Some && !is_absolute_path(
        config.upgrade_socket->0@,
    );
    let domains = config.acme is Some && config.managed_domains().len() == 0;
    if pid {
        assert(all[0] == Warning::RelativePidFile);
    }
    if socket {
        assert(all[if pid {
            1int
        } else {
            0int
        }] == Warning::RelativeUpgradeSocket);
    }
    if domains {
        assert(all[all.len() - 1] == Warning::NoAcmeDomains);
    }
}

/// A time limit that is configured is the one that holds, and where none is configured the
/// one that was there stays.
pub proof fn a_limit_that_is_set_holds(set: Duration, was: Option<Duration>)
    ensures
        over(Some(set), was) == Some(set),
        over(None, was) == was,
{
}

/// A server is sent the name that is given for it, or the one that it was found under, and
/// none without TLS.
pub proof fn a_server_is_sent_its_name(template: PeerTemplate, name: Seq<char>)
    ensures
        template.tls is Plain ==> template.sni_for(name).len() == 0,
        template.tls matches TlsName::Fixed(sni) ==> template.sni_for(name) == sni@,
        template.tls is Discovered ==> template.sni_for(name) == name,
{
}

/// A listener can be reached without TLS if and only if it has none: a socket in the file
/// system never has.
pub proof fn only_tls_is_not_plaintext(l: ListenerConfig)
    ensures
        !is_plaintext(l) <==> (l.source matches ListenerKind::Tcp { tls, .. } && tls is Some),
{
}

} // verus!
