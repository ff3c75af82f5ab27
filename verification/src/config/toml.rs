//! Configuration sourced from a TOML file.
//!
//! The types here hold what such a file says, once it has been read. The format
//! predates service discovery, routing and ACME, and has none of them.
use crate::config::internal;
use crate::config::internal::{
    CertKeyPaths, Config, HeaderModifier, Normalization, OverloadConfig, PeerTemplate,
    PeerTimeouts, RateLimitingConfig, Rejection, RouteConfig, RouteMatch, TlsConfig, TlsName,
    UpstreamConfig, UpstreamKind, UpstreamOptions, ALPN,
};
use crate::net;
use crate::proxy::rate_limiting;
use crate::proxy::rate_limiting::RegexShim;
use crate::text;
use crate::wire;
use vstd::prelude::*;

verus! {

/// What a TOML file says.
#[derive(Debug, PartialEq)]
pub struct Toml {
    /// System-wide configuration values.
    pub system: System,
    /// Configuration for each basic proxy.
    pub basic_proxy: Vec<ProxyConfig>,
}

/// System level configuration options.
#[derive(Debug, PartialEq)]
pub struct System {
    pub threads_per_service: usize,
}

impl Default for System {
    fn default() -> (r: Self)
        ensures
            r.threads_per_service == 8,
    {
        System { threads_per_service: System::default_threads_per_service() }
    }
}

impl System {
    /// The threads of a service unless told otherwise.
    pub fn default_threads_per_service() -> (r: usize)
        ensures
            r == 8,
    {
        8
    }
}

/// One filter: its settings by name, in the order of the names, none of which
/// occurs twice.
pub type FilterTable = Vec<(String, String)>;

/// The filters of a proxy, in the order of the file.
#[derive(Debug, PartialEq, Clone)]
pub struct PathControl {
    pub upstream_request_filters: Vec<FilterTable>,
    pub upstream_response_filters: Vec<FilterTable>,
}

impl Default for PathControl {
    fn default() -> (r: Self)
        ensures
            r.upstream_request_filters@.len() == 0,
            r.upstream_response_filters@.len() == 0,
    {
        PathControl { upstream_request_filters: Vec::new(), upstream_response_filters: Vec::new() }
    }
}

/// One basic proxy.
#[derive(Debug, PartialEq, Clone)]
pub struct ProxyConfig {
    /// Name of the service. Used for logging.
    pub name: String,
    /// The interfaces that are listened to.
    pub listeners: Vec<ListenerConfig>,
    /// The upstream server.
    pub connector: ConnectorConfig,
    /// For modifying requests and responses.
    pub path_control: PathControl,
}

/// The upstream server of a proxy.
#[derive(Debug, PartialEq, Clone)]
pub struct ConnectorConfig {
    /// An address, such as `1.2.3.4:80`.
    pub proxy_addr: String,
    /// The name sent over TLS, if TLS should be used.
    pub tls_sni: Option<String>,
}

/// The certificate of a listener.
#[derive(Debug, PartialEq, Clone)]
pub struct ListenerTlsConfig {
    pub cert_path: String,
    pub key_path: String,
}

/// One listener.
#[derive(Debug, PartialEq, Clone)]
pub struct ListenerConfig {
    pub source: ListenerKind,
}

/// What a listener binds.
#[derive(Debug, PartialEq, Clone)]
pub enum ListenerKind {
    Tcp { addr: String, tls: Option<ListenerTlsConfig> },
    Uds(String),
}

/// What is said of an address that is none.
pub open spec fn bad_address(addr: Seq<char>) -> Seq<char> {
    "'"@ + addr
        + "' is not an 'IP:port' socket address. To name upstream servers by hostname, use the KDL configuration format."@
}

/// A connector is a single literal address.
pub open spec fn upstream_is(val: ConnectorConfig, u: UpstreamConfig) -> bool {
    &&& net::socket_addr_of(val.proxy_addr@) is Some
    &&& u.kind == (UpstreamKind::Static { addr: net::socket_addr_of(val.proxy_addr@)->0 })
    &&& match val.tls_sni {
        Some(sni) => u.peer.tls == TlsName::Fixed(sni) && u.peer.alpn == ALPN::H2H1,
        None => u.peer.tls is Plain && u.peer.alpn == ALPN::H1,
    }
    &&& u.peer.timeouts.unset()
}

impl ConnectorConfig {
    /// The source of servers that the connector stands for.
    pub fn upstream(self) -> (r: Result<UpstreamConfig, String>)
        ensures
            match r {
                Ok(u) => upstream_is(self, u),
                Err(msg) => net::socket_addr_of(self.proxy_addr@) is None && msg@ == bad_address(
                    self.proxy_addr@,
                ),
            },
    {
        let addr = match net::parse_socket_addr(self.proxy_addr.as_str()) {
            Some(addr) => addr,
            None => {
                return Err(
                    text::concat3(
                        "'",
                        self.proxy_addr.as_str(),
                        "' is not an 'IP:port' socket address. To name upstream servers by hostname, use the KDL configuration format.",
                    ),
                );
            },
        };
        let (tls, alpn) = match self.tls_sni {
            Some(sni) => (TlsName::Fixed(sni), ALPN::H2H1),
            None => (TlsName::Plain, ALPN::H1),
        };
        Ok(
            UpstreamConfig {
                kind: UpstreamKind::Static { addr },
                peer: PeerTemplate { tls, alpn, timeouts: PeerTimeouts::default() },
            },
        )
    }
}

/// The settings of a filter.
pub open spec fn settings(table: Seq<(String, String)>) -> Seq<(Seq<char>, Seq<char>)> {
    table.map_values(|e: (String, String)| (e.0@, e.1@))
}

/// The setting called `key`.
pub open spec fn setting(table: Seq<(Seq<char>, Seq<char>)>, key: Seq<char>) -> Option<Seq<char>>
    decreases table.len(),
{
    if table.len() == 0 {
        None
    } else if table.last().0 == key {
        Some(table.last().1)
    } else {
        setting(table.drop_last(), key)
    }
}

/// The names of the settings that are none of those.
pub open spec fn leftover(
    table: Seq<(Seq<char>, Seq<char>)>,
    known: Seq<Seq<char>>,
) -> Seq<Seq<char>>
    decreases table.len(),
{
    if table.len() == 0 {
        Seq::empty()
    } else {
        let front = leftover(table.drop_last(), known);
        if known.contains(table.last().0) {
            front
        } else {
            front.push(table.last().0)
        }
    }
}

/// What is said of settings that are none.
pub open spec fn leftover_fault(
    table: Seq<(Seq<char>, Seq<char>)>,
    known: Seq<Seq<char>>,
) -> Option<Seq<char>> {
    if leftover(table, known).len() == 0 {
        None
    } else {
        Some("Unknown path control filter setting(s): "@ + text::join(leftover(table, known), ", "@))
    }
}

/// What is wrong with a filter that removes headers, first of all.
pub open spec fn removal_fault(table: Seq<(Seq<char>, Seq<char>)>) -> Option<Seq<char>> {
    match setting(table, "pattern"@) {
        None => Some("'remove-header-key-regex' needs a 'pattern'"@),
        Some(p) => if !rate_limiting::regex_compiles(p) {
            Some("'"@ + p + "' is not a valid regular expression"@)
        } else {
            leftover_fault(table, seq!["kind"@, "pattern"@])
        },
    }
}

/// What is wrong with a filter that sets a header, first of all.
pub open spec fn upsert_fault(table: Seq<(Seq<char>, Seq<char>)>) -> Option<Seq<char>> {
    match (setting(table, "key"@), setting(table, "value"@)) {
        (None, _) => Some("'upsert-header' needs a 'key'"@),
        (_, None) => Some("'upsert-header' needs a 'value'"@),
        (Some(k), Some(v)) => if !wire::is_header_name(k) {
            Some("'"@ + k + "' is not a valid HTTP header name"@)
        } else if !wire::is_header_value(v) {
            Some("'"@ + v + "' is not a valid HTTP header value"@)
        } else {
            leftover_fault(table, seq!["kind"@, "key"@, "value"@])
        },
    }
}

/// What is wrong with a filter, first of all. `side` says whether it is for
/// requests or for responses.
pub open spec fn filter_fault(table: Seq<(Seq<char>, Seq<char>)>, side: Seq<char>) -> Option<
    Seq<char>,
> {
    match setting(table, "kind"@) {
        None => Some("a path control filter must have a 'kind'"@),
        Some(kind) => if kind == "remove-header-key-regex"@ {
            removal_fault(table)
        } else if kind == "upsert-header"@ {
            upsert_fault(table)
        } else {
            Some(
                "'"@ + kind + "' is not an upstream "@ + side
                    + " filter. Use 'remove-header-key-regex' or 'upsert-header'."@,
            )
        },
    }
}

/// The change that a filter stands for.
pub open spec fn filter_is(table: Seq<(Seq<char>, Seq<char>)>, m: HeaderModifier) -> bool {
    match m {
        HeaderModifier::RemoveHeaderKeyRegex { pattern } => setting(table, "kind"@) == Some(
            "remove-header-key-regex"@,
        ) && setting(table, "pattern"@) == Some(pattern.source()),
        HeaderModifier::UpsertHeader { key, value } => setting(table, "kind"@) == Some(
            "upsert-header"@,
        ) && setting(table, "key"@) is Some && key@ == text::lower_text(
            setting(table, "key"@)->0,
        ) && setting(table, "value"@) is Some && value@ == text::utf8(
            setting(table, "value"@)->0,
        ),
        _ => false,
    }
}

fn find_setting<'a>(table: &'a FilterTable, key: &str) -> (r: Option<&'a String>)
    ensures
        match r {
            Some(v) => setting(settings(table@), key@) == Some(v@),
            None => setting(settings(table@), key@) is None,
        },
{
    let ghost all = settings(table@);
    let mut i: usize = table.len();
    assert(all.take(i as int) == all);
    while i > 0
        invariant
            i <= table@.len(),
            all == settings(table@),
            setting(all, key@) == setting(all.take(i as int), key@),
        decreases i,
    {
        assert(all.take(i as int).drop_last() == all.take(i - 1));
        assert(all.take(i as int).last() == (table@[i - 1].0@, table@[i - 1].1@));
        if text::same_text(table[i - 1].0.as_str(), key) {
            return Some(&table[i - 1].1);
        }
        i = i - 1;
    }
    None
}

fn is_one_of(key: &str, known: &[&str]) -> (r: bool)
    ensures
        r == known@.map_values(|k: &str| k@).contains(key@),
{
    let ghost all = known@.map_values(|k: &str| k@);
    let mut i: usize = 0;
    while i < known.len()
        invariant
            i <= known@.len(),
            all == known@.map_values(|k: &str| k@),
            forall|k: int| 0 <= k < i ==> #[trigger] all[k] != key@,
        decreases known@.len() - i,
    {
        assert(all[i as int] == known@[i as int]@);
        if text::same_text(key, known[i]) {
            return true;
        }
        i = i + 1;
    }
    false
}

/// Rejects settings that are none, so that a misspelling is not passed over.
fn ensure_empty(table: &FilterTable, known: &[&str]) -> (r: Result<(), String>)
    ensures
        ({
            let fault = leftover_fault(settings(table@), known@.map_values(|k: &str| k@));
            match r {
                Ok(_) => fault is None,
                Err(msg) => fault == Some(msg@),
            }
        }),
{
    let mut rest: Vec<String> = Vec::new();
    let ghost all = settings(table@);
    let ghost names = known@.map_values(|k: &str| k@);
    let mut i: usize = 0;
    assert(text::texts(rest@) == Seq::<Seq<char>>::empty());
    while i < table.len()
        invariant
            i <= table@.len(),
            all == settings(table@),
            names == known@.map_values(|k: &str| k@),
            text::texts(rest@) == leftover(all.take(i as int), names),
        decreases table@.len() - i,
    {
        let ghost before = rest@;
        assert(all.take(i + 1).drop_last() == all.take(i as int));
        assert(all.take(i + 1).last().0 == table@[i as int].0@);
        if !is_one_of(table[i].0.as_str(), known) {
            let key = table[i].0.clone();
            rest.push(key);
            assert(text::texts(rest@) == text::texts(before).push(key@));
        }
        i = i + 1;
    }
    assert(all.take(all.len() as int) == all);
    assert(text::texts(rest@).len() == rest@.len());
    if rest.len() == 0 {
        Ok(())
    } else {
        let list = text::join_text(rest.as_slice(), ", ");
        Err(text::concat2("Unknown path control filter setting(s): ", list.as_str()))
    }
}

fn take_pattern(table: &FilterTable) -> (r: Result<RegexShim, String>)
    ensures
        match r {
            Ok(p) => removal_fault(settings(table@)) is None && setting(
                settings(table@),
                "pattern"@,
            ) == Some(p.source()),
            Err(msg) => removal_fault(settings(table@)) == Some(msg@),
        },
{
    let pattern = match find_setting(table, "pattern") {
        Some(p) => p,
        None => return Err("'remove-header-key-regex' needs a 'pattern'".to_owned()),
    };
    let shim = match RegexShim::new(pattern.as_str()) {
        Some(shim) => shim,
        None => {
            return Err(
                text::concat3("'", pattern.as_str(), "' is not a valid regular expression"),
            );
        },
    };
    let known = ["kind", "pattern"];
    assert(known@.map_values(|k: &str| k@) == seq!["kind"@, "pattern"@]);
    match ensure_empty(table, &known) {
        Ok(()) => Ok(shim),
        Err(msg) => Err(msg),
    }
}

fn take_header_pair(table: &FilterTable) -> (r: Result<(String, Vec<u8>), String>)
    ensures
        match r {
            Ok((key, value)) => upsert_fault(settings(table@)) is None && setting(
                settings(table@),
                "key"@,
            ) is Some && setting(settings(table@), "value"@) is Some && key@ == text::lower_text(
                setting(settings(table@), "key"@)->0,
            ) && value@ == text::utf8(setting(settings(table@), "value"@)->0),
            Err(msg) => upsert_fault(settings(table@)) == Some(msg@),
        },
{
    let key = match find_setting(table, "key") {
        Some(k) => k,
        None => return Err("'upsert-header' needs a 'key'".to_owned()),
    };
    let value = match find_setting(table, "value") {
        Some(v) => v,
        None => return Err("'upsert-header' needs a 'value'".to_owned()),
    };
    let name = match wire::header_name(key.as_str()) {
        Some(n) => n,
        None => {
            return Err(text::concat3("'", key.as_str(), "' is not a valid HTTP header name"));
        },
    };
    let bytes = match wire::header_value(value.as_str()) {
        Some(b) => b,
        None => {
            return Err(text::concat3("'", value.as_str(), "' is not a valid HTTP header value"));
        },
    };
    let known = ["kind", "key", "value"];
    assert(known@.map_values(|k: &str| k@) == seq!["kind"@, "key"@, "value"@]);
    match ensure_empty(table, &known) {
        Ok(()) => Ok((name, bytes)),
        Err(msg) => Err(msg),
    }
}

fn modifier_from_table(table: &FilterTable, side: &str) -> (r: Result<HeaderModifier, String>)
    ensures
        match r {
            Ok(m) => filter_fault(settings(table@), side@) is None && filter_is(
                settings(table@),
                m,
            ),
            Err(msg) => filter_fault(settings(table@), side@) == Some(msg@),
        },
{
    let kind = match find_setting(table, "kind") {
        Some(k) => k,
        None => return Err("a path control filter must have a 'kind'".to_owned()),
    };
    if text::same_text(kind.as_str(), "remove-header-key-regex") {
        match take_pattern(table) {
            Ok(pattern) => Ok(HeaderModifier::RemoveHeaderKeyRegex { pattern }),
            Err(msg) => Err(msg),
        }
    } else if text::same_text(kind.as_str(), "upsert-header") {
        match take_header_pair(table) {
            Ok((key, value)) => Ok(HeaderModifier::UpsertHeader { key, value }),
            Err(msg) => Err(msg),
        }
    } else {
        let what = text::concat3("'", kind.as_str(), "' is not an upstream ");
        Err(
            text::concat3(
                what.as_str(),
                side,
                " filter. Use 'remove-header-key-regex' or 'upsert-header'.",
            ),
        )
    }
}

/// Reads one upstream request filter.
pub fn request_modifier_from_map(table: &FilterTable) -> (r: Result<HeaderModifier, String>)
    ensures
        match r {
            Ok(m) => filter_fault(settings(table@), "request"@) is None && filter_is(
                settings(table@),
                m,
            ),
            Err(msg) => filter_fault(settings(table@), "request"@) == Some(msg@),
        },
{
    modifier_from_table(table, "request")
}

/// Reads one upstream response filter.
pub fn response_modifier_from_map(table: &FilterTable) -> (r: Result<HeaderModifier, String>)
    ensures
        match r {
            Ok(m) => filter_fault(settings(table@), "response"@) is None && filter_is(
                settings(table@),
                m,
            ),
            Err(msg) => filter_fault(settings(table@), "response"@) == Some(msg@),
        },
{
    modifier_from_table(table, "response")
}

/// What is wrong with a list of filters, first of all.
pub open spec fn filters_fault(tables: Seq<FilterTable>, side: Seq<char>) -> Option<Seq<char>>
    decreases tables.len(),
{
    if tables.len() == 0 {
        None
    } else {
        match filters_fault(tables.drop_last(), side) {
            Some(msg) => Some(msg),
            None => filter_fault(settings(tables.last()@), side),
        }
    }
}

/// The changes that a list of filters stands for, in order.
pub open spec fn filters_are(tables: Seq<FilterTable>, mods: Seq<HeaderModifier>) -> bool {
    mods.len() == tables.len() && forall|i: int|
        0 <= i < tables.len() ==> filter_is(settings(tables[i]@), #[trigger] mods[i])
}

proof fn lemma_fault_stays(tables: Seq<FilterTable>, side: Seq<char>, n: int)
    requires
        0 <= n <= tables.len(),
        filters_fault(tables.take(n), side) is Some,
    ensures
        filters_fault(tables, side) == filters_fault(tables.take(n), side),
    decreases tables.len() - n,
{
    if n < tables.len() {
        assert(tables.take(n + 1).drop_last() == tables.take(n));
        lemma_fault_stays(tables, side, n + 1);
    } else {
        assert(tables.take(n) == tables);
    }
}

fn modifiers_from(tables: &[FilterTable], side: &str) -> (r: Result<Vec<HeaderModifier>, String>)
    ensures
        match r {
            Ok(mods) => filters_fault(tables@, side@) is None && filters_are(tables@, mods@),
            Err(msg) => filters_fault(tables@, side@) == Some(msg@),
        },
{
    let mut out: Vec<HeaderModifier> = Vec::new();
    let mut i: usize = 0;
    while i < tables.len()
        invariant
            i <= tables@.len(),
            filters_fault(tables@.take(i as int), side@) is None,
            out@.len() == i,
            forall|k: int| 0 <= k < i ==> filter_is(settings(tables@[k]@), #[trigger] out@[k]),
        decreases tables@.len() - i,
    {
        assert(tables@.take(i + 1).drop_last() == tables@.take(i as int));
        assert(tables@.take(i + 1).last() == tables@[i as int]);
        match modifier_from_table(&tables[i], side) {
            Ok(m) => out.push(m),
            Err(msg) => {
                proof {
                    lemma_fault_stays(tables@, side@, i + 1);
                }
                return Err(msg);
            },
        }
        i = i + 1;
    }
    assert(tables@.take(tables@.len() as int) == tables@);
    Ok(out)
}

/// What is wrong with the filters of a proxy, first of all.
pub open spec fn control_fault(p: PathControl) -> Option<Seq<char>> {
    match filters_fault(p.upstream_request_filters@, "request"@) {
        Some(msg) => Some(msg),
        None => filters_fault(p.upstream_response_filters@, "response"@),
    }
}

impl PathControl {
    /// The modifiers that the filters stand for.
    pub fn modifiers(&self) -> (r: Result<internal::PathControl, String>)
        ensures
            match r {
                Ok(p) => {
                    &&& control_fault(*self) is None
                    &&& filters_are(self.upstream_request_filters@, p.upstream_request_filters@)
                    &&& filters_are(self.upstream_response_filters@, p.upstream_response_filters@)
                    &&& p.request_filters@.len() == 0
                    &&& p.response_filters@.len() == 0
                    &&& p.request_body_limit is None
                    &&& p.response_body_limit is None
                },
                Err(msg) => control_fault(*self) == Some(msg@),
            },
    {
        let requests = match modifiers_from(self.upstream_request_filters.as_slice(), "request") {
            Ok(mods) => mods,
            Err(msg) => return Err(msg),
        };
        let responses = match modifiers_from(
            self.upstream_response_filters.as_slice(),
            "response",
        ) {
            Ok(mods) => mods,
            Err(msg) => return Err(msg),
        };
        Ok(
            internal::PathControl {
                request_filters: Vec::new(),
                upstream_request_filters: requests,
                upstream_response_filters: responses,
                response_filters: Vec::new(),
                request_body_limit: None,
                response_body_limit: None,
            },
        )
    }
}

/// The listener that an entry stands for.
pub open spec fn listener_is(from: ListenerConfig, to: internal::ListenerConfig) -> bool {
    match (from.source, to.source) {
        (
            ListenerKind::Tcp { addr, tls },
            internal::ListenerKind::Tcp { addr: a, tls: t, offer_h2 },
        ) => a == addr && !offer_h2 && match (tls, t) {
            (None, None) => true,
            (Some(x), Some(y)) => y.acme_domains@.len() == 0 && y.cert == Some(
                CertKeyPaths { cert_path: x.cert_path, key_path: x.key_path },
            ),
            _ => false,
        },
        (ListenerKind::Uds(path), internal::ListenerKind::Uds(p)) => p == path,
        _ => false,
    }
}

impl ListenerConfig {
    /// The listener that the entry stands for.
    pub fn listener(self) -> (r: internal::ListenerConfig)
        ensures
            listener_is(self, r),
    {
        let source = match self.source {
            ListenerKind::Tcp { addr, tls } => {
                let tls = match tls {
                    Some(t) => Some(
                        TlsConfig {
                            cert: Some(
                                CertKeyPaths { cert_path: t.cert_path, key_path: t.key_path },
                            ),
                            acme_domains: Vec::new(),
                        },
                    ),
                    None => None,
                };
                internal::ListenerKind::Tcp { addr, tls, offer_h2: false }
            },
            ListenerKind::Uds(path) => internal::ListenerKind::Uds(path),
        };
        internal::ListenerConfig { source }
    }
}

fn build_listeners(listeners: Vec<ListenerConfig>) -> (r: Vec<internal::ListenerConfig>)
    ensures
        r@.len() == listeners@.len(),
        forall|i: int| 0 <= i < r@.len() ==> listener_is(listeners@[i], #[trigger] r@[i]),
{
    let mut rest = listeners;
    let mut out: Vec<internal::ListenerConfig> = Vec::new();
    let ghost mut done: int = 0;
    while rest.len() > 0
        invariant
            0 <= done <= listeners@.len(),
            rest@ == listeners@.skip(done),
            out@.len() == done,
            forall|i: int| 0 <= i < done ==> listener_is(listeners@[i], #[trigger] out@[i]),
        decreases rest@.len(),
    {
        let entry = rest.remove(0);
        assert(entry == listeners@[done]);
        out.push(entry.listener());
        proof {
            done = done + 1;
        }
        assert(rest@ == listeners@.skip(done));
    }
    out
}

/// What is wrong with a proxy, first of all.
pub open spec fn proxy_fault(p: ProxyConfig) -> Option<Seq<char>> {
    if net::socket_addr_of(p.connector.proxy_addr@) is None {
        Some(bad_address(p.connector.proxy_addr@))
    } else {
        control_fault(p.path_control)
    }
}

/// The proxy that an entry stands for: one route for every request, to the one
/// server, and everything that the format has no words for at its default.
pub open spec fn proxy_is(from: ProxyConfig, to: internal::ProxyConfig) -> bool {
    &&& to.name == from.name
    &&& to.listeners@.len() == from.listeners@.len()
    &&& forall|i: int|
        0 <= i < to.listeners@.len() ==> listener_is(from.listeners@[i], #[trigger] to.listeners@[i])
    &&& to.routes@.len() == 1
    &&& to.routes@[0].matcher is Any
    &&& to.routes@[0].methods@.len() == 0
    &&& to.routes@[0].upstreams@.len() == 1
    &&& upstream_is(from.connector, to.routes@[0].upstreams@[0])
    &&& to.routes@[0].upstream_options.selection == internal::SelectionKind::RoundRobin
    &&& to.routes@[0].upstream_options.selector == internal::RequestSelector::Null
    &&& to.routes@[0].upstream_options.health_checks is Off
    &&& to.no_route == (Rejection { status: 404, body: None })
    &&& to.client_ip is None
    &&& to.normalization == (Normalization {
        header_non_ascii: false,
        host: true,
        control_characters: true,
        percent_encoding: true,
        encoded_separators: true,
        duplicate_slashes: true,
        dot_segments: true,
        rejection: Rejection { status: 400, body: None },
    })
    &&& to.overload.unlimited()
    &&& to.overload.rejection == (Rejection { status: 503, body: None })
    &&& to.rate_limiting.rules@.len() == 0
    &&& filters_are(
        from.path_control.upstream_request_filters@,
        to.path_control.upstream_request_filters@,
    )
    &&& filters_are(
        from.path_control.upstream_response_filters@,
        to.path_control.upstream_response_filters@,
    )
    &&& to.path_control.request_filters@.len() == 0
    &&& to.path_control.response_filters@.len() == 0
    &&& to.path_control.request_body_limit is None
    &&& to.path_control.response_body_limit is None
}

impl ProxyConfig {
    /// The proxy that the entry stands for.
    pub fn proxy(self) -> (r: Result<internal::ProxyConfig, String>)
        ensures
            match r {
                Ok(p) => proxy_fault(self) is None && proxy_is(self, p),
                Err(msg) => proxy_fault(self) == Some(msg@),
            },
    {
        let upstream = match self.connector.upstream() {
            Ok(u) => u,
            Err(msg) => return Err(msg),
        };
        let path_control = match self.path_control.modifiers() {
            Ok(p) => p,
            Err(msg) => return Err(msg),
        };
        let mut upstreams: Vec<UpstreamConfig> = Vec::new();
        upstreams.push(upstream);
        let mut routes: Vec<RouteConfig> = Vec::new();
        routes.push(
            RouteConfig {
                matcher: RouteMatch::Any,
                methods: Vec::new(),
                upstream_options: UpstreamOptions::default(),
                upstreams,
            },
        );
        Ok(
            internal::ProxyConfig {
                name: self.name,
                listeners: build_listeners(self.listeners),
                routes,
                no_route: Rejection { status: 404, body: None },
                client_ip: None,
                normalization: Normalization::default(),
                overload: OverloadConfig::default(),
                path_control,
                rate_limiting: RateLimitingConfig { rules: Vec::new() },
            },
        )
    }
}

/// What is wrong with a list of proxies, first of all.
pub open spec fn proxies_fault(proxies: Seq<ProxyConfig>) -> Option<Seq<char>>
    decreases proxies.len(),
{
    if proxies.len() == 0 {
        None
    } else {
        match proxies_fault(proxies.drop_last()) {
            Some(msg) => Some(msg),
            None => proxy_fault(proxies.last()),
        }
    }
}

proof fn lemma_proxies_fault_stays(proxies: Seq<ProxyConfig>, n: int)
    requires
        0 <= n <= proxies.len(),
        proxies_fault(proxies.take(n)) is Some,
    ensures
        proxies_fault(proxies) == proxies_fault(proxies.take(n)),
    decreases proxies.len() - n,
{
    if n < proxies.len() {
        assert(proxies.take(n + 1).drop_last() == proxies.take(n));
        lemma_proxies_fault_stays(proxies, n + 1);
    } else {
        assert(proxies.take(n) == proxies);
    }
}

/// Adds what a TOML file says to a configuration: the threads are set, and the
/// proxies come behind those that are there. On an error the configuration is
/// as it was.
pub fn apply_toml(conf: &mut Config, toml: Toml) -> (r: Result<(), String>)
    ensures
        match r {
            Ok(_) => {
                let n = old(conf).basic_proxies@.len() as int;
                &&& proxies_fault(toml.basic_proxy@) is None
                &&& final(conf).basic_proxies@.len() == n + toml.basic_proxy@.len()
                &&& final(conf).basic_proxies@.take(n) == old(conf).basic_proxies@
                &&& forall|i: int|
                    0 <= i < toml.basic_proxy@.len() ==> #[trigger] proxy_is(
                        toml.basic_proxy@[i],
                        final(conf).basic_proxies@[n + i],
                    )
                &&& *final(conf) == Config {
                    threads_per_service: toml.system.threads_per_service,
                    basic_proxies: final(conf).basic_proxies,
                    ..*old(conf)
                }
            },
            Err(msg) => proxies_fault(toml.basic_proxy@) == Some(msg@) && *final(conf) == *old(
                conf,
            ),
        },
{
    let mut rest = toml.basic_proxy;
    let mut found: Vec<internal::ProxyConfig> = Vec::new();
    let ghost all = toml.basic_proxy@;
    let ghost mut done: int = 0;
    while rest.len() > 0
        invariant
            0 <= done <= all.len(),
            rest@ == all.skip(done),
            found@.len() == done,
            *conf == *old(conf),
            proxies_fault(all.take(done)) is None,
            all == toml.basic_proxy@,
            forall|i: int| 0 <= i < done ==> #[trigger] proxy_is(all[i], found@[i]),
        decreases rest@.len(),
    {
        let entry = rest.remove(0);
        assert(entry == all[done]);
        assert(all.take(done + 1).drop_last() == all.take(done));
        assert(all.take(done + 1).last() == entry);
        match entry.proxy() {
            Ok(p) => found.push(p),
            Err(msg) => {
                proof {
                    lemma_proxies_fault_stays(all, done + 1);
                }
                return Err(msg);
            },
        }
        proof {
            done = done + 1;
        }
        assert(rest@ == all.skip(done));
    }
    assert(all.take(done) == all);
    let ghost before = conf.basic_proxies@;
    let ghost new = found@;
    conf.threads_per_service = toml.system.threads_per_service;
    conf.basic_proxies.append(&mut found);
    assert(conf.basic_proxies@ == before + new);
    assert(conf.basic_proxies@.take(before.len() as int) == before);
    assert forall|i: int| 0 <= i < all.len() implies #[trigger] proxy_is(
        all[i],
        conf.basic_proxies@[before.len() + i],
    ) by {
        assert(conf.basic_proxies@[before.len() + i] == new[i]);
        assert(proxy_is(all[i], new[i]));
    }
    Ok(())
}

/// Of several settings of one name the last counts, and only a name that none has is not
/// set.
pub proof fn the_last_setting_of_a_name_counts(
    table: Seq<(Seq<char>, Seq<char>)>,
    key: Seq<char>,
    i: int,
)
    requires
        -1 <= i < table.len(),
        i >= 0 ==> table[i].0 == key,
        forall|k: int| i < k < table.len() ==> (#[trigger] table[k]).0 != key,
    ensures
        setting(table, key) == (if i >= 0 {
            Some(table[i].1)
        } else {
            None
        }),
    decreases table.len(),
{
    if i < table.len() - 1 {
        let front = table.drop_last();
        assert(table[table.len() - 1] == table.last());
        assert forall|k: int| i < k < front.len() implies (#[trigger] front[k]).0 != key by {
            assert(front[k] == table[k]);
        }
        the_last_setting_of_a_name_counts(front, key, i);
    }
}

/// Every setting that is not known is named, in order.
pub proof fn every_unknown_setting_is_named(
    table: Seq<(Seq<char>, Seq<char>)>,
    known: Seq<Seq<char>>,
    i: int,
)
    ensures
        leftover(table, known) == table.filter_map(
            |e: (Seq<char>, Seq<char>)|
                if known.contains(e.0) {
                    None
                } else {
                    Some(e.0)
                },
        ),
        0 <= i < table.len() && !known.contains(table[i].0) ==> leftover_fault(
            table,
            known,
        ) is Some,
    decreases table.len(),
{
    if table.len() > 0 {
        let front = table.drop_last();
        every_unknown_setting_is_named(front, known, i);
        if 0 <= i < front.len() {
            assert(front[i] == table[i]);
        }
    }
}

/// Each setting of a filter is one pair of a name and a value.
pub proof fn every_setting_is_a_pair(table: Seq<(String, String)>, i: int)
    requires
        0 <= i < table.len(),
    ensures
        settings(table).len() == table.len(),
        settings(table)[i] == (table[i].0@, table[i].1@),
{
}

/// A list of filters is in order if and only if each of them is.
pub proof fn every_filter_is_checked(tables: Seq<FilterTable>, side: Seq<char>)
    ensures
        filters_fault(tables, side) is None <==> forall|i: int|
            0 <= i < tables.len() ==> filter_fault(settings((#[trigger] tables[i])@), side) is None,
    decreases tables.len(),
{
    if tables.len() > 0 {
        let front = tables.drop_last();
        let last = tables.len() - 1;
        every_filter_is_checked(front, side);
        assert(forall|i: int| 0 <= i < front.len() ==> #[trigger] front[i] == tables[i]);
        assert(tables[last] == tables.last());
        if filters_fault(tables, side) is None {
            assert forall|i: int| 0 <= i < tables.len() implies filter_fault(
                settings((#[trigger] tables[i])@),
                side,
            ) is None by {
                if i < last {
                    assert(filter_fault(settings(front[i]@), side) is None);
                }
            }
        }
    }
}

/// A list of proxies is in order if and only if each of them is: its server has an address,
/// and all of its filters are in order.
pub proof fn every_proxy_is_checked(proxies: Seq<ProxyConfig>)
    ensures
        proxies_fault(proxies) is None <==> forall|i: int|
            0 <= i < proxies.len() ==> proxy_fault(#[trigger] proxies[i]) is None,
        forall|i: int|
            0 <= i < proxies.len() ==> (proxy_fault(#[trigger] proxies[i]) is None
                <==> net::socket_addr_of(proxies[i].connector.proxy_addr@) is Some
                && filters_fault(
                proxies[i].path_control.upstream_request_filters@,
                "request"@,
            ) is None && filters_fault(
                proxies[i].path_control.upstream_response_filters@,
                "response"@,
            ) is None),
    decreases proxies.len(),
{
    if proxies.len() > 0 {
        let front = proxies.drop_last();
        let last = proxies.len() - 1;
        every_proxy_is_checked(front);
        assert(forall|i: int| 0 <= i < front.len() ==> #[trigger] front[i] == proxies[i]);
        assert(proxies[last] == proxies.last());
        if proxies_fault(proxies) is None {
            assert forall|i: int| 0 <= i < proxies.len() implies proxy_fault(
                #[trigger] proxies[i],
            ) is None by {
                if i < last {
                    assert(proxy_fault(front[i]) is None);
                }
            }
        }
    }
}

/// Each filter is one change, in the order they stand in, and each listener is one listener:
/// nothing is left out of a proxy, and everything goes to its one server.
pub proof fn nothing_of_a_proxy_is_left_out(
    from: ProxyConfig,
    to: internal::ProxyConfig,
    i: int,
)
    requires
        proxy_is(from, to),
    ensures
        to.name@ == from.name@,
        to.listeners@.len() == from.listeners@.len(),
        0 <= i < from.listeners@.len() ==> match from.listeners@[i].source {
            ListenerKind::Uds(path) => to.listeners@[i].source matches internal::ListenerKind::Uds(
                p,
            ) && p@ == path@,
            ListenerKind::Tcp { addr, tls } => {
                &&& to.listeners@[i].source matches internal::ListenerKind::Tcp {
                    addr: a,
                    tls: t,
                    offer_h2,
                }
                &&& a@ == addr@
                &&& !offer_h2
                &&& t is Some <==> tls is Some
                &&& tls matches Some(x) ==> t->0.acme_domains@.len() == 0 && (
                t->0.cert matches Some(c) && c.cert_path@ == x.cert_path@ && c.key_path@
                    == x.key_path@)
            },
        },
        to.path_control.upstream_request_filters@.len()
            == from.path_control.upstream_request_filters@.len(),
        0 <= i < from.path_control.upstream_request_filters@.len() ==> filter_is(
            settings(from.path_control.upstream_request_filters@[i]@),
            to.path_control.upstream_request_filters@[i],
        ),
        to.path_control.upstream_response_filters@.len()
            == from.path_control.upstream_response_filters@.len(),
        0 <= i < from.path_control.upstream_response_filters@.len() ==> filter_is(
            settings(from.path_control.upstream_response_filters@[i]@),
            to.path_control.upstream_response_filters@[i],
        ),
        to.routes@.len() == 1,
        to.routes@[0].matcher is Any,
        to.routes@[0].methods@.len() == 0,
        to.routes@[0].upstreams@.len() == 1,
        to.routes@[0].upstreams@[0].kind matches UpstreamKind::Static { addr } && Some(addr)
            == net::socket_addr_of(from.connector.proxy_addr@),
        match from.connector.tls_sni {
            Some(sni) => to.routes@[0].upstreams@[0].peer.tls matches TlsName::Fixed(name) && name@
                == sni@,
            None => to.routes@[0].upstreams@[0].peer.tls is Plain,
        },
{
    if 0 <= i < from.listeners@.len() {
        assert(listener_is(from.listeners@[i], to.listeners@[i]));
    }
}

/// A filter makes the change of the kind that it names.
pub proof fn a_filter_is_of_its_kind(table: Seq<(Seq<char>, Seq<char>)>, m: HeaderModifier)
    requires
        filter_is(table, m),
    ensures
        match m {
            HeaderModifier::RemoveHeaderKeyRegex { pattern } => setting(table, "kind"@) == Some(
                "remove-header-key-regex"@,
            ) && setting(table, "pattern"@) == Some(pattern.source()),
            HeaderModifier::UpsertHeader { key, value } => setting(table, "kind"@) == Some(
                "upsert-header"@,
            ) && (setting(table, "key"@) matches Some(k) && key@ == text::lower_text(k)) && (
            setting(table, "value"@) matches Some(v) && value@ == text::utf8(v)),
            _ => false,
        },
{
}

} // verus!
