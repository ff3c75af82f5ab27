//! The `connectors` block: where requests are sent, and how they are balanced.
use crate::config::internal::{
    Duration, PeerTemplate, PeerTimeouts, RefreshKind, RefreshPolicy, TlsName, UpstreamConfig,
    UpstreamKind, UpstreamOptions, ALPN,
};
use crate::config::kdl::args;
use crate::config::kdl::args::{first_and_named, Args, Bad, Fault};
use crate::config::kdl::balancing;
use crate::config::kdl::balancing::extract_load_balance;
use crate::config::kdl::document;
use crate::config::kdl::document::{Document, Entry, Node, Span};
use crate::net;
use crate::text;
use vstd::prelude::*;

verus! {

/// A number of milliseconds as a span of time.
pub open spec fn opt_millis(n: Option<nat>) -> Option<Duration> {
    match n {
        Some(n) => Some(Duration { millis: n as u128 }),
        None => None,
    }
}

/// A number of seconds as a span of time.
pub open spec fn opt_seconds(n: Option<nat>) -> Option<Duration> {
    match n {
        Some(n) => Some(Duration { millis: (n * 1000) as u128 }),
        None => None,
    }
}

/// The value given, or else the default.
pub open spec fn given<T>(value: Option<T>, default: T) -> T {
    match value {
        Some(v) => v,
        None => default,
    }
}

pub fn take_millis(a: &Args, key: &str) -> (r: Result<Option<Duration>, Bad>)
    ensures
        args::told(r, args::num_fault(a.entries@, key@)),
        r matches Ok(v) ==> v == opt_millis(args::num_arg(a.entries@, key@)),
{
    match a.take_u64(key) {
        Ok(Some(n)) => Ok(Some(Duration::from_millis(n))),
        Ok(None) => Ok(None),
        Err(b) => Err(b),
    }
}

pub fn take_seconds(a: &Args, key: &str) -> (r: Result<Option<Duration>, Bad>)
    ensures
        args::told(r, args::num_fault(a.entries@, key@)),
        r matches Ok(v) ==> v == opt_seconds(args::num_arg(a.entries@, key@)),
{
    match a.take_u64(key) {
        Ok(Some(n)) => Ok(Some(Duration::from_secs(n))),
        Ok(None) => Ok(None),
        Err(b) => Err(b),
    }
}

/// The protocols that a word stands for.
pub open spec fn alpn_named(word: Seq<char>) -> Option<ALPN> {
    if word == "h1-only"@ {
        Some(ALPN::H1)
    } else if word == "h1-or-h2"@ || word == "h2-or-h1"@ {
        Some(ALPN::H2H1)
    } else if word == "h2-only"@ {
        Some(ALPN::H2)
    } else {
        None
    }
}

/// Is the server reached over TLS?
pub open spec fn is_secure(e: Seq<Entry>) -> bool {
    args::str_arg(e, "tls-sni"@) is Some || args::bool_arg(e, "tls"@) == Some(true)
}

/// Is `tls` the name that the arguments ask for?
pub open spec fn tls_is(e: Seq<Entry>, tls: TlsName) -> bool {
    match args::str_arg(e, "tls-sni"@) {
        Some(sni) => tls is Fixed && tls->Fixed_0@ == sni,
        None => if args::bool_arg(e, "tls"@) == Some(true) {
            tls is Discovered
        } else {
            tls is Plain
        },
    }
}

/// What is wrong with how TLS is asked for, if anything.
pub open spec fn tls_fault(e: Seq<Entry>, span: Span, discovered_name: bool) -> Option<Fault> {
    args::or(
        args::str_fault(e, "tls-sni"@),
        args::or(
            args::bool_fault(e, "tls"@),
            args::or(
                args::when(
                    args::str_arg(e, "tls-sni"@) is Some && args::bool_arg(e, "tls"@) is Some,
                    "set either 'tls-sni' or 'tls', not both: 'tls-sni' names the server explicitly, 'tls' takes the name it was discovered under"@,
                    span,
                ),
                args::when(
                    args::bool_arg(e, "tls"@) == Some(true) && !discovered_name,
                    "'tls' has no name to use here - this connector is a literal address. Use 'tls-sni' to name the server."@,
                    span,
                ),
            ),
        ),
    )
}

/// What is wrong with the protocol asked for, if anything.
pub open spec fn proto_fault(e: Seq<Entry>, span: Span) -> Option<Fault> {
    args::or(
        args::str_fault(e, "proto"@),
        match args::str_arg(e, "proto"@) {
            None => None,
            Some(word) => args::or(
                args::when(
                    alpn_named(word) is None,
                    "'proto' should be one of 'h1-only', 'h2-only', or 'h2-or-h1', found '"@ + word
                        + "'"@,
                    span,
                ),
                args::when(
                    !is_secure(e) && alpn_named(word) != Some(ALPN::H1),
                    "HTTP2 to an upstream server requires TLS: set 'tls-sni' or 'tls'"@,
                    span,
                ),
            ),
        },
    )
}

/// What is wrong with the connection settings of a connector, if anything.
pub open spec fn peer_fault(e: Seq<Entry>, span: Span, discovered_name: bool) -> Option<Fault> {
    args::or(
        tls_fault(e, span, discovered_name),
        args::or(
            proto_fault(e, span),
            args::or(
                args::num_fault(e, "connection-timeout-ms"@),
                args::or(
                    args::num_fault(e, "total-connection-timeout-ms"@),
                    args::or(
                        args::num_fault(e, "read-timeout-ms"@),
                        args::or(
                            args::num_fault(e, "write-timeout-ms"@),
                            args::num_fault(e, "idle-timeout-ms"@),
                        ),
                    ),
                ),
            ),
        ),
    )
}

/// Is `p` what the connection settings ask for?
pub open spec fn peer_is(e: Seq<Entry>, p: PeerTemplate) -> bool {
    &&& tls_is(e, p.tls)
    &&& p.alpn == (match args::str_arg(e, "proto"@) {
        Some(word) => alpn_named(word)->0,
        None => if is_secure(e) {
            ALPN::H2H1
        } else {
            ALPN::H1
        },
    })
    &&& p.timeouts == (PeerTimeouts {
        connection: opt_millis(args::num_arg(e, "connection-timeout-ms"@)),
        total_connection: opt_millis(args::num_arg(e, "total-connection-timeout-ms"@)),
        read: opt_millis(args::num_arg(e, "read-timeout-ms"@)),
        write: opt_millis(args::num_arg(e, "write-timeout-ms"@)),
        idle: opt_millis(args::num_arg(e, "idle-timeout-ms"@)),
    })
}

/// HTTP2 is only spoken over TLS.
fn require_tls(secure: bool, span: Span) -> (r: Result<(), Bad>)
    ensures
        args::told(
            r,
            args::when(
                !secure,
                "HTTP2 to an upstream server requires TLS: set 'tls-sni' or 'tls'"@,
                span,
            ),
        ),
{
    if secure {
        Ok(())
    } else {
        Err(
            Bad::plain(
                "HTTP2 to an upstream server requires TLS: set 'tls-sni' or 'tls'",
                span,
            ),
        )
    }
}

fn extract_tls(a: &Args, discovered_name: bool) -> (r: Result<TlsName, Bad>)
    ensures
        args::told(r, tls_fault(a.entries@, a.span, discovered_name)),
        r matches Ok(t) ==> tls_is(a.entries@, t),
{
    let tls_sni = match a.take_str("tls-sni") {
        Ok(v) => v,
        Err(b) => {
            return Err(b);
        },
    };
    let tls_flag = match a.take_bool("tls") {
        Ok(v) => v,
        Err(b) => {
            return Err(b);
        },
    };
    match (tls_sni, tls_flag) {
        (Some(_), Some(_)) => Err(
            Bad::plain(
                "set either 'tls-sni' or 'tls', not both: 'tls-sni' names the server explicitly, 'tls' takes the name it was discovered under",
                a.span,
            ),
        ),
        (Some(sni), None) => Ok(TlsName::Fixed(sni.to_owned())),
        (None, Some(true)) => {
            if discovered_name {
                Ok(TlsName::Discovered)
            } else {
                Err(
                    Bad::plain(
                        "'tls' has no name to use here - this connector is a literal address. Use 'tls-sni' to name the server.",
                        a.span,
                    ),
                )
            }
        },
        _ => Ok(TlsName::Plain),
    }
}

fn extract_alpn(a: &Args, secure: bool) -> (r: Result<ALPN, Bad>)
    requires
        secure == is_secure(a.entries@),
    ensures
        args::told(r, proto_fault(a.entries@, a.span)),
        r matches Ok(p) ==> p == (match args::str_arg(a.entries@, "proto"@) {
            Some(word) => alpn_named(word)->0,
            None => if secure {
                ALPN::H2H1
            } else {
                ALPN::H1
            },
        }),
{
    let word = match a.take_str("proto") {
        Ok(v) => v,
        Err(b) => {
            return Err(b);
        },
    };
    let word = match word {
        Some(w) => w,
        None => {
            return if secure {
                Ok(ALPN::H2H1)
            } else {
                Ok(ALPN::H1)
            };
        },
    };
    if text::same_text(word, "h1-only") {
        return Ok(ALPN::H1);
    }
    let alpn = if text::same_text(word, "h1-or-h2") || text::same_text(word, "h2-or-h1") {
        ALPN::H2H1
    } else if text::same_text(word, "h2-only") {
        ALPN::H2
    } else {
        return Err(
            Bad::quoting(
                "'proto' should be one of 'h1-only', 'h2-only', or 'h2-or-h1', found '",
                word,
                "'",
                a.span,
            ),
        );
    };
    match require_tls(secure, a.span) {
        Ok(()) => Ok(alpn),
        Err(b) => Err(b),
    }
}

/// The connection settings shared by every kind of connector entry.
///
/// `discovered_name` says whether this entry has a name that `tls=true` could
/// take an SNI from.
pub fn extract_peer_template(a: &Args, discovered_name: bool) -> (r: Result<PeerTemplate, Bad>)
    ensures
        args::told(r, peer_fault(a.entries@, a.span, discovered_name)),
        r matches Ok(p) ==> peer_is(a.entries@, p),
{
    let tls = match extract_tls(a, discovered_name) {
        Ok(v) => v,
        Err(b) => {
            return Err(b);
        },
    };
    let secure = match &tls {
        TlsName::Plain => false,
        _ => true,
    };
    let alpn = match extract_alpn(a, secure) {
        Ok(v) => v,
        Err(b) => {
            return Err(b);
        },
    };
    let connection = match take_millis(a, "connection-timeout-ms") {
        Ok(v) => v,
        Err(b) => {
            return Err(b);
        },
    };
    let total_connection = match take_millis(a, "total-connection-timeout-ms") {
        Ok(v) => v,
        Err(b) => {
            return Err(b);
        },
    };
    let read = match take_millis(a, "read-timeout-ms") {
        Ok(v) => v,
        Err(b) => {
            return Err(b);
        },
    };
    let write = match take_millis(a, "write-timeout-ms") {
        Ok(v) => v,
        Err(b) => {
            return Err(b);
        },
    };
    let idle = match take_millis(a, "idle-timeout-ms") {
        Ok(v) => v,
        Err(b) => {
            return Err(b);
        },
    };
    Ok(
        PeerTemplate {
            tls,
            alpn,
            timeouts: PeerTimeouts { connection, total_connection, read, write, idle },
        },
    )
}

/// The bounds of a refresh policy should be the right way round.
pub open spec fn bounds_fault(policy: RefreshPolicy, span: Span) -> Option<Fault> {
    args::when(
        policy.min.millis > policy.max.millis,
        "the minimum refresh interval ("@ + text::decimal((policy.min.millis / 1000) as nat)
            + "s) is longer than the maximum ("@ + text::decimal(
            (policy.max.millis / 1000) as nat,
        ) + "s)"@,
        span,
    )
}

/// Checks that the bounds of a refresh policy are the right way round.
pub fn check_bounds(policy: &RefreshPolicy, span: Span) -> (r: Result<(), Bad>)
    ensures
        args::told(r, bounds_fault(*policy, span)),
{
    if policy.min.millis > policy.max.millis {
        let low = text::decimal_text(policy.min.as_secs());
        let high = text::decimal_text(policy.max.as_secs());
        let mut message = text::concat3(
            "the minimum refresh interval (",
            low.as_str(),
            "s) is longer than the maximum (",
        );
        message.append(high.as_str());
        message.append("s)");
        return Err(Bad::docspan(message, span));
    }
    Ok(())
}

/// The policy that a `refresh-bounds` entry sets.
pub open spec fn bounds_of(e: Seq<Entry>) -> RefreshPolicy {
    RefreshPolicy {
        kind: RefreshKind::Ttl,
        min: given(opt_seconds(args::num_arg(e, "min-seconds"@)), Duration { millis: 5000 }),
        max: given(opt_seconds(args::num_arg(e, "max-seconds"@)), Duration { millis: 300000 }),
    }
}

/// What is wrong with a `refresh-bounds` entry, if anything.
pub open spec fn refresh_bounds_fault(node: Node) -> Option<Fault> {
    let e = node.entries@;
    args::or(
        args::unnamed(e),
        args::or(
            args::num_fault(e, "min-seconds"@),
            args::or(
                args::num_fault(e, "max-seconds"@),
                args::or(
                    args::unread_fault(
                        e,
                        args::words(seq!["min-seconds", "max-seconds"]),
                        node.span,
                    ),
                    bounds_fault(bounds_of(e), node.span),
                ),
            ),
        ),
    )
}

/// `refresh-bounds min-seconds=5 max-seconds=300`.
pub fn extract_refresh_bounds(node: &Node) -> (r: Result<RefreshPolicy, Bad>)
    ensures
        args::told(r, refresh_bounds_fault(*node)),
        r matches Ok(p) ==> p == bounds_of(node.entries@),
{
    let a = match Args::named(&node.entries, node.span) {
        Ok(a) => a,
        Err(b) => {
            return Err(b);
        },
    };
    let defaults = RefreshPolicy::default();
    let min = match take_seconds(&a, "min-seconds") {
        Ok(Some(v)) => v,
        Ok(None) => defaults.min,
        Err(b) => {
            return Err(b);
        },
    };
    let max = match take_seconds(&a, "max-seconds") {
        Ok(Some(v)) => v,
        Ok(None) => defaults.max,
        Err(b) => {
            return Err(b);
        },
    };
    let known = ["min-seconds", "max-seconds"];
    assert(known@ == seq!["min-seconds", "max-seconds"]);
    match a.finish(&known) {
        Ok(()) => {},
        Err(b) => {
            return Err(b);
        },
    }
    let policy = RefreshPolicy { kind: defaults.kind, min, max };
    match check_bounds(&policy, node.span) {
        Ok(()) => Ok(policy),
        Err(b) => Err(b),
    }
}

/// The policy that the arguments of a source set, over the defaults of its
/// block.
pub open spec fn refresh_of(e: Seq<Entry>, defaults: RefreshPolicy) -> RefreshPolicy {
    RefreshPolicy {
        kind: if args::str_arg(e, "refresh"@) is Some {
            RefreshKind::Ttl
        } else {
            match opt_seconds(args::num_arg(e, "refresh-seconds"@)) {
                Some(fixed) => RefreshKind::Fixed(fixed),
                None => defaults.kind,
            }
        },
        min: given(opt_seconds(args::num_arg(e, "min-refresh-seconds"@)), defaults.min),
        max: given(opt_seconds(args::num_arg(e, "max-refresh-seconds"@)), defaults.max),
    }
}

/// What is wrong with how often a source is to be resolved, if anything.
pub open spec fn refresh_kind_fault(e: Seq<Entry>, span: Span) -> Option<Fault> {
    args::or(
        args::str_fault(e, "refresh"@),
        args::or(
            args::num_fault(e, "refresh-seconds"@),
            match (args::str_arg(e, "refresh"@), args::num_arg(e, "refresh-seconds"@)) {
                (Some(word), secs) => if word == "ttl"@ {
                    args::when(
                        secs is Some,
                        "set either 'refresh=\"ttl\"' or 'refresh-seconds', not both"@,
                        span,
                    )
                } else {
                    Some(
                        (
                            "'"@ + word
                                + "' is not a refresh setting. Use 'refresh=\"ttl\"' to follow the record's TTL, or 'refresh-seconds' for a fixed interval."@,
                            span,
                        ),
                    )
                },
                (None, Some(secs)) => args::when(
                    secs == 0,
                    "'refresh-seconds' must be at least 1"@,
                    span,
                ),
                (None, None) => None,
            },
        ),
    )
}

/// What is wrong with the refresh settings of a source, if anything.
pub open spec fn refresh_fault(e: Seq<Entry>, span: Span, defaults: RefreshPolicy) -> Option<
    Fault,
> {
    args::or(
        refresh_kind_fault(e, span),
        args::or(
            args::num_fault(e, "min-refresh-seconds"@),
            args::or(
                args::num_fault(e, "max-refresh-seconds"@),
                args::or(
                    args::when(
                        refresh_of(e, defaults).min.millis == 0,
                        "'min-refresh-seconds' must be at least 1"@,
                        span,
                    ),
                    bounds_fault(refresh_of(e, defaults), span),
                ),
            ),
        ),
    )
}

fn extract_refresh_kind(a: &Args, default: RefreshKind) -> (r: Result<RefreshKind, Bad>)
    ensures
        args::told(r, refresh_kind_fault(a.entries@, a.span)),
        r matches Ok(k) ==> k == (if args::str_arg(a.entries@, "refresh"@) is Some {
            RefreshKind::Ttl
        } else {
            match opt_seconds(args::num_arg(a.entries@, "refresh-seconds"@)) {
                Some(fixed) => RefreshKind::Fixed(fixed),
                None => default,
            }
        }),
{
    let refresh = match a.take_str("refresh") {
        Ok(v) => v,
        Err(b) => {
            return Err(b);
        },
    };
    let seconds = match take_seconds(a, "refresh-seconds") {
        Ok(v) => v,
        Err(b) => {
            return Err(b);
        },
    };
    match (refresh, seconds) {
        (Some(word), secs) => {
            if text::same_text(word, "ttl") {
                if secs.is_some() {
                    return Err(
                        Bad::plain(
                            "set either 'refresh=\"ttl\"' or 'refresh-seconds', not both",
                            a.span,
                        ),
                    );
                }
                Ok(RefreshKind::Ttl)
            } else {
                Err(
                    Bad::quoting(
                        "'",
                        word,
                        "' is not a refresh setting. Use 'refresh=\"ttl\"' to follow the record's TTL, or 'refresh-seconds' for a fixed interval.",
                        a.span,
                    ),
                )
            }
        },
        (None, Some(fixed)) => {
            if fixed.is_zero() {
                return Err(Bad::plain("'refresh-seconds' must be at least 1", a.span));
            }
            Ok(RefreshKind::Fixed(fixed))
        },
        (None, None) => Ok(default),
    }
}

/// How often one source re-resolves.
pub fn extract_refresh(a: &Args, defaults: RefreshPolicy) -> (r: Result<RefreshPolicy, Bad>)
    ensures
        args::told(r, refresh_fault(a.entries@, a.span, defaults)),
        r matches Ok(p) ==> p == refresh_of(a.entries@, defaults) && p.wf(),
{
    let kind = match extract_refresh_kind(a, defaults.kind) {
        Ok(v) => v,
        Err(b) => {
            return Err(b);
        },
    };
    let min = match take_seconds(a, "min-refresh-seconds") {
        Ok(Some(v)) => v,
        Ok(None) => defaults.min,
        Err(b) => {
            return Err(b);
        },
    };
    let max = match take_seconds(a, "max-refresh-seconds") {
        Ok(Some(v)) => v,
        Ok(None) => defaults.max,
        Err(b) => {
            return Err(b);
        },
    };
    let policy = RefreshPolicy { kind, min, max };
    if policy.min.is_zero() {
        return Err(Bad::plain("'min-refresh-seconds' must be at least 1", a.span));
    }
    match check_bounds(&policy, a.span) {
        Ok(()) => Ok(policy),
        Err(b) => Err(b),
    }
}

/// The settings that a literal address knows.
pub open spec fn static_known() -> Seq<Seq<char>> {
    args::words(
        seq![
            "tls-sni",
            "tls",
            "proto",
            "connection-timeout-ms",
            "total-connection-timeout-ms",
            "read-timeout-ms",
            "write-timeout-ms",
            "idle-timeout-ms",
        ],
    )
}

/// The settings that an SRV source knows.
pub open spec fn srv_known() -> Seq<Seq<char>> {
    args::words(
        seq![
            "tls-sni",
            "tls",
            "proto",
            "connection-timeout-ms",
            "total-connection-timeout-ms",
            "read-timeout-ms",
            "write-timeout-ms",
            "idle-timeout-ms",
            "refresh",
            "refresh-seconds",
            "min-refresh-seconds",
            "max-refresh-seconds",
        ],
    )
}

/// The settings that a DNS source knows.
pub open spec fn dns_known() -> Seq<Seq<char>> {
    args::words(
        seq![
            "port",
            "tls-sni",
            "tls",
            "proto",
            "connection-timeout-ms",
            "total-connection-timeout-ms",
            "read-timeout-ms",
            "write-timeout-ms",
            "idle-timeout-ms",
            "refresh",
            "refresh-seconds",
            "min-refresh-seconds",
            "max-refresh-seconds",
        ],
    )
}

/// What is wrong with a literal address, if anything.
pub open spec fn connector_fault(node: Node) -> Option<Fault> {
    args::or(
        args::when(
            net::socket_addr_of(node.name@) is None,
            "'"@ + node.name@
                + "' is not a socket address. A connector is either an 'IP:port', or a 'dns' or 'srv' entry."@,
            node.span,
        ),
        args::or(
            args::unnamed(node.entries@),
            args::or(
                peer_fault(node.entries@, node.span, false),
                args::unread_fault(node.entries@, static_known(), node.span),
            ),
        ),
    )
}

/// Is `u` what a literal address says?
pub open spec fn connector_is(node: Node, u: UpstreamConfig) -> bool {
    &&& match u.kind {
        UpstreamKind::Static { addr } => net::socket_addr_of(node.name@) == Some(addr),
        _ => false,
    }
    &&& peer_is(node.entries@, u.peer)
}

/// Extracts a single literal-address connector.
pub fn extract_connector(node: &Node) -> (r: Result<UpstreamConfig, Bad>)
    ensures
        args::told(r, connector_fault(*node)),
        r matches Ok(u) ==> connector_is(*node, u),
{
    let addr = match net::parse_socket_addr(node.name.as_str()) {
        Some(a) => a,
        None => {
            return Err(
                Bad::quoting(
                    "'",
                    node.name.as_str(),
                    "' is not a socket address. A connector is either an 'IP:port', or a 'dns' or 'srv' entry.",
                    node.span,
                ),
            );
        },
    };
    let a = match Args::named(&node.entries, node.span) {
        Ok(a) => a,
        Err(b) => {
            return Err(b);
        },
    };
    // A literal address was not discovered under any name, so there is nothing
    // for `tls=true` to take an SNI from.
    let peer = match extract_peer_template(&a, false) {
        Ok(p) => p,
        Err(b) => {
            return Err(b);
        },
    };
    let known = [
        "tls-sni",
        "tls",
        "proto",
        "connection-timeout-ms",
        "total-connection-timeout-ms",
        "read-timeout-ms",
        "write-timeout-ms",
        "idle-timeout-ms",
    ];
    assert(args::words(known@) == static_known());
    match a.finish(&known) {
        Ok(()) => Ok(UpstreamConfig { kind: UpstreamKind::Static { addr }, peer }),
        Err(b) => Err(b),
    }
}

/// What is wrong with a `dns` entry, if anything.
pub open spec fn dns_fault(node: Node, defaults: RefreshPolicy) -> Option<Fault> {
    let host = args::as_text(node.entries@[0].value)->0;
    let e = node.entries@.skip(1);
    args::or(
        args::lead_fault(node.entries@, "dns"@, node.span),
        args::or(
            args::when(
                net::socket_addr_of(host) is Some || net::ip_of(host) is Some,
                "'"@ + host
                    + "' is an address, not a name. Write it as a plain connector entry."@,
                node.span,
            ),
            args::or(
                args::u16_fault(e, "port"@, node.span),
                args::or(
                    args::when(
                        args::num_arg(e, "port"@) is None,
                        "'port' is required: DNS address records do not carry one"@,
                        node.span,
                    ),
                    args::or(
                        peer_fault(e, node.span, true),
                        args::or(
                            refresh_fault(e, node.span, defaults),
                            args::unread_fault(e, dns_known(), node.span),
                        ),
                    ),
                ),
            ),
        ),
    )
}

/// Is `u` what a `dns` entry says?
pub open spec fn dns_is(node: Node, defaults: RefreshPolicy, u: UpstreamConfig) -> bool {
    let e = node.entries@.skip(1);
    &&& match u.kind {
        UpstreamKind::Dns { host, port, refresh } => {
            &&& args::as_text(node.entries@[0].value) == Some(host@)
            &&& args::num_arg(e, "port"@) == Some(port as nat)
            &&& refresh == refresh_of(e, defaults)
            &&& refresh.wf()
        },
        _ => false,
    }
    &&& peer_is(e, u.peer)
}

/// `dns "backends.example.com" port=8080`.
pub fn extract_dns_source(node: &Node, defaults: RefreshPolicy) -> (r: Result<UpstreamConfig, Bad>)
    ensures
        args::told(r, dns_fault(*node, defaults)),
        r matches Ok(u) ==> dns_is(*node, defaults, u),
{
    let (host, a) = match first_and_named(&node.entries, "dns", node.span) {
        Ok(p) => p,
        Err(b) => {
            return Err(b);
        },
    };
    if net::parse_socket_addr(host).is_some() || net::parse_ip(host).is_some() {
        return Err(
            Bad::quoting(
                "'",
                host,
                "' is an address, not a name. Write it as a plain connector entry.",
                node.span,
            ),
        );
    }
    let port = match a.take_u16("port") {
        Ok(Some(p)) => p,
        Ok(None) => {
            return Err(
                Bad::plain("'port' is required: DNS address records do not carry one", node.span),
            );
        },
        Err(b) => {
            return Err(b);
        },
    };
    let peer = match extract_peer_template(&a, true) {
        Ok(p) => p,
        Err(b) => {
            return Err(b);
        },
    };
    let refresh = match extract_refresh(&a, defaults) {
        Ok(p) => p,
        Err(b) => {
            return Err(b);
        },
    };
    let known = [
        "port",
        "tls-sni",
        "tls",
        "proto",
        "connection-timeout-ms",
        "total-connection-timeout-ms",
        "read-timeout-ms",
        "write-timeout-ms",
        "idle-timeout-ms",
        "refresh",
        "refresh-seconds",
        "min-refresh-seconds",
        "max-refresh-seconds",
    ];
    assert(args::words(known@) == dns_known());
    match a.finish(&known) {
        Ok(()) => Ok(
            UpstreamConfig { kind: UpstreamKind::Dns { host: host.to_owned(), port, refresh }, peer },
        ),
        Err(b) => Err(b),
    }
}

/// Does the text begin with an underscore?
pub open spec fn is_srv_name(s: Seq<char>) -> bool {
    s.len() > 0 && s[0] == '_'
}

/// What is wrong with an `srv` entry, if anything.
pub open spec fn srv_fault(node: Node, defaults: RefreshPolicy) -> Option<Fault> {
    let name = args::as_text(node.entries@[0].value)->0;
    let e = node.entries@.skip(1);
    args::or(
        args::lead_fault(node.entries@, "srv"@, node.span),
        args::or(
            args::when(
                !is_srv_name(name),
                "'"@ + name
                    + "' does not look like an SRV name, which has the form '_service._proto.domain'. For a plain hostname, use a 'dns' entry."@,
                node.span,
            ),
            args::or(
                peer_fault(e, node.span, true),
                args::or(
                    refresh_fault(e, node.span, defaults),
                    args::unread_fault(e, srv_known(), node.span),
                ),
            ),
        ),
    )
}

/// Is `u` what an `srv` entry says?
pub open spec fn srv_is(node: Node, defaults: RefreshPolicy, u: UpstreamConfig) -> bool {
    let e = node.entries@.skip(1);
    &&& match u.kind {
        UpstreamKind::Srv { name, refresh } => {
            &&& args::as_text(node.entries@[0].value) == Some(name@)
            &&& refresh == refresh_of(e, defaults)
            &&& refresh.wf()
        },
        _ => false,
    }
    &&& peer_is(e, u.peer)
}

/// `srv "_https._tcp.example.com" tls=true`.
pub fn extract_srv_source(node: &Node, defaults: RefreshPolicy) -> (r: Result<UpstreamConfig, Bad>)
    ensures
        args::told(r, srv_fault(*node, defaults)),
        r matches Ok(u) ==> srv_is(*node, defaults, u),
{
    let (name, a) = match first_and_named(&node.entries, "srv", node.span) {
        Ok(p) => p,
        Err(b) => {
            return Err(b);
        },
    };
    // Not a hard requirement of the protocol, but a name without the leading
    // underscore labels is nearly always a `dns` entry written by mistake.
    let chars = text::chars_of(name);
    if !(chars.len() > 0 && chars[0] == '_') {
        return Err(
            Bad::quoting(
                "'",
                name,
                "' does not look like an SRV name, which has the form '_service._proto.domain'. For a plain hostname, use a 'dns' entry.",
                node.span,
            ),
        );
    }
    let peer = match extract_peer_template(&a, true) {
        Ok(p) => p,
        Err(b) => {
            return Err(b);
        },
    };
    let refresh = match extract_refresh(&a, defaults) {
        Ok(p) => p,
        Err(b) => {
            return Err(b);
        },
    };
    let known = [
        "tls-sni",
        "tls",
        "proto",
        "connection-timeout-ms",
        "total-connection-timeout-ms",
        "read-timeout-ms",
        "write-timeout-ms",
        "idle-timeout-ms",
        "refresh",
        "refresh-seconds",
        "min-refresh-seconds",
        "max-refresh-seconds",
    ];
    assert(args::words(known@) == srv_known());
    match a.finish(&known) {
        Ok(()) => Ok(
            UpstreamConfig { kind: UpstreamKind::Srv { name: name.to_owned(), refresh }, peer },
        ),
        Err(b) => Err(b),
    }
}

/// What is wrong with one entry of a `connectors` block, if anything. The
/// `load-balance` block is looked at on its own.
pub open spec fn source_fault(node: Node, defaults: RefreshPolicy) -> Option<Fault> {
    if node.name@ == "load-balance"@ {
        None
    } else if node.name@ == "dns"@ {
        dns_fault(node, defaults)
    } else if node.name@ == "srv"@ {
        srv_fault(node, defaults)
    } else {
        connector_fault(node)
    }
}

/// Is `u` what one entry of a `connectors` block says?
pub open spec fn source_is(node: Node, defaults: RefreshPolicy, u: UpstreamConfig) -> bool {
    if node.name@ == "dns"@ {
        dns_is(node, defaults, u)
    } else if node.name@ == "srv"@ {
        srv_is(node, defaults, u)
    } else {
        connector_is(node, u)
    }
}

/// The check that each entry of a `connectors` block goes through.
pub open spec fn source_check(defaults: RefreshPolicy) -> spec_fn(Node) -> Option<Fault> {
    |n: Node| source_fault(n, defaults)
}

/// The entries of a `connectors` block that name servers.
pub open spec fn sources(nodes: Seq<Node>) -> Seq<Node>
    decreases nodes.len(),
{
    if nodes.len() == 0 {
        Seq::empty()
    } else {
        let front = sources(nodes.drop_last());
        if nodes.last().name@ == "load-balance"@ {
            front
        } else {
            front.push(nodes.last())
        }
    }
}

/// What is wrong with the `load-balance` blocks among the entries, if anything.
pub open spec fn balance_fault(nodes: Seq<Node>) -> Option<Fault>
    decreases nodes.len(),
{
    if nodes.len() == 0 {
        None
    } else {
        let front = nodes.drop_last();
        let node = nodes.last();
        args::or(
            balance_fault(front),
            args::on(
                node,
                "load-balance"@,
                args::or(
                    args::when(
                        document::last_named(front, "load-balance"@) is Some,
                        "Only one 'load-balance' section is allowed"@,
                        node.span,
                    ),
                    balancing::load_balance_fault(node),
                ),
            ),
        )
    }
}

/// The refresh bounds that the entries of a block inherit.
pub open spec fn inherited(nodes: Seq<Node>) -> RefreshPolicy {
    match document::last_named(nodes, "load-balance"@) {
        Some(n) => balancing::block_bounds(n.children->0.nodes@),
        None => bounds_of(Seq::empty()),
    }
}

/// What is wrong with a `connectors` block, if anything.
pub open spec fn connectors_fault(block: Document) -> Option<Fault> {
    let nodes = block.nodes@;
    args::or(
        balance_fault(nodes),
        args::or(
            args::first_fault(nodes, source_check(inherited(nodes))),
            args::when(
                sources(nodes).len() == 0,
                "We require at least one connector"@,
                block.span,
            ),
        ),
    )
}

/// Are these the options and the servers that a `connectors` block asks for?
pub open spec fn connectors_are(
    block: Document,
    options: UpstreamOptions,
    upstreams: Seq<UpstreamConfig>,
) -> bool {
    let nodes = block.nodes@;
    &&& match document::last_named(nodes, "load-balance"@) {
        Some(n) => balancing::options_are(n.children->0.nodes@, options),
        None => balancing::options_are(Seq::empty(), options),
    }
    &&& upstreams.len() == sources(nodes).len()
    &&& forall|i: int|
        0 <= i < upstreams.len() ==> source_is(
            sources(nodes)[i],
            inherited(nodes),
            #[trigger] upstreams[i],
        )
}

proof fn lemma_balance_fault_stays(nodes: Seq<Node>, n: int)
    requires
        0 <= n <= nodes.len(),
        balance_fault(nodes.take(n)) is Some,
    ensures
        balance_fault(nodes) == balance_fault(nodes.take(n)),
    decreases nodes.len() - n,
{
    if n < nodes.len() {
        assert(nodes.take(n + 1).drop_last() == nodes.take(n));
        lemma_balance_fault_stays(nodes, n + 1);
    } else {
        assert(nodes.take(n) == nodes);
    }
}

/// The settings in the `load-balance` block are read by the entries beside it,
/// so it is looked at first no matter where in the block it was written.
fn extract_balance(nodes: &[Node]) -> (r: Result<(UpstreamOptions, RefreshPolicy), Bad>)
    ensures
        args::told(r, balance_fault(nodes@)),
        r matches Ok((o, p)) ==> p == inherited(nodes@) && (match document::last_named(
            nodes@,
            "load-balance"@,
        ) {
            Some(n) => balancing::options_are(n.children->0.nodes@, o),
            None => balancing::options_are(Seq::empty(), o),
        }),
{
    let mut found: Option<(UpstreamOptions, RefreshPolicy)> = None;
    let mut i: usize = 0;
    while i < nodes.len()
        invariant
            i <= nodes@.len(),
            balance_fault(nodes@.take(i as int)) is None,
            match found {
                Some((o, p)) => {
                    let n = document::last_named(nodes@.take(i as int), "load-balance"@);
                    n is Some && balancing::options_are(n->0.children->0.nodes@, o) && p
                        == balancing::block_bounds(n->0.children->0.nodes@)
                },
                None => document::last_named(nodes@.take(i as int), "load-balance"@) is None,
            },
        decreases nodes@.len() - i,
    {
        let ghost next = nodes@.take(i + 1);
        assert(next.drop_last() == nodes@.take(i as int));
        assert(next.last() == nodes@[i as int]);
        if text::same_text(nodes[i].name.as_str(), "load-balance") {
            if found.is_some() {
                proof {
                    lemma_balance_fault_stays(nodes@, i + 1);
                }
                return Err(
                    Bad::plain("Only one 'load-balance' section is allowed", nodes[i].span),
                );
            }
            match extract_load_balance(&nodes[i]) {
                Ok(p) => {
                    found = Some(p);
                },
                Err(b) => {
                    proof {
                        lemma_balance_fault_stays(nodes@, i + 1);
                    }
                    return Err(b);
                },
            }
        }
        i = i + 1;
    }
    assert(nodes@.take(nodes@.len() as int) == nodes@);
    match found {
        Some(p) => Ok(p),
        None => Ok((UpstreamOptions::default(), RefreshPolicy::default())),
    }
}

fn extract_source(node: &Node, defaults: RefreshPolicy) -> (r: Result<UpstreamConfig, Bad>)
    requires
        node.name@ != "load-balance"@,
    ensures
        args::told(r, source_fault(*node, defaults)),
        r matches Ok(u) ==> source_is(*node, defaults, u),
{
    if text::same_text(node.name.as_str(), "dns") {
        extract_dns_source(node, defaults)
    } else if text::same_text(node.name.as_str(), "srv") {
        extract_srv_source(node, defaults)
    } else {
        extract_connector(node)
    }
}

/// Extracts a whole `connectors` block.
pub fn extract_connectors(block: &Document) -> (r: Result<
    (UpstreamOptions, Vec<UpstreamConfig>),
    Bad,
>)
    ensures
        args::told(r, connectors_fault(*block)),
        r matches Ok((o, u)) ==> connectors_are(*block, o, u@),
{
    let nodes = block.nodes.as_slice();
    let (options, defaults) = match extract_balance(nodes) {
        Ok(p) => p,
        Err(b) => {
            return Err(b);
        },
    };
    let mut upstreams: Vec<UpstreamConfig> = Vec::new();
    let mut i: usize = 0;
    while i < nodes.len()
        invariant
            i <= nodes@.len(),
            nodes@ == block.nodes@,
            balance_fault(nodes@) is None,
            defaults == inherited(nodes@),
            args::first_fault(nodes@.take(i as int), source_check(defaults)) is None,
            upstreams@.len() == sources(nodes@.take(i as int)).len(),
            forall|k: int|
                0 <= k < upstreams@.len() ==> source_is(
                    sources(nodes@.take(i as int))[k],
                    defaults,
                    #[trigger] upstreams@[k],
                ),
        decreases nodes@.len() - i,
    {
        let ghost next = nodes@.take(i + 1);
        assert(next.drop_last() == nodes@.take(i as int));
        assert(next.last() == nodes@[i as int]);
        if !text::same_text(nodes[i].name.as_str(), "load-balance") {
            match extract_source(&nodes[i], defaults) {
                Ok(u) => {
                    upstreams.push(u);
                },
                Err(b) => {
                    proof {
                        args::lemma_fault_stays(nodes@, i + 1, source_check(defaults));
                    }
                    return Err(b);
                },
            }
        }
        i = i + 1;
    }
    assert(nodes@.take(nodes@.len() as int) == nodes@);
    if upstreams.len() == 0 {
        return Err(Bad::plain("We require at least one connector", block.span));
    }
    Ok((options, upstreams))
}

/// The servers of a block are all of its entries but the `load-balance` block, in the order
/// they stand in.
pub proof fn every_other_entry_is_a_server(nodes: Seq<Node>, names_server: spec_fn(Node) -> bool)
    requires
        forall|n: Node| #[trigger] names_server(n) <==> n.name@ != "load-balance"@,
    ensures
        sources(nodes) == nodes.filter(names_server),
    decreases nodes.len(),
{
    reveal(Seq::filter);
    if nodes.len() > 0 {
        every_other_entry_is_a_server(nodes.drop_last(), names_server);
        assert(names_server(nodes.last()) <==> nodes.last().name@ != "load-balance"@);
    }
}

/// Each entry of a `connectors` block but the `load-balance` block is one upstream, in the
/// order they stand in: a name to look up or the address that it is.
pub proof fn every_entry_is_an_upstream(
    block: Document,
    options: UpstreamOptions,
    upstreams: Seq<UpstreamConfig>,
    names_server: spec_fn(Node) -> bool,
    i: int,
)
    requires
        connectors_are(block, options, upstreams),
        forall|n: Node| #[trigger] names_server(n) <==> n.name@ != "load-balance"@,
        0 <= i < block.nodes@.filter(names_server).len(),
    ensures
        upstreams.len() == block.nodes@.filter(names_server).len(),
        ({
            let node = block.nodes@.filter(names_server)[i];
            let first = args::as_text(node.entries@[0].value);
            match upstreams[i].kind {
                UpstreamKind::Static { addr } => node.name@ != "dns"@ && node.name@ != "srv"@
                    && net::socket_addr_of(node.name@) == Some(addr) && peer_is(
                    node.entries@,
                    upstreams[i].peer,
                ),
                UpstreamKind::Dns { host, port, .. } => node.name@ == "dns"@ && first == Some(
                    host@,
                ) && args::num_arg(node.entries@.skip(1), "port"@) == Some(port as nat) && peer_is(
                    node.entries@.skip(1),
                    upstreams[i].peer,
                ),
                UpstreamKind::Srv { name, .. } => node.name@ == "srv"@ && first == Some(name@)
                    && peer_is(node.entries@.skip(1), upstreams[i].peer),
            }
        }),
{
    every_other_entry_is_a_server(block.nodes@, names_server);
    assert(source_is(
        block.nodes@.filter(names_server)[i],
        inherited(block.nodes@),
        upstreams[i],
    ));
}

/// A server is reached as its line says: with TLS and the name that is given, or the name
/// that it was found under, or without TLS. Without TLS it is spoken to over HTTP/1, and
/// with TLS over either, unless the line chooses. Each time limit is in milliseconds, and
/// there is none where none is given.
pub proof fn a_server_is_reached_as_its_line_says(e: Seq<Entry>, p: PeerTemplate)
    requires
        peer_is(e, p),
    ensures
        match args::str_arg(e, "tls-sni"@) {
            Some(sni) => p.tls matches TlsName::Fixed(name) && name@ == sni,
            None => if args::bool_arg(e, "tls"@) == Some(true) {
                p.tls is Discovered
            } else {
                p.tls is Plain
            },
        },
        match args::str_arg(e, "proto"@) {
            None => p.alpn == if p.tls is Plain {
                ALPN::H1
            } else {
                ALPN::H2H1
            },
            Some(word) => (word == "h1-only"@ ==> p.alpn == ALPN::H1) && (word == "h2-only"@
                ==> p.alpn == ALPN::H2) && (word == "h2-or-h1"@ || word == "h1-or-h2"@ ==> p.alpn
                == ALPN::H2H1),
        },
        match args::num_arg(e, "connection-timeout-ms"@) {
            Some(n) => p.timeouts.connection matches Some(t) && (n <= u128::MAX ==> t.millis == n),
            None => p.timeouts.connection is None,
        },
        match args::num_arg(e, "total-connection-timeout-ms"@) {
            Some(n) => p.timeouts.total_connection matches Some(t) && (n <= u128::MAX ==> t.millis
                == n),
            None => p.timeouts.total_connection is None,
        },
        match args::num_arg(e, "read-timeout-ms"@) {
            Some(n) => p.timeouts.read matches Some(t) && (n <= u128::MAX ==> t.millis == n),
            None => p.timeouts.read is None,
        },
        match args::num_arg(e, "write-timeout-ms"@) {
            Some(n) => p.timeouts.write matches Some(t) && (n <= u128::MAX ==> t.millis == n),
            None => p.timeouts.write is None,
        },
        match args::num_arg(e, "idle-timeout-ms"@) {
            Some(n) => p.timeouts.idle matches Some(t) && (n <= u128::MAX ==> t.millis == n),
            None => p.timeouts.idle is None,
        },
{
    reveal_strlit("h1-only");
    reveal_strlit("h2-only");
    reveal_strlit("h1-or-h2");
    reveal_strlit("h2-or-h1");
    assert("h1-only"@[1] != "h2-only"@[1]);
    assert("h1-only"@.len() != "h1-or-h2"@.len());
    assert("h1-only"@.len() != "h2-or-h1"@.len());
    assert("h2-only"@.len() != "h1-or-h2"@.len());
    assert("h2-only"@.len() != "h2-or-h1"@.len());
}

/// A name is looked up as often as its line says, and as its block says where the line does
/// not: at a fixed interval, or as the records allow, within bounds in seconds.
pub proof fn a_name_is_looked_up_as_its_line_says(e: Seq<Entry>, defaults: RefreshPolicy)
    ensures
        ({
            let policy = refresh_of(e, defaults);
            &&& args::str_arg(e, "refresh"@) is Some ==> policy.kind is Ttl
            &&& args::str_arg(e, "refresh"@) is None ==> match args::num_arg(
                e,
                "refresh-seconds"@,
            ) {
                Some(n) => policy.kind matches RefreshKind::Fixed(d) && (n <= u64::MAX ==> d.millis
                    == n * 1000),
                None => policy.kind == defaults.kind,
            }
            &&& match args::num_arg(e, "min-refresh-seconds"@) {
                Some(n) => n <= u64::MAX ==> policy.min.millis == n * 1000,
                None => policy.min == defaults.min,
            }
            &&& match args::num_arg(e, "max-refresh-seconds"@) {
                Some(n) => n <= u64::MAX ==> policy.max.millis == n * 1000,
                None => policy.max == defaults.max,
            }
        }),
{
}

/// What is asked of a connection is without fault if and only if it can be done: the name
/// is given in one way at most and can only be the one that the server was found under
/// where it was found under one, the protocol is one of those there are and is HTTP/1
/// without TLS, and every time limit is a number.
pub proof fn a_connection_that_can_be_made(e: Seq<Entry>, span: Span, discovered_name: bool)
    ensures
        peer_fault(e, span, discovered_name) is None <==> {
            let sni = args::str_arg(e, "tls-sni"@);
            let tls = args::bool_arg(e, "tls"@);
            &&& args::str_fault(e, "tls-sni"@) is None
            &&& args::bool_fault(e, "tls"@) is None
            &&& sni is None || tls is None
            &&& tls == Some(true) ==> discovered_name
            &&& args::str_fault(e, "proto"@) is None
            &&& args::str_arg(e, "proto"@) matches Some(word) ==> {
                &&& word == "h1-only"@ || word == "h2-only"@ || word == "h1-or-h2"@ || word
                    == "h2-or-h1"@
                &&& word == "h1-only"@ || sni is Some || tls == Some(true)
            }
            &&& args::num_fault(e, "connection-timeout-ms"@) is None
            &&& args::num_fault(e, "total-connection-timeout-ms"@) is None
            &&& args::num_fault(e, "read-timeout-ms"@) is None
            &&& args::num_fault(e, "write-timeout-ms"@) is None
            &&& args::num_fault(e, "idle-timeout-ms"@) is None
        },
{
    reveal_strlit("h1-only");
    reveal_strlit("h2-only");
    reveal_strlit("h1-or-h2");
    reveal_strlit("h2-or-h1");
    assert("h1-only"@[1] != "h2-only"@[1]);
    assert("h1-only"@.len() != "h1-or-h2"@.len());
    assert("h1-only"@.len() != "h2-or-h1"@.len());
}

/// How often a name is looked up is without fault only where it is at least a second apart
/// and the bounds are the right way round.
pub proof fn a_name_is_not_looked_up_all_the_time(
    e: Seq<Entry>,
    span: Span,
    defaults: RefreshPolicy,
)
    requires
        refresh_fault(e, span, defaults) is None,
    ensures
        refresh_of(e, defaults).min.millis > 0,
        refresh_of(e, defaults).min.millis <= refresh_of(e, defaults).max.millis,
        args::str_arg(e, "refresh"@) matches Some(word) ==> word == "ttl"@ && args::num_arg(
            e,
            "refresh-seconds"@,
        ) is None,
        args::num_arg(e, "refresh-seconds"@) matches Some(n) ==> n >= 1,
{
}

/// A `connectors` block without fault names at least one server, each of its entries is
/// without fault, and there is at most one `load-balance` block among them.
pub proof fn every_connector_is_checked(block: Document, i: int, k: int)
    requires
        connectors_fault(block) is None,
        0 <= i < block.nodes@.len(),
    ensures
        sources(block.nodes@).len() > 0,
        block.nodes@[i].name@ == "dns"@ ==> dns_fault(
            block.nodes@[i],
            inherited(block.nodes@),
        ) is None,
        block.nodes@[i].name@ == "srv"@ ==> srv_fault(
            block.nodes@[i],
            inherited(block.nodes@),
        ) is None,
        block.nodes@[i].name@ != "load-balance"@ && block.nodes@[i].name@ != "dns"@
            && block.nodes@[i].name@ != "srv"@ ==> connector_fault(block.nodes@[i]) is None,
        i < k < block.nodes@.len() ==> !(block.nodes@[i].name@ == "load-balance"@
            && block.nodes@[k].name@ == "load-balance"@),
{
    let check = source_check(inherited(block.nodes@));
    args::lemma_faultless(block.nodes@, check);
    assert(block.nodes@.contains(block.nodes@[i]));
    assert(check(block.nodes@[i]) is None);
    reveal_strlit("load-balance");
    reveal_strlit("dns");
    reveal_strlit("srv");
    assert("load-balance"@.len() != "dns"@.len());
    assert("load-balance"@.len() != "srv"@.len());
    assert("dns"@[0] != "srv"@[0]);
    if i < k < block.nodes@.len() && block.nodes@[i].name@ == "load-balance"@
        && block.nodes@[k].name@ == "load-balance"@ {
        lemma_second_balance(block.nodes@, i, k);
    }
}

proof fn lemma_second_balance(nodes: Seq<Node>, i: int, k: int)
    requires
        0 <= i < k < nodes.len(),
        nodes[i].name@ == "load-balance"@,
        nodes[k].name@ == "load-balance"@,
    ensures
        balance_fault(nodes) is Some,
    decreases nodes.len(),
{
    let front = nodes.drop_last();
    assert(front[i] == nodes[i]);
    if k < front.len() {
        assert(front[k] == nodes[k]);
        lemma_second_balance(front, i, k);
    } else {
        lemma_balance_is_there(front, i);
    }
}

proof fn lemma_balance_is_there(nodes: Seq<Node>, i: int)
    requires
        0 <= i < nodes.len(),
        nodes[i].name@ == "load-balance"@,
    ensures
        document::last_named(nodes, "load-balance"@) is Some,
    decreases nodes.len(),
{
    if i < nodes.len() - 1 {
        assert(nodes.drop_last()[i] == nodes[i]);
        lemma_balance_is_there(nodes.drop_last(), i);
    }
}

} // verus!
