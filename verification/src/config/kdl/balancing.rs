//! The `load-balance` block: selection, health checks and refresh bounds.
use crate::config::internal;
use crate::config::internal::{
    HealthCheckKind, HealthCheckSettings, RefreshPolicy, RequestSelector, SelectionKind,
    UpstreamOptions,
};
use crate::config::kdl::args;
use crate::config::kdl::args::{
    extract_one_str_arg, extract_one_str_arg_with_kv_args, first_and_named, Args, Bad, Fault,
};
use crate::config::kdl::connectors;
use crate::config::kdl::connectors::{extract_refresh_bounds, take_millis};
use crate::config::kdl::document;
use crate::config::kdl::document::{last_node, Entry, Node, Span, Value};
use crate::text;
use crate::wire;
use vstd::prelude::*;

verus! {

/// The settings that a health check is given.
pub open spec fn health_settings_of(e: Seq<Entry>) -> HealthCheckSettings {
    let d = internal::default_health_settings();
    HealthCheckSettings {
        frequency: connectors::given(
            connectors::opt_millis(args::num_arg(e, "frequency-ms"@)),
            d.frequency,
        ),
        timeout: connectors::given(
            connectors::opt_millis(args::num_arg(e, "timeout-ms"@)),
            d.timeout,
        ),
        consecutive_success: match args::num_arg(e, "consecutive-success"@) {
            Some(n) => n as usize,
            None => d.consecutive_success,
        },
        consecutive_failure: match args::num_arg(e, "consecutive-failure"@) {
            Some(n) => n as usize,
            None => d.consecutive_failure,
        },
        parallel: connectors::given(args::bool_arg(e, "parallel"@), d.parallel),
    }
}

/// What is wrong with the settings of a health check, if anything.
pub open spec fn health_settings_fault(e: Seq<Entry>, span: Span) -> Option<Fault> {
    let s = health_settings_of(e);
    args::or(
        args::num_fault(e, "frequency-ms"@),
        args::or(
            args::num_fault(e, "timeout-ms"@),
            args::or(
                args::usize_fault(e, "consecutive-success"@, span),
                args::or(
                    args::usize_fault(e, "consecutive-failure"@, span),
                    args::or(
                        args::bool_fault(e, "parallel"@),
                        args::or(
                            args::when(
                                s.frequency.millis == 0,
                                "'frequency-ms' must be at least 1"@,
                                span,
                            ),
                            args::or(
                                args::when(
                                    s.timeout.millis == 0,
                                    "'timeout-ms' must be at least 1"@,
                                    span,
                                ),
                                args::when(
                                    s.consecutive_success == 0 || s.consecutive_failure == 0,
                                    "'consecutive-success' and 'consecutive-failure' must be at least 1"@,
                                    span,
                                ),
                            ),
                        ),
                    ),
                ),
            ),
        ),
    )
}

/// The parts of a health check that do not depend on its kind.
pub fn extract_health_settings(a: &Args) -> (r: Result<HealthCheckSettings, Bad>)
    ensures
        args::told(r, health_settings_fault(a.entries@, a.span)),
        r matches Ok(s) ==> s == health_settings_of(a.entries@),
{
    let defaults = HealthCheckSettings::default();
    let frequency = match take_millis(a, "frequency-ms") {
        Ok(Some(v)) => v,
        Ok(None) => defaults.frequency,
        Err(b) => {
            return Err(b);
        },
    };
    let timeout = match take_millis(a, "timeout-ms") {
        Ok(Some(v)) => v,
        Ok(None) => defaults.timeout,
        Err(b) => {
            return Err(b);
        },
    };
    let consecutive_success = match a.take_usize("consecutive-success") {
        Ok(Some(v)) => v,
        Ok(None) => defaults.consecutive_success,
        Err(b) => {
            return Err(b);
        },
    };
    let consecutive_failure = match a.take_usize("consecutive-failure") {
        Ok(Some(v)) => v,
        Ok(None) => defaults.consecutive_failure,
        Err(b) => {
            return Err(b);
        },
    };
    let parallel = match a.take_bool("parallel") {
        Ok(Some(v)) => v,
        Ok(None) => defaults.parallel,
        Err(b) => {
            return Err(b);
        },
    };
    // A zero frequency would make the background loop spin, and a zero
    // threshold would mean a server never changes state.
    if frequency.is_zero() {
        return Err(Bad::plain("'frequency-ms' must be at least 1", a.span));
    }
    if timeout.is_zero() {
        return Err(Bad::plain("'timeout-ms' must be at least 1", a.span));
    }
    if consecutive_success == 0 || consecutive_failure == 0 {
        return Err(
            Bad::plain(
                "'consecutive-success' and 'consecutive-failure' must be at least 1",
                a.span,
            ),
        );
    }
    Ok(
        HealthCheckSettings {
            frequency,
            timeout,
            consecutive_success,
            consecutive_failure,
            parallel,
        },
    )
}

/// An HTTP status code.
pub open spec fn is_status(n: nat) -> bool {
    100 <= n <= 599
}

/// What is said of a number that is no HTTP status code.
pub open spec fn status_words(n: nat) -> Seq<char> {
    "'"@ + text::decimal(n) + "' is not an HTTP status code"@
}

/// A status given under `key` should be an HTTP status code.
pub open spec fn status_fault(
    e: Seq<Entry>,
    key: Seq<char>,
    default: u16,
    span: Span,
) -> Option<Fault> {
    let status = connectors::given(args::num_arg(e, key), default as nat);
    args::or(
        args::u16_fault(e, key, span),
        args::when(!is_status(status), status_words(status), span),
    )
}

/// A status given under `key`, or else the default.
pub fn take_status(a: &Args, key: &str, default: u16) -> (r: Result<u16, Bad>)
    ensures
        args::told(r, status_fault(a.entries@, key@, default, a.span)),
        r matches Ok(s) ==> s == connectors::given(
            args::num_arg(a.entries@, key@),
            default as nat,
        ),
{
    let status: u16 = match a.take_u16(key) {
        Ok(Some(v)) => v,
        Ok(None) => default,
        Err(b) => {
            return Err(b);
        },
    };
    if !(100 <= status && status <= 599) {
        let number = text::decimal_text(status as u128);
        return Err(Bad::quoting("'", number.as_str(), "' is not an HTTP status code", a.span));
    }
    Ok(status)
}

/// The settings that every kind of health check knows, after its own.
pub open spec fn http_known() -> Seq<Seq<char>> {
    args::words(
        seq![
            "host",
            "path",
            "expect-status",
            "tls",
            "port",
            "reuse-connection",
            "frequency-ms",
            "timeout-ms",
            "consecutive-success",
            "consecutive-failure",
            "parallel",
        ],
    )
}

/// The settings that a TCP health check knows.
pub open spec fn tcp_known() -> Seq<Seq<char>> {
    args::words(
        seq![
            "tls-sni",
            "frequency-ms",
            "timeout-ms",
            "consecutive-success",
            "consecutive-failure",
            "parallel",
        ],
    )
}

/// The path that an HTTP health check asks for.
pub open spec fn health_path(e: Seq<Entry>) -> Seq<char> {
    connectors::given(args::str_arg(e, "path"@), "/"@)
}

/// What is wrong with an HTTP health check, if anything.
pub open spec fn http_check_fault(e: Seq<Entry>, span: Span) -> Option<Fault> {
    let path = health_path(e);
    args::or(
        args::str_fault(e, "host"@),
        args::or(
            args::when(
                args::str_arg(e, "host"@) is None,
                "an HTTP health check needs 'host', which is sent as the Host header"@,
                span,
            ),
            args::or(
                args::str_fault(e, "path"@),
                args::or(
                    args::when(
                        !internal::is_absolute_path(path),
                        "'path' must start with '/', got '"@ + path + "'"@,
                        span,
                    ),
                    args::or(
                        status_fault(e, "expect-status"@, 200, span),
                        args::or(
                            args::bool_fault(e, "tls"@),
                            args::or(
                                args::u16_fault(e, "port"@, span),
                                args::or(
                                    args::bool_fault(e, "reuse-connection"@),
                                    args::or(
                                        health_settings_fault(e, span),
                                        args::unread_fault(e, http_known(), span),
                                    ),
                                ),
                            ),
                        ),
                    ),
                ),
            ),
        ),
    )
}

/// What is wrong with a `health-check` entry, if anything.
pub open spec fn health_fault(node: Node) -> Option<Fault> {
    let e = node.entries@.skip(1);
    let kind = args::as_text(node.entries@[0].value)->0;
    args::or(
        args::lead_fault(node.entries@, node.name@, node.span),
        if kind == "None"@ {
            args::unread_fault(e, Seq::empty(), node.span)
        } else if kind == "TCP"@ {
            args::or(
                args::str_fault(e, "tls-sni"@),
                args::or(
                    health_settings_fault(e, node.span),
                    args::unread_fault(e, tcp_known(), node.span),
                ),
            )
        } else if kind == "HTTP"@ {
            http_check_fault(e, node.span)
        } else {
            Some(
                (
                    "'"@ + kind + "' is not a kind of health check, use 'None', 'TCP', or 'HTTP'"@,
                    node.span,
                ),
            )
        },
    )
}

/// Is `h` the health check that the arguments of an HTTP check ask for?
pub open spec fn http_check_is(e: Seq<Entry>, h: HealthCheckKind) -> bool {
    match h {
        HealthCheckKind::Http {
            settings,
            host,
            path,
            tls,
            expect_status,
            port,
            reuse_connection,
        } => {
            &&& settings == health_settings_of(e)
            &&& args::str_arg(e, "host"@) == Some(host@)
            &&& path@ == health_path(e)
            &&& tls == connectors::given(args::bool_arg(e, "tls"@), false)
            &&& expect_status == connectors::given(args::num_arg(e, "expect-status"@), 200)
            &&& match port {
                Some(p) => args::num_arg(e, "port"@) == Some(p as nat),
                None => args::num_arg(e, "port"@) is None,
            }
            &&& reuse_connection == connectors::given(
                args::bool_arg(e, "reuse-connection"@),
                false,
            )
        },
        _ => false,
    }
}

/// Is `h` the health check that an entry asks for?
pub open spec fn health_is(node: Node, h: HealthCheckKind) -> bool {
    let e = node.entries@.skip(1);
    let kind = args::as_text(node.entries@[0].value)->0;
    if kind == "None"@ {
        h is Off
    } else if kind == "TCP"@ {
        match h {
            HealthCheckKind::Tcp { settings, sni } => settings == health_settings_of(e)
                && wire::opt_text(sni) == args::str_arg(e, "tls-sni"@),
            _ => false,
        }
    } else {
        http_check_is(e, h)
    }
}

fn extract_http_check(a: &Args) -> (r: Result<HealthCheckKind, Bad>)
    ensures
        args::told(r, http_check_fault(a.entries@, a.span)),
        r matches Ok(h) ==> http_check_is(a.entries@, h),
{
    let host = match a.take_str("host") {
        Ok(v) => v,
        Err(b) => {
            return Err(b);
        },
    };
    let host = match host {
        Some(h) => h,
        None => {
            return Err(
                Bad::plain(
                    "an HTTP health check needs 'host', which is sent as the Host header",
                    a.span,
                ),
            );
        },
    };
    let path = match a.take_str("path") {
        Ok(Some(p)) => p,
        Ok(None) => "/",
        Err(b) => {
            return Err(b);
        },
    };
    if !internal::is_absolute(path) {
        return Err(Bad::quoting("'path' must start with '/', got '", path, "'", a.span));
    }
    let expect_status = match take_status(a, "expect-status", 200) {
        Ok(v) => v,
        Err(b) => {
            return Err(b);
        },
    };
    let tls = match a.take_bool("tls") {
        Ok(Some(v)) => v,
        Ok(None) => false,
        Err(b) => {
            return Err(b);
        },
    };
    let port = match a.take_u16("port") {
        Ok(v) => v,
        Err(b) => {
            return Err(b);
        },
    };
    let reuse_connection = match a.take_bool("reuse-connection") {
        Ok(Some(v)) => v,
        Ok(None) => false,
        Err(b) => {
            return Err(b);
        },
    };
    let settings = match extract_health_settings(a) {
        Ok(v) => v,
        Err(b) => {
            return Err(b);
        },
    };
    let known = [
        "host",
        "path",
        "expect-status",
        "tls",
        "port",
        "reuse-connection",
        "frequency-ms",
        "timeout-ms",
        "consecutive-success",
        "consecutive-failure",
        "parallel",
    ];
    assert(args::words(known@) == http_known());
    match a.finish(&known) {
        Ok(()) => {},
        Err(b) => {
            return Err(b);
        },
    }
    Ok(
        HealthCheckKind::Http {
            settings,
            host: host.to_owned(),
            path: path.to_owned(),
            tls,
            expect_status,
            port,
            reuse_connection,
        },
    )
}

/// `health-check "TCP" frequency-ms=5000 timeout-ms=1000`.
pub fn extract_health_check(node: &Node) -> (r: Result<HealthCheckKind, Bad>)
    ensures
        args::told(r, health_fault(*node)),
        r matches Ok(h) ==> health_is(*node, h),
{
    let (kind, a) = match first_and_named(&node.entries, node.name.as_str(), node.span) {
        Ok(p) => p,
        Err(b) => {
            return Err(b);
        },
    };
    if text::same_text(kind, "None") {
        let known: [&str; 0] = [];
        assert(args::words(known@) == Seq::<Seq<char>>::empty());
        return match a.finish(&known) {
            Ok(()) => Ok(HealthCheckKind::Off),
            Err(b) => Err(b),
        };
    }
    if text::same_text(kind, "TCP") {
        let sni = match a.take_str("tls-sni") {
            Ok(v) => v,
            Err(b) => {
                return Err(b);
            },
        };
        let settings = match extract_health_settings(&a) {
            Ok(v) => v,
            Err(b) => {
                return Err(b);
            },
        };
        let known = [
            "tls-sni",
            "frequency-ms",
            "timeout-ms",
            "consecutive-success",
            "consecutive-failure",
            "parallel",
        ];
        assert(args::words(known@) == tcp_known());
        return match a.finish(&known) {
            Ok(()) => Ok(
                HealthCheckKind::Tcp {
                    settings,
                    sni: match sni {
                        Some(s) => Some(s.to_owned()),
                        None => None,
                    },
                },
            ),
            Err(b) => Err(b),
        };
    }
    if text::same_text(kind, "HTTP") {
        return extract_http_check(&a);
    }
    Err(
        Bad::quoting(
            "'",
            kind,
            "' is not a kind of health check, use 'None', 'TCP', or 'HTTP'",
            node.span,
        ),
    )
}

/// The way of selecting that a word names.
pub open spec fn selection_named(word: Seq<char>) -> Option<SelectionKind> {
    if word == "RoundRobin"@ {
        Some(SelectionKind::RoundRobin)
    } else if word == "Random"@ {
        Some(SelectionKind::Random)
    } else if word == "FNV"@ {
        Some(SelectionKind::Fnv)
    } else if word == "Ketama"@ {
        Some(SelectionKind::Ketama)
    } else {
        None
    }
}

fn parse_selection(word: &str) -> (r: Option<SelectionKind>)
    ensures
        r == selection_named(word@),
{
    if text::same_text(word, "RoundRobin") {
        Some(SelectionKind::RoundRobin)
    } else if text::same_text(word, "Random") {
        Some(SelectionKind::Random)
    } else if text::same_text(word, "FNV") {
        Some(SelectionKind::Fnv)
    } else if text::same_text(word, "Ketama") {
        Some(SelectionKind::Ketama)
    } else {
        None
    }
}

/// What a request is selected by, as a word names it.
pub open spec fn selector_named(word: Seq<char>) -> Option<RequestSelector> {
    if word == "UriPath"@ {
        Some(RequestSelector::UriPath)
    } else if word == "SourceAddrAndUriPath"@ {
        Some(RequestSelector::SourceAddrAndUriPath)
    } else {
        None
    }
}

/// Selection by hash needs to know what is hashed.
pub open spec fn needs_key(s: SelectionKind) -> bool {
    s == SelectionKind::Fnv || s == SelectionKind::Ketama
}

/// The way of selecting that a `selection` entry names.
pub open spec fn selection_of(node: Node) -> Option<SelectionKind> {
    if node.entries@.len() == 0 {
        None
    } else {
        match args::as_text(node.entries@[0].value) {
            Some(word) => selection_named(word),
            None => None,
        }
    }
}

/// How a way of selecting is written in a message.
pub open spec fn selection_words(s: SelectionKind) -> Seq<char> {
    if s == SelectionKind::Fnv {
        "Fnv"@
    } else {
        "Ketama"@
    }
}

/// What is wrong with a `selection` entry, if anything.
pub open spec fn selection_fault(node: Node) -> Option<Fault> {
    let e = node.entries@.skip(1);
    let s = selection_of(node);
    args::or(
        args::when(s is None, "Incorrect argument for '"@ + node.name@ + "'"@, node.span),
        args::or(
            args::kv_fault(e),
            if needs_key(s->0) {
                match args::str_arg(e, "key"@) {
                    None => Some(
                        (
                            "selection "@ + selection_words(s->0) + " requires a 'key' argument"@,
                            node.span,
                        ),
                    ),
                    Some(word) => args::when(
                        selector_named(word) is None,
                        "Unknown key: '"@ + word + "'"@,
                        node.span,
                    ),
                }
            } else {
                None
            },
        ),
    )
}

/// The selector that a `selection` entry sets, if it sets one.
pub open spec fn selector_of(node: Node) -> Option<RequestSelector> {
    if needs_key(selection_of(node)->0) {
        selector_named(args::str_arg(node.entries@.skip(1), "key"@)->0)
    } else {
        None
    }
}

/// `selection "Ketama" key="UriPath"`.
fn extract_selection(node: &Node) -> (r: Result<(SelectionKind, Option<RequestSelector>), Bad>)
    ensures
        args::told(r, selection_fault(*node)),
        r matches Ok((s, sel)) ==> selection_of(*node) == Some(s) && sel == selector_of(*node),
{
    let word = if node.entries.len() == 0 {
        None
    } else {
        match &node.entries[0].value {
            Value::Text(s) => Some(s.as_str()),
            _ => None,
        }
    };
    let sel = match word {
        Some(w) => parse_selection(w),
        None => None,
    };
    let sel = match sel {
        Some(s) => s,
        None => {
            return Err(
                Bad::quoting("Incorrect argument for '", node.name.as_str(), "'", node.span),
            );
        },
    };
    let (_, a) = match extract_one_str_arg_with_kv_args(node) {
        Ok(p) => p,
        Err(b) => {
            return Err(b);
        },
    };
    proof {
        args::lemma_kv_texts(a.entries@, "key"@);
    }
    match sel {
        SelectionKind::RoundRobin | SelectionKind::Random => Ok((sel, None)),
        SelectionKind::Fnv | SelectionKind::Ketama => {
            let key = match a.take_str("key") {
                Ok(Some(k)) => k,
                Ok(None) => {
                    let name = if sel == SelectionKind::Fnv {
                        "Fnv"
                    } else {
                        "Ketama"
                    };
                    return Err(
                        Bad::quoting("selection ", name, " requires a 'key' argument", node.span),
                    );
                },
                Err(b) => {
                    return Err(b);
                },
            };
            if text::same_text(key, "UriPath") {
                Ok((sel, Some(RequestSelector::UriPath)))
            } else if text::same_text(key, "SourceAddrAndUriPath") {
                Ok((sel, Some(RequestSelector::SourceAddrAndUriPath)))
            } else {
                Err(Bad::quoting("Unknown key: '", key, "'", node.span))
            }
        },
    }
}

/// What is wrong with a `discovery` entry, if anything. The entry has no effect,
/// and is kept for configurations that still have it.
pub open spec fn discovery_fault(node: Node) -> Option<Fault> {
    let word = args::one_str(node.entries@)->0;
    args::or(
        args::one_str_fault(node),
        args::when(
            word != "Static"@,
            "'"@ + word
                + "' is not a discovery setting. Discovery is declared by the 'dns' and 'srv' entries of the 'connectors' block instead."@,
            node.span,
        ),
    )
}

/// What is wrong with one entry of a `load-balance` block, if anything.
pub open spec fn balance_setting_fault(node: Node) -> Option<Fault> {
    args::or(
        args::on(node, "selection"@, selection_fault(node)),
        args::or(
            args::on(node, "health-check"@, health_fault(node)),
            args::or(
                args::on(node, "refresh-bounds"@, connectors::refresh_bounds_fault(node)),
                args::or(
                    args::on(node, "discovery"@, discovery_fault(node)),
                    args::when(
                        !args::words(
                            seq!["selection", "health-check", "refresh-bounds", "discovery"],
                        ).contains(node.name@),
                        "Unknown setting: '"@ + node.name@ + "'"@,
                        node.span,
                    ),
                ),
            ),
        ),
    )
}

/// The check that each entry of a `load-balance` block goes through.
pub open spec fn balance_check() -> spec_fn(Node) -> Option<Fault> {
    |n: Node| balance_setting_fault(n)
}

/// What is wrong with a `load-balance` block, if anything.
pub open spec fn load_balance_fault(node: Node) -> Option<Fault> {
    args::or(
        args::when(node.children is None, "'load-balance' should have children"@, node.span),
        args::first_fault(node.children->0.nodes@, balance_check()),
    )
}

/// The selector that the last entry to set one set.
pub open spec fn last_selector(nodes: Seq<Node>) -> RequestSelector
    decreases nodes.len(),
{
    if nodes.len() == 0 {
        RequestSelector::Null
    } else if nodes.last().name@ == "selection"@ && selector_of(nodes.last()) is Some {
        selector_of(nodes.last())->0
    } else {
        last_selector(nodes.drop_last())
    }
}

/// Are these the options that a block asks for?
pub open spec fn options_are(nodes: Seq<Node>, o: UpstreamOptions) -> bool {
    &&& o.selection == (match document::last_named(nodes, "selection"@) {
        Some(n) => selection_of(n)->0,
        None => SelectionKind::RoundRobin,
    })
    &&& o.selector == last_selector(nodes)
    &&& match document::last_named(nodes, "health-check"@) {
        Some(n) => health_is(n, o.health_checks),
        None => o.health_checks is Off,
    }
}

/// The refresh bounds that a block sets.
pub open spec fn block_bounds(nodes: Seq<Node>) -> RefreshPolicy {
    match document::last_named(nodes, "refresh-bounds"@) {
        Some(n) => connectors::bounds_of(n.entries@),
        None => connectors::bounds_of(Seq::empty()),
    }
}

fn check_balance_setting(node: &Node) -> (r: Result<(), Bad>)
    ensures
        args::told(r, balance_setting_fault(*node)),
{
    let name = node.name.as_str();
    if text::same_text(name, "selection") {
        match extract_selection(node) {
            Ok(_) => {},
            Err(b) => {
                return Err(b);
            },
        }
    }
    if text::same_text(name, "health-check") {
        match extract_health_check(node) {
            Ok(_) => {},
            Err(b) => {
                return Err(b);
            },
        }
    }
    if text::same_text(name, "refresh-bounds") {
        match extract_refresh_bounds(node) {
            Ok(_) => {},
            Err(b) => {
                return Err(b);
            },
        }
    }
    if text::same_text(name, "discovery") {
        match extract_one_str_arg(node) {
            Ok(word) => {
                if !text::same_text(word, "Static") {
                    return Err(
                        Bad::quoting(
                            "'",
                            word,
                            "' is not a discovery setting. Discovery is declared by the 'dns' and 'srv' entries of the 'connectors' block instead.",
                            node.span,
                        ),
                    );
                }
            },
            Err(b) => {
                return Err(b);
            },
        }
    }
    let known = ["selection", "health-check", "refresh-bounds", "discovery"];
    assert(known@ == seq!["selection", "health-check", "refresh-bounds", "discovery"]);
    if !args::is_among(name, &known) {
        return Err(Bad::quoting("Unknown setting: '", name, "'", node.span));
    }
    Ok(())
}

fn read_selector(nodes: &[Node]) -> (r: RequestSelector)
    requires
        forall|n: Node| #[trigger] nodes@.contains(n) ==> balance_setting_fault(n) is None,
    ensures
        r == last_selector(nodes@),
{
    let mut i: usize = nodes.len();
    assert(nodes@.take(i as int) == nodes@);
    while i > 0
        invariant
            i <= nodes@.len(),
            forall|n: Node| #[trigger] nodes@.contains(n) ==> balance_setting_fault(n) is None,
            last_selector(nodes@.take(i as int)) == last_selector(nodes@),
        decreases i,
    {
        let ghost part = nodes@.take(i as int);
        assert(part.last() == nodes@[i - 1]);
        assert(part.drop_last() == nodes@.take(i - 1));
        if text::same_text(nodes[i - 1].name.as_str(), "selection") {
            assert(nodes@.contains(nodes@[i - 1]));
            match extract_selection(&nodes[i - 1]) {
                Ok((_, Some(selector))) => {
                    return selector;
                },
                _ => {},
            }
        }
        i = i - 1;
    }
    RequestSelector::Null
}

/// Extracts a `load-balance` block.
///
/// Also gives the refresh bounds that the `dns` and `srv` entries beside the
/// block inherit.
pub fn extract_load_balance(node: &Node) -> (r: Result<(UpstreamOptions, RefreshPolicy), Bad>)
    ensures
        args::told(r, load_balance_fault(*node)),
        r matches Ok((o, p)) ==> options_are(node.children->0.nodes@, o) && p == block_bounds(
            node.children->0.nodes@,
        ),
{
    let block = match &node.children {
        Some(d) => d,
        None => {
            return Err(Bad::plain("'load-balance' should have children", node.span));
        },
    };
    let nodes = block.nodes.as_slice();
    let mut i: usize = 0;
    while i < nodes.len()
        invariant
            i <= nodes@.len(),
            node.children == Some(*block),
            nodes@ == block.nodes@,
            args::first_fault(nodes@.take(i as int), balance_check()) is None,
        decreases nodes@.len() - i,
    {
        let ghost next = nodes@.take(i + 1);
        assert(next.drop_last() == nodes@.take(i as int));
        assert(next.last() == nodes@[i as int]);
        match check_balance_setting(&nodes[i]) {
            Ok(()) => {},
            Err(b) => {
                proof {
                    args::lemma_fault_stays(nodes@, i + 1, balance_check());
                }
                return Err(b);
            },
        }
        i = i + 1;
    }
    assert(nodes@.take(nodes@.len() as int) == nodes@);
    proof {
        args::lemma_faultless(nodes@, balance_check());
        assert forall|n: Node| #[trigger] nodes@.contains(n) implies balance_setting_fault(
            n,
        ) is None by {
            assert(balance_check()(n) is None);
        }
        document::lemma_last_named(nodes@, "selection"@);
        document::lemma_last_named(nodes@, "health-check"@);
        document::lemma_last_named(nodes@, "refresh-bounds"@);
    }
    let selection = match last_node(nodes, "selection") {
        Some(n) => match extract_selection(n) {
            Ok((s, _)) => s,
            Err(_) => SelectionKind::RoundRobin,
        },
        None => SelectionKind::RoundRobin,
    };
    let health_checks = match last_node(nodes, "health-check") {
        Some(n) => match extract_health_check(n) {
            Ok(h) => h,
            Err(_) => HealthCheckKind::Off,
        },
        None => HealthCheckKind::Off,
    };
    let refresh = match last_node(nodes, "refresh-bounds") {
        Some(n) => match extract_refresh_bounds(n) {
            Ok(p) => p,
            Err(_) => RefreshPolicy::default(),
        },
        None => RefreshPolicy::default(),
    };
    Ok((UpstreamOptions { selection, selector: read_selector(nodes), health_checks }, refresh))
}

/// What requests are selected by is set by the last `selection` entry that sets it,
/// wherever that stands, and by nothing where none does.
pub proof fn the_last_selector_counts(nodes: Seq<Node>, i: int)
    requires
        -1 <= i < nodes.len(),
        i >= 0 ==> nodes[i].name@ == "selection"@ && selector_of(nodes[i]) is Some,
        forall|k: int|
            i < k < nodes.len() ==> (#[trigger] nodes[k]).name@ != "selection"@ || selector_of(
                nodes[k],
            ) is None,
    ensures
        last_selector(nodes) == (if i >= 0 {
            selector_of(nodes[i])->0
        } else {
            RequestSelector::Null
        }),
    decreases nodes.len(),
{
    if i < nodes.len() - 1 {
        let front = nodes.drop_last();
        assert(nodes[nodes.len() - 1] == nodes.last());
        assert forall|k: int| i < k < front.len() implies (#[trigger] front[k]).name@
            != "selection"@ || selector_of(front[k]) is None by {
            assert(front[k] == nodes[k]);
        }
        the_last_selector_counts(front, i);
    }
}

/// Servers are selected and checked as the last entries say: in turn, and without checks,
/// where nothing is said.
pub proof fn servers_are_selected_as_the_block_says(nodes: Seq<Node>, o: UpstreamOptions)
    requires
        options_are(nodes, o),
    ensures
        document::last_named(nodes, "selection"@) is None ==> o.selection
            == SelectionKind::RoundRobin && o.selector == RequestSelector::Null,
        document::last_named(nodes, "selection"@) matches Some(n) && n.entries@.len() > 0 ==> {
            let word = args::as_text(
                document::last_named(nodes, "selection"@)->0.entries@[0].value,
            );
            &&& word == Some("RoundRobin"@) ==> o.selection == SelectionKind::RoundRobin
            &&& word == Some("Random"@) ==> o.selection == SelectionKind::Random
            &&& word == Some("FNV"@) ==> o.selection == SelectionKind::Fnv
            &&& word == Some("Ketama"@) ==> o.selection == SelectionKind::Ketama
        },
        document::last_named(nodes, "health-check"@) is None ==> o.health_checks is Off,
{
    reveal_strlit("RoundRobin");
    reveal_strlit("Random");
    reveal_strlit("FNV");
    reveal_strlit("Ketama");
    assert("RoundRobin"@.len() != "Random"@.len());
    assert("RoundRobin"@.len() != "FNV"@.len());
    assert("RoundRobin"@.len() != "Ketama"@.len());
    assert("Random"@.len() != "FNV"@.len());
    assert("Ketama"@.len() != "FNV"@.len());
    assert("Ketama"@[0] != "Random"@[0]);
    if document::last_named(nodes, "selection"@) is None {
        lemma_none_selects(nodes);
    }
}

proof fn lemma_none_selects(nodes: Seq<Node>)
    requires
        document::last_named(nodes, "selection"@) is None,
    ensures
        last_selector(nodes) == RequestSelector::Null,
    decreases nodes.len(),
{
    if nodes.len() > 0 {
        lemma_none_selects(nodes.drop_last());
    }
}

/// A health check keeps to the settings that are given, in milliseconds where it is a time,
/// and to the usual ones where none are.
pub proof fn a_health_check_is_as_its_entry_says(e: Seq<Entry>)
    ensures
        ({
            let s = health_settings_of(e);
            let usual = internal::default_health_settings();
            &&& match args::num_arg(e, "frequency-ms"@) {
                Some(n) => n <= u64::MAX ==> s.frequency.millis == n,
                None => s.frequency == usual.frequency,
            }
            &&& match args::num_arg(e, "timeout-ms"@) {
                Some(n) => n <= u64::MAX ==> s.timeout.millis == n,
                None => s.timeout == usual.timeout,
            }
            &&& match args::num_arg(e, "consecutive-success"@) {
                Some(n) => n <= usize::MAX ==> s.consecutive_success == n,
                None => s.consecutive_success == usual.consecutive_success,
            }
            &&& match args::num_arg(e, "consecutive-failure"@) {
                Some(n) => n <= usize::MAX ==> s.consecutive_failure == n,
                None => s.consecutive_failure == usual.consecutive_failure,
            }
            &&& match args::bool_arg(e, "parallel"@) {
                Some(b) => s.parallel == b,
                None => s.parallel == usual.parallel,
            }
        }),
{
}

/// The kind of a health check is the one that its entry names, with the host, path, port
/// and name that the entry gives. One over HTTP asks for `/`, expects a 200, without TLS
/// and on a connection of its own, unless the entry says otherwise.
pub proof fn a_health_check_is_of_its_kind(node: Node, h: HealthCheckKind)
    requires
        health_is(node, h),
    ensures
        ({
            let kind = args::as_text(node.entries@[0].value)->0;
            let e = node.entries@.skip(1);
            match h {
                HealthCheckKind::Off => kind == "None"@,
                HealthCheckKind::Tcp { sni, .. } => kind == "TCP"@ && wire::opt_text(sni)
                    == args::str_arg(e, "tls-sni"@),
                HealthCheckKind::Http {
                    host,
                    path,
                    tls,
                    expect_status,
                    port,
                    reuse_connection,
                    ..
                } => {
                    &&& kind != "None"@ && kind != "TCP"@
                    &&& args::str_arg(e, "host"@) == Some(host@)
                    &&& match args::str_arg(e, "path"@) {
                        Some(p) => path@ == p,
                        None => path@ == "/"@,
                    }
                    &&& tls <==> args::bool_arg(e, "tls"@) == Some(true)
                    &&& match args::num_arg(e, "expect-status"@) {
                        Some(n) => expect_status == n,
                        None => expect_status == 200,
                    }
                    &&& match args::num_arg(e, "port"@) {
                        Some(n) => port matches Some(p) && p == n,
                        None => port is None,
                    }
                    &&& reuse_connection <==> args::bool_arg(e, "reuse-connection"@) == Some(true)
                },
            }
        }),
{
}

} // verus!
