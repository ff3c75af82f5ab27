//! The sections of a service that are plain lists of settings: `client-ip`,
//! `normalization`, `overload` and `rate-limiting`.
use crate::config::internal::{
    ClientIpConfig, Duration, Normalization, OverloadConfig, RateLimitingConfig, Rejection,
};
use crate::config::kdl::acme;
use crate::config::kdl::args;
use crate::config::kdl::args::{
    extract_one_bool_arg, extract_one_str_arg, Args, Bad, Fault,
};
use crate::config::kdl::balancing;
use crate::config::kdl::connectors;
use crate::config::kdl::document;
use crate::config::kdl::document::{last_node, Document, Entry, Node, Span, Value};
use crate::config::kdl::path_control;
use crate::config::kdl::path_control::extract_cidr_list;
use crate::proxy::rate_limiting;
use crate::proxy::rate_limiting::{
    AllRateConfig, MultiRaterConfig, MultiRequestKeyKind, RegexShim, SingleInstanceConfig,
    SingleRequestKeyKind,
};
use crate::text;
use crate::wire;
use vstd::prelude::*;

verus! {

/// The one argument of a node, when it is a whole number.
pub open spec fn one_num(entries: Seq<Entry>) -> Option<nat> {
    match args::one_int(entries) {
        Some(n) => if n >= 0 {
            Some(n as nat)
        } else {
            None
        },
        None => None,
    }
}

/// A node should have one argument, which is a whole number that fits a size.
pub open spec fn one_num_fault(node: Node) -> Option<Fault> {
    args::when(
        one_num(node.entries@) is None || one_num(node.entries@)->0 > usize::MAX,
        "'"@ + node.name@ + "' should have exactly one positive whole number"@,
        node.span,
    )
}

fn extract_one_num_arg(node: &Node) -> (r: Result<usize, Bad>)
    ensures
        args::told(r, one_num_fault(*node)),
        r matches Ok(n) ==> one_num(node.entries@) == Some(n as nat),
{
    if node.entries.len() == 1 {
        if let Value::Int(n) = &node.entries[0].value {
            if *n >= 0 && (*n as u64) <= usize::MAX as u64 {
                return Ok(*n as usize);
            }
        }
    }
    Err(
        Bad::quoting(
            "'",
            node.name.as_str(),
            "' should have exactly one positive whole number",
            node.span,
        ),
    )
}

/// A `status` line should hold an HTTP status code.
pub open spec fn status_line_fault(node: Node) -> Option<Fault> {
    args::or(
        one_num_fault(node),
        args::when(
            !balancing::is_status(one_num(node.entries@)->0),
            balancing::status_words(one_num(node.entries@)->0),
            node.span,
        ),
    )
}

fn extract_status_line(node: &Node) -> (r: Result<u16, Bad>)
    ensures
        args::told(r, status_line_fault(*node)),
        r matches Ok(s) ==> one_num(node.entries@) == Some(s as nat),
{
    match extract_one_num_arg(node) {
        Ok(n) => {
            if !(100 <= n && n <= 599) {
                let number = text::decimal_text(n as u128);
                return Err(
                    Bad::quoting("'", number.as_str(), "' is not an HTTP status code", node.span),
                );
            }
            Ok(n as u16)
        },
        Err(b) => Err(b),
    }
}

/// The number that the last setting called `name` has.
pub open spec fn last_num(nodes: Seq<Node>, name: Seq<char>) -> Option<nat> {
    match document::last_named(nodes, name) {
        Some(n) => one_num(n.entries@),
        None => None,
    }
}

/// The flag that the last setting called `name` has.
pub open spec fn last_flag(nodes: Seq<Node>, name: Seq<char>) -> Option<bool> {
    match document::last_named(nodes, name) {
        Some(n) => args::one_bool(n.entries@),
        None => None,
    }
}

fn read_last_num(nodes: &[Node], name: &str) -> (r: Option<usize>)
    requires
        document::last_named(nodes@, name@) matches Some(n) ==> one_num_fault(n) is None,
    ensures
        match r {
            Some(n) => last_num(nodes@, name@) == Some(n as nat),
            None => last_num(nodes@, name@) is None,
        },
{
    match last_node(nodes, name) {
        Some(n) => match extract_one_num_arg(n) {
            Ok(v) => Some(v),
            Err(_) => None,
        },
        None => None,
    }
}

fn read_last_flag(nodes: &[Node], name: &str) -> (r: Option<bool>)
    ensures
        r == last_flag(nodes@, name@),
{
    match last_node(nodes, name) {
        Some(n) => match extract_one_bool_arg(n) {
            Ok(v) => Some(v),
            Err(_) => None,
        },
        None => None,
    }
}

/// Is `j` the answer that `status` and `body` lines choose?
pub open spec fn answer_is(nodes: Seq<Node>, default: u16, j: Rejection) -> bool {
    &&& j.status == connectors::given(last_num(nodes, "status"@), default as nat)
    &&& wire::opt_text(j.body) == acme::last_str(nodes, "body"@)
}

fn read_answer(nodes: &[Node], default: u16) -> (r: Rejection)
    requires
        document::last_named(nodes@, "status"@) matches Some(n) ==> status_line_fault(n) is None,
    ensures
        answer_is(nodes@, default, r),
{
    let status = match last_node(nodes, "status") {
        Some(n) => match extract_status_line(n) {
            Ok(s) => s,
            Err(_) => default,
        },
        None => default,
    };
    let body = match last_node(nodes, "body") {
        Some(n) => match extract_one_str_arg(n) {
            Ok(s) => Some(s.to_owned()),
            Err(_) => None,
        },
        None => None,
    };
    Rejection { status, body }
}

// ---- client-ip ----

/// What is wrong with one line of a `client-ip` block, if anything.
pub open spec fn client_ip_line_fault(node: Node) -> Option<Fault> {
    let word = args::one_str(node.entries@)->0;
    args::or(
        args::on(
            node,
            "trusted-proxies"@,
            args::or(
                args::one_str_fault(node),
                path_control::cidr_list_fault(word, node.span),
            ),
        ),
        args::or(
            args::on(
                node,
                "header"@,
                args::or(
                    args::one_str_fault(node),
                    path_control::header_name_fault(word, node.span),
                ),
            ),
            args::when(
                !args::words(seq!["trusted-proxies", "header"]).contains(node.name@),
                "Unknown setting in 'client-ip': '"@ + node.name@ + "'"@,
                node.span,
            ),
        ),
    )
}

/// The check on each line of a `client-ip` block.
pub open spec fn client_ip_check() -> spec_fn(Node) -> Option<Fault> {
    |n: Node| client_ip_line_fault(n)
}

/// What is wrong with a `client-ip` block, if anything. Without proxies to trust
/// the block would silently do nothing.
pub open spec fn client_ip_fault(block: Document) -> Option<Fault> {
    args::or(
        args::first_fault(block.nodes@, client_ip_check()),
        args::when(
            document::last_named(block.nodes@, "trusted-proxies"@) is None,
            "'client-ip' needs 'trusted-proxies', the addresses whose forwarding header is believed"@,
            block.span,
        ),
    )
}

/// Is `c` what a `client-ip` block says?
pub open spec fn client_ip_is(nodes: Seq<Node>, c: ClientIpConfig) -> bool {
    &&& path_control::cidr_list_is(
        acme::last_str(nodes, "trusted-proxies"@)->0,
        c.trusted_proxies@,
    )
    &&& c.header@ == (match acme::last_str(nodes, "header"@) {
        Some(h) => text::lower_text(h),
        None => "x-forwarded-for"@,
    })
}

fn check_client_ip_line(node: &Node) -> (r: Result<(), Bad>)
    ensures
        args::told(r, client_ip_line_fault(*node)),
{
    let name = node.name.as_str();
    if text::same_text(name, "trusted-proxies") {
        match extract_one_str_arg(node) {
            Ok(list) => match extract_cidr_list(list, node.span) {
                Ok(_) => {},
                Err(b) => {
                    return Err(b);
                },
            },
            Err(b) => {
                return Err(b);
            },
        }
    }
    if text::same_text(name, "header") {
        match extract_one_str_arg(node) {
            Ok(word) => {
                if wire::header_name(word).is_none() {
                    return Err(
                        Bad::quoting("'", word, "' is not a valid HTTP header name", node.span),
                    );
                }
            },
            Err(b) => {
                return Err(b);
            },
        }
    }
    let known = ["trusted-proxies", "header"];
    assert(known@ == seq!["trusted-proxies", "header"]);
    if !args::is_among(name, &known) {
        return Err(Bad::quoting("Unknown setting in 'client-ip': '", name, "'", node.span));
    }
    Ok(())
}

/// The `client-ip` block.
pub fn extract_client_ip(block: &Document) -> (r: Result<ClientIpConfig, Bad>)
    ensures
        args::told(r, client_ip_fault(*block)),
        r matches Ok(c) ==> client_ip_is(block.nodes@, c),
{
    let nodes = block.nodes.as_slice();
    let mut i: usize = 0;
    while i < nodes.len()
        invariant
            i <= nodes@.len(),
            nodes@ == block.nodes@,
            args::first_fault(nodes@.take(i as int), client_ip_check()) is None,
        decreases nodes@.len() - i,
    {
        let ghost next = nodes@.take(i + 1);
        assert(next.drop_last() == nodes@.take(i as int));
        assert(next.last() == nodes@[i as int]);
        match check_client_ip_line(&nodes[i]) {
            Ok(()) => {},
            Err(b) => {
                proof {
                    args::lemma_fault_stays(nodes@, i + 1, client_ip_check());
                }
                return Err(b);
            },
        }
        i = i + 1;
    }
    assert(nodes@.take(nodes@.len() as int) == nodes@);
    proof {
        args::lemma_faultless(nodes@, client_ip_check());
        document::lemma_last_named(nodes@, "trusted-proxies"@);
        document::lemma_last_named(nodes@, "header"@);
        assert forall|n: Node| #[trigger] nodes@.contains(n) implies client_ip_line_fault(
            n,
        ) is None by {
            assert(client_ip_check()(n) is None);
        }
    }
    let trusted_proxies = match last_node(nodes, "trusted-proxies") {
        Some(n) => match extract_one_str_arg(n) {
            Ok(list) => match extract_cidr_list(list, n.span) {
                Ok(v) => v,
                Err(b) => {
                    return Err(b);
                },
            },
            Err(b) => {
                return Err(b);
            },
        },
        None => {
            return Err(
                Bad::plain(
                    "'client-ip' needs 'trusted-proxies', the addresses whose forwarding header is believed",
                    block.span,
                ),
            );
        },
    };
    let header = match last_node(nodes, "header") {
        Some(n) => match extract_one_str_arg(n) {
            Ok(word) => match wire::header_name(word) {
                Some(h) => h,
                None => crate::proxy::client_ip::default_header(),
            },
            Err(_) => crate::proxy::client_ip::default_header(),
        },
        None => crate::proxy::client_ip::default_header(),
    };
    Ok(ClientIpConfig { trusted_proxies, header })
}

// ---- normalization ----

/// The names of the checks, and of the baseline for those not named.
pub open spec fn normalization_flags() -> Seq<Seq<char>> {
    args::words(
        seq![
            "default",
            "header-non-ascii",
            "host",
            "control-characters",
            "percent-encoding",
            "encoded-separators",
            "duplicate-slashes",
            "dot-segments",
        ],
    )
}

/// What is wrong with one line of a `normalization` block, if anything.
pub open spec fn normalization_line_fault(node: Node) -> Option<Fault> {
    if node.name@ == "status"@ {
        status_line_fault(node)
    } else if node.name@ == "body"@ {
        args::one_str_fault(node)
    } else if normalization_flags().contains(node.name@) {
        args::one_bool_fault(node)
    } else {
        Some(("Unknown setting in 'normalization': '"@ + node.name@ + "'"@, node.span))
    }
}

/// The check on each line of a `normalization` block.
pub open spec fn normalization_check() -> spec_fn(Node) -> Option<Fault> {
    |n: Node| normalization_line_fault(n)
}

/// Is the check called `name` on? What is not named follows the baseline,
/// whatever line the baseline is on.
pub open spec fn check_on(nodes: Seq<Node>, name: Seq<char>, usual: bool) -> bool {
    match last_flag(nodes, name) {
        Some(b) => b,
        None => connectors::given(last_flag(nodes, "default"@), usual),
    }
}

/// Is `n` what a `normalization` block says?
pub open spec fn normalization_is(nodes: Seq<Node>, n: Normalization) -> bool {
    &&& n.header_non_ascii == check_on(nodes, "header-non-ascii"@, false)
    &&& n.host == check_on(nodes, "host"@, true)
    &&& n.control_characters == check_on(nodes, "control-characters"@, true)
    &&& n.percent_encoding == check_on(nodes, "percent-encoding"@, true)
    &&& n.encoded_separators == check_on(nodes, "encoded-separators"@, true)
    &&& n.duplicate_slashes == check_on(nodes, "duplicate-slashes"@, true)
    &&& n.dot_segments == check_on(nodes, "dot-segments"@, true)
    &&& answer_is(nodes, 400, n.rejection)
}

fn check_normalization_line(node: &Node) -> (r: Result<(), Bad>)
    ensures
        args::told(r, normalization_line_fault(*node)),
{
    let name = node.name.as_str();
    if text::same_text(name, "status") {
        return match extract_status_line(node) {
            Ok(_) => Ok(()),
            Err(b) => Err(b),
        };
    }
    if text::same_text(name, "body") {
        return match extract_one_str_arg(node) {
            Ok(_) => Ok(()),
            Err(b) => Err(b),
        };
    }
    let flags = [
        "default",
        "header-non-ascii",
        "host",
        "control-characters",
        "percent-encoding",
        "encoded-separators",
        "duplicate-slashes",
        "dot-segments",
    ];
    assert(args::words(flags@) == normalization_flags());
    if args::is_among(name, &flags) {
        return match extract_one_bool_arg(node) {
            Ok(_) => Ok(()),
            Err(b) => Err(b),
        };
    }
    Err(Bad::quoting("Unknown setting in 'normalization': '", name, "'", node.span))
}

fn read_check(nodes: &[Node], name: &str, usual: bool) -> (r: bool)
    ensures
        r == check_on(nodes@, name@, usual),
{
    match read_last_flag(nodes, name) {
        Some(b) => b,
        None => match read_last_flag(nodes, "default") {
            Some(b) => b,
            None => usual,
        },
    }
}

/// The `normalization` block.
pub fn extract_normalization(block: &Document) -> (r: Result<Normalization, Bad>)
    ensures
        args::told(r, args::first_fault(block.nodes@, normalization_check())),
        r matches Ok(n) ==> normalization_is(block.nodes@, n),
{
    let nodes = block.nodes.as_slice();
    let mut i: usize = 0;
    while i < nodes.len()
        invariant
            i <= nodes@.len(),
            nodes@ == block.nodes@,
            args::first_fault(nodes@.take(i as int), normalization_check()) is None,
        decreases nodes@.len() - i,
    {
        let ghost next = nodes@.take(i + 1);
        assert(next.drop_last() == nodes@.take(i as int));
        assert(next.last() == nodes@[i as int]);
        match check_normalization_line(&nodes[i]) {
            Ok(()) => {},
            Err(b) => {
                proof {
                    args::lemma_fault_stays(nodes@, i + 1, normalization_check());
                }
                return Err(b);
            },
        }
        i = i + 1;
    }
    assert(nodes@.take(nodes@.len() as int) == nodes@);
    proof {
        args::lemma_faultless(nodes@, normalization_check());
        document::lemma_last_named(nodes@, "status"@);
        match document::last_named(nodes@, "status"@) {
            Some(n) => {
                assert(normalization_check()(n) is None);
            },
            None => {},
        }
    }
    Ok(
        Normalization {
            header_non_ascii: read_check(nodes, "header-non-ascii", false),
            host: read_check(nodes, "host", true),
            control_characters: read_check(nodes, "control-characters", true),
            percent_encoding: read_check(nodes, "percent-encoding", true),
            encoded_separators: read_check(nodes, "encoded-separators", true),
            duplicate_slashes: read_check(nodes, "duplicate-slashes", true),
            dot_segments: read_check(nodes, "dot-segments", true),
            rejection: read_answer(nodes, 400),
        },
    )
}

// ---- overload ----

/// The names of the limits.
pub open spec fn overload_numbers() -> Seq<Seq<char>> {
    args::words(
        seq![
            "max-concurrent-requests",
            "max-headers",
            "max-header-bytes",
            "read-timeout-ms",
            "write-timeout-ms",
            "drain-timeout-ms",
            "min-send-rate-bytes",
        ],
    )
}

/// What is wrong with one line of an `overload` block, if anything.
pub open spec fn overload_line_fault(node: Node) -> Option<Fault> {
    if overload_numbers().contains(node.name@) {
        one_num_fault(node)
    } else if node.name@ == "status"@ {
        status_line_fault(node)
    } else if node.name@ == "body"@ {
        args::one_str_fault(node)
    } else {
        Some(("Unknown setting in 'overload': '"@ + node.name@ + "'"@, node.span))
    }
}

/// The check on each line of an `overload` block.
pub open spec fn overload_check() -> spec_fn(Node) -> Option<Fault> {
    |n: Node| overload_line_fault(n)
}

/// A number that fits a size, as one.
pub open spec fn opt_size(n: Option<nat>) -> Option<usize> {
    match n {
        Some(n) => Some(n as usize),
        None => None,
    }
}

/// Is `o` what an `overload` block says?
pub open spec fn overload_is(nodes: Seq<Node>, o: OverloadConfig) -> bool {
    &&& o.max_concurrent_requests == opt_size(last_num(nodes, "max-concurrent-requests"@))
    &&& o.max_headers == opt_size(last_num(nodes, "max-headers"@))
    &&& o.max_header_bytes == opt_size(last_num(nodes, "max-header-bytes"@))
    &&& o.read_timeout == connectors::opt_millis(last_num(nodes, "read-timeout-ms"@))
    &&& o.write_timeout == connectors::opt_millis(last_num(nodes, "write-timeout-ms"@))
    &&& o.drain_timeout == connectors::opt_millis(last_num(nodes, "drain-timeout-ms"@))
    &&& o.min_send_rate == opt_size(last_num(nodes, "min-send-rate-bytes"@))
    &&& answer_is(nodes, 503, o.rejection)
}

fn check_overload_line(node: &Node) -> (r: Result<(), Bad>)
    ensures
        args::told(r, overload_line_fault(*node)),
{
    let name = node.name.as_str();
    let numbers = [
        "max-concurrent-requests",
        "max-headers",
        "max-header-bytes",
        "read-timeout-ms",
        "write-timeout-ms",
        "drain-timeout-ms",
        "min-send-rate-bytes",
    ];
    assert(args::words(numbers@) == overload_numbers());
    if args::is_among(name, &numbers) {
        return match extract_one_num_arg(node) {
            Ok(_) => Ok(()),
            Err(b) => Err(b),
        };
    }
    if text::same_text(name, "status") {
        return match extract_status_line(node) {
            Ok(_) => Ok(()),
            Err(b) => Err(b),
        };
    }
    if text::same_text(name, "body") {
        return match extract_one_str_arg(node) {
            Ok(_) => Ok(()),
            Err(b) => Err(b),
        };
    }
    Err(Bad::quoting("Unknown setting in 'overload': '", name, "'", node.span))
}

/// A limit called by one of the names has a number.
proof fn lemma_overload_number(nodes: Seq<Node>, name: Seq<char>)
    requires
        args::first_fault(nodes, overload_check()) is None,
        overload_numbers().contains(name),
    ensures
        document::last_named(nodes, name) matches Some(n) ==> one_num_fault(n) is None,
{
    args::lemma_faultless(nodes, overload_check());
    document::lemma_last_named(nodes, name);
    match document::last_named(nodes, name) {
        Some(n) => {
            assert(overload_check()(n) is None);
        },
        None => {},
    }
}

proof fn lemma_overload_names()
    ensures
        overload_numbers().contains("max-concurrent-requests"@),
        overload_numbers().contains("max-headers"@),
        overload_numbers().contains("max-header-bytes"@),
        overload_numbers().contains("read-timeout-ms"@),
        overload_numbers().contains("write-timeout-ms"@),
        overload_numbers().contains("drain-timeout-ms"@),
        overload_numbers().contains("min-send-rate-bytes"@),
{
    assert(overload_numbers()[0] == "max-concurrent-requests"@);
    assert(overload_numbers()[1] == "max-headers"@);
    assert(overload_numbers()[2] == "max-header-bytes"@);
    assert(overload_numbers()[3] == "read-timeout-ms"@);
    assert(overload_numbers()[4] == "write-timeout-ms"@);
    assert(overload_numbers()[5] == "drain-timeout-ms"@);
    assert(overload_numbers()[6] == "min-send-rate-bytes"@);
}

/// `status` is not the name of a limit.
proof fn lemma_status_is_no_number()
    ensures
        !overload_numbers().contains("status"@),
{
    reveal_strlit("status");
    reveal_strlit("max-concurrent-requests");
    reveal_strlit("max-headers");
    reveal_strlit("max-header-bytes");
    reveal_strlit("read-timeout-ms");
    reveal_strlit("write-timeout-ms");
    reveal_strlit("drain-timeout-ms");
    reveal_strlit("min-send-rate-bytes");
    let names = overload_numbers();
    assert(names.len() == 7);
    assert forall|i: int| 0 <= i < 7 implies names[i] != "status"@ by {
        assert(names[i].len() != 6) by {
            if i == 0 {
                assert(names[0] == "max-concurrent-requests"@);
            } else if i == 1 {
                assert(names[1] == "max-headers"@);
            } else if i == 2 {
                assert(names[2] == "max-header-bytes"@);
            } else if i == 3 {
                assert(names[3] == "read-timeout-ms"@);
            } else if i == 4 {
                assert(names[4] == "write-timeout-ms"@);
            } else if i == 5 {
                assert(names[5] == "drain-timeout-ms"@);
            } else {
                assert(names[6] == "min-send-rate-bytes"@);
            }
        }
    }
}

fn read_timeout(nodes: &[Node], name: &str) -> (r: Option<Duration>)
    requires
        document::last_named(nodes@, name@) matches Some(n) ==> one_num_fault(n) is None,
    ensures
        r == connectors::opt_millis(last_num(nodes@, name@)),
{
    match read_last_num(nodes, name) {
        Some(n) => Some(Duration::from_millis(n as u64)),
        None => None,
    }
}

/// The `overload` block.
pub fn extract_overload(block: &Document) -> (r: Result<OverloadConfig, Bad>)
    ensures
        args::told(r, args::first_fault(block.nodes@, overload_check())),
        r matches Ok(o) ==> overload_is(block.nodes@, o),
{
    let nodes = block.nodes.as_slice();
    let mut i: usize = 0;
    while i < nodes.len()
        invariant
            i <= nodes@.len(),
            nodes@ == block.nodes@,
            args::first_fault(nodes@.take(i as int), overload_check()) is None,
        decreases nodes@.len() - i,
    {
        let ghost next = nodes@.take(i + 1);
        assert(next.drop_last() == nodes@.take(i as int));
        assert(next.last() == nodes@[i as int]);
        match check_overload_line(&nodes[i]) {
            Ok(()) => {},
            Err(b) => {
                proof {
                    args::lemma_fault_stays(nodes@, i + 1, overload_check());
                }
                return Err(b);
            },
        }
        i = i + 1;
    }
    assert(nodes@.take(nodes@.len() as int) == nodes@);
    proof {
        lemma_overload_names();
        lemma_overload_number(nodes@, "max-concurrent-requests"@);
        lemma_overload_number(nodes@, "max-headers"@);
        lemma_overload_number(nodes@, "max-header-bytes"@);
        lemma_overload_number(nodes@, "read-timeout-ms"@);
        lemma_overload_number(nodes@, "write-timeout-ms"@);
        lemma_overload_number(nodes@, "drain-timeout-ms"@);
        lemma_overload_number(nodes@, "min-send-rate-bytes"@);
        args::lemma_faultless(nodes@, overload_check());
        document::lemma_last_named(nodes@, "status"@);
        lemma_status_is_no_number();
        match document::last_named(nodes@, "status"@) {
            Some(n) => {
                assert(overload_check()(n) is None);
            },
            None => {},
        }
    }
    Ok(
        OverloadConfig {
            max_concurrent_requests: read_last_num(nodes, "max-concurrent-requests"),
            max_headers: read_last_num(nodes, "max-headers"),
            max_header_bytes: read_last_num(nodes, "max-header-bytes"),
            read_timeout: read_timeout(nodes, "read-timeout-ms"),
            write_timeout: read_timeout(nodes, "write-timeout-ms"),
            drain_timeout: read_timeout(nodes, "drain-timeout-ms"),
            min_send_rate: read_last_num(nodes, "min-send-rate-bytes"),
            rejection: read_answer(nodes, 503),
        },
    )
}

// ---- rate-limiting ----

/// The message on a value that is not what is expected under `key`.
pub open spec fn mistaken(e: Seq<Entry>, key: Seq<char>, expected: Seq<char>) -> Seq<char> {
    "'"@ + key + " should have "@ + expected + ", got '"@ + args::lookup(e, key)->0.shown@
        + "' instead"@
}

fn say_mistaken(key: &str, expected: &str, entry: &Entry, span: Span) -> (r: Bad)
    ensures
        r@ == (
            "'"@ + key@ + " should have "@ + expected@ + ", got '"@ + entry.shown@ + "' instead"@,
            span,
        ),
{
    let before = text::concat3("'", key, " should have ");
    let before = text::concat3(before.as_str(), expected, ", got '");
    Bad::quoting(before.as_str(), entry.shown.as_str(), "' instead", span)
}

/// A number that has to be given under `key`.
pub open spec fn needed_num_fault(e: Seq<Entry>, key: Seq<char>, span: Span) -> Option<Fault> {
    if args::lookup(e, key) is None {
        Some(("Missing key: '"@ + key + "'"@, span))
    } else {
        args::when(
            args::num_arg(e, key) is None || args::num_arg(e, key)->0 > usize::MAX,
            mistaken(e, key, "a positive integer value"@),
            span,
        )
    }
}

fn take_needed_num(a: &Args, key: &str) -> (r: Result<usize, Bad>)
    ensures
        args::told(r, needed_num_fault(a.entries@, key@, a.span)),
        r matches Ok(n) ==> args::num_arg(a.entries@, key@) == Some(n as nat),
{
    let entry = match a.find(key) {
        Some(entry) => entry,
        None => {
            return Err(Bad::quoting("Missing key: '", key, "'", a.span));
        },
    };
    match a.take_u64(key) {
        Ok(Some(n)) => {
            if n <= usize::MAX as u64 {
                return Ok(n as usize);
            }
        },
        _ => {},
    }
    Err(say_mistaken(key, "a positive integer value", entry, a.span))
}

/// A text that has to be given under `key`.
pub open spec fn needed_str_fault(e: Seq<Entry>, key: Seq<char>, span: Span) -> Option<Fault> {
    if args::lookup(e, key) is None {
        Some(("Missing key: '"@ + key + "'"@, span))
    } else {
        args::when(
            args::str_arg(e, key) is None,
            mistaken(e, key, "a string value"@),
            span,
        )
    }
}

fn take_needed_str<'a>(a: &Args<'a>, key: &str) -> (r: Result<&'a str, Bad>)
    ensures
        args::told(r, needed_str_fault(a.entries@, key@, a.span)),
        r matches Ok(s) ==> args::str_arg(a.entries@, key@) == Some(s@),
{
    let entry = match a.find(key) {
        Some(entry) => entry,
        None => {
            return Err(Bad::quoting("Missing key: '", key, "'", a.span));
        },
    };
    match a.take_str(key) {
        Ok(Some(s)) => Ok(s),
        _ => Err(say_mistaken(key, "a string value", entry, a.span)),
    }
}

/// A regular expression that has to be given as `pattern`.
pub open spec fn needed_pattern_fault(e: Seq<Entry>, span: Span) -> Option<Fault> {
    args::or(
        needed_str_fault(e, "pattern"@, span),
        args::when(
            !rate_limiting::regex_compiles(args::str_arg(e, "pattern"@)->0),
            "'"@ + args::str_arg(e, "pattern"@)->0 + " should be a valid regular expression"@,
            span,
        ),
    )
}

fn take_needed_pattern(a: &Args) -> (r: Result<RegexShim, Bad>)
    ensures
        args::told(r, needed_pattern_fault(a.entries@, a.span)),
        r matches Ok(p) ==> args::str_arg(a.entries@, "pattern"@) == Some(p.source()),
{
    let pattern = match take_needed_str(a, "pattern") {
        Ok(p) => p,
        Err(b) => {
            return Err(b);
        },
    };
    match RegexShim::new(pattern) {
        Some(p) => Ok(p),
        None => Err(Bad::quoting("'", pattern, " should be a valid regular expression", a.span)),
    }
}

/// What is wrong with a rate limiting rule, if anything.
pub open spec fn rule_fault(e: Seq<Entry>, span: Span) -> Option<Fault> {
    let kind = args::str_arg(e, "kind"@)->0;
    args::or(
        needed_str_fault(e, "kind"@, span),
        args::or(
            needed_num_fault(e, "tokens-per-bucket"@, span),
            args::or(
                needed_num_fault(e, "refill-qty"@, span),
                args::or(
                    needed_num_fault(e, "refill-rate-ms"@, span),
                    if kind == "source-ip"@ {
                        needed_num_fault(e, "max-buckets"@, span)
                    } else if kind == "specific-uri"@ {
                        args::or(
                            needed_pattern_fault(e, span),
                            needed_num_fault(e, "max-buckets"@, span),
                        )
                    } else if kind == "any-matching-uri"@ {
                        needed_pattern_fault(e, span)
                    } else {
                        Some(
                            (
                                "'"@ + kind + " is not a known kind of rate limiting"@,
                                span,
                            ),
                        )
                    },
                ),
            ),
        ),
    )
}

/// The buckets that a rule with one bucket per key asks for.
pub open spec fn multi_of(e: Seq<Entry>, threads: usize) -> MultiRaterConfig {
    MultiRaterConfig {
        threads,
        max_buckets: args::num_arg(e, "max-buckets"@)->0 as usize,
        max_tokens_per_bucket: args::num_arg(e, "tokens-per-bucket"@)->0 as usize,
        refill_interval_millis: args::num_arg(e, "refill-rate-ms"@)->0 as usize,
        refill_qty: args::num_arg(e, "refill-qty"@)->0 as usize,
    }
}

/// The bucket that a rule with a single bucket asks for.
pub open spec fn single_of(e: Seq<Entry>) -> SingleInstanceConfig {
    SingleInstanceConfig {
        max_tokens_per_bucket: args::num_arg(e, "tokens-per-bucket"@)->0 as usize,
        refill_interval_millis: args::num_arg(e, "refill-rate-ms"@)->0 as usize,
        refill_qty: args::num_arg(e, "refill-qty"@)->0 as usize,
    }
}

/// Is `c` the rule that a line asks for?
pub open spec fn rule_is(e: Seq<Entry>, threads: usize, c: AllRateConfig) -> bool {
    let kind = args::str_arg(e, "kind"@)->0;
    if kind == "source-ip"@ {
        match c {
            AllRateConfig::Multi { kind: MultiRequestKeyKind::SourceIp, config } => config
                == multi_of(e, threads),
            _ => false,
        }
    } else if kind == "specific-uri"@ {
        match c {
            AllRateConfig::Multi { kind: MultiRequestKeyKind::Uri { pattern }, config } => config
                == multi_of(e, threads) && args::str_arg(e, "pattern"@) == Some(
                pattern.source(),
            ),
            _ => false,
        }
    } else {
        match c {
            AllRateConfig::Single {
                kind: SingleRequestKeyKind::UriGroup { pattern },
                config,
            } => config == single_of(e) && args::str_arg(e, "pattern"@) == Some(
                pattern.source(),
            ),
            _ => false,
        }
    }
}

/// One rate limiting rule.
pub fn make_rate_limiter(threads_per_service: usize, a: &Args) -> (r: Result<AllRateConfig, Bad>)
    ensures
        args::told(r, rule_fault(a.entries@, a.span)),
        r matches Ok(c) ==> rule_is(a.entries@, threads_per_service, c),
{
    let kind = match take_needed_str(a, "kind") {
        Ok(k) => k,
        Err(b) => {
            return Err(b);
        },
    };
    let tokens_per_bucket = match take_needed_num(a, "tokens-per-bucket") {
        Ok(n) => n,
        Err(b) => {
            return Err(b);
        },
    };
    let refill_qty = match take_needed_num(a, "refill-qty") {
        Ok(n) => n,
        Err(b) => {
            return Err(b);
        },
    };
    let refill_rate_ms = match take_needed_num(a, "refill-rate-ms") {
        Ok(n) => n,
        Err(b) => {
            return Err(b);
        },
    };
    if text::same_text(kind, "source-ip") {
        return match take_needed_num(a, "max-buckets") {
            Ok(max_buckets) => Ok(
                AllRateConfig::Multi {
                    kind: MultiRequestKeyKind::SourceIp,
                    config: MultiRaterConfig {
                        threads: threads_per_service,
                        max_buckets,
                        max_tokens_per_bucket: tokens_per_bucket,
                        refill_interval_millis: refill_rate_ms,
                        refill_qty,
                    },
                },
            ),
            Err(b) => Err(b),
        };
    }
    if text::same_text(kind, "specific-uri") {
        let pattern = match take_needed_pattern(a) {
            Ok(p) => p,
            Err(b) => {
                return Err(b);
            },
        };
        return match take_needed_num(a, "max-buckets") {
            Ok(max_buckets) => Ok(
                AllRateConfig::Multi {
                    kind: MultiRequestKeyKind::Uri { pattern },
                    config: MultiRaterConfig {
                        threads: threads_per_service,
                        max_buckets,
                        max_tokens_per_bucket: tokens_per_bucket,
                        refill_interval_millis: refill_rate_ms,
                        refill_qty,
                    },
                },
            ),
            Err(b) => Err(b),
        };
    }
    if text::same_text(kind, "any-matching-uri") {
        return match take_needed_pattern(a) {
            Ok(pattern) => Ok(
                AllRateConfig::Single {
                    kind: SingleRequestKeyKind::UriGroup { pattern },
                    config: SingleInstanceConfig {
                        max_tokens_per_bucket: tokens_per_bucket,
                        refill_interval_millis: refill_rate_ms,
                        refill_qty,
                    },
                },
            ),
            Err(b) => Err(b),
        };
    }
    Err(Bad::quoting("'", kind, " is not a known kind of rate limiting", a.span))
}

/// What is wrong with one line of a `rate-limiting` block, if anything.
pub open spec fn rule_line_fault(node: Node) -> Option<Fault> {
    if node.name@ != "rule"@ {
        Some(("Unknown name: '"@ + node.name@ + "'"@, node.span))
    } else {
        args::or(args::unnamed(node.entries@), rule_fault(node.entries@, node.span))
    }
}

/// The check on each line of a `rate-limiting` block.
pub open spec fn rule_check() -> spec_fn(Node) -> Option<Fault> {
    |n: Node| rule_line_fault(n)
}

/// Are these the rules that a `rate-limiting` block asks for?
pub open spec fn rules_are(nodes: Seq<Node>, threads: usize, rules: Seq<AllRateConfig>) -> bool {
    &&& rules.len() == nodes.len()
    &&& forall|i: int|
        0 <= i < rules.len() ==> rule_is(nodes[i].entries@, threads, #[trigger] rules[i])
}

fn extract_rule(threads_per_service: usize, node: &Node) -> (r: Result<AllRateConfig, Bad>)
    ensures
        args::told(r, rule_line_fault(*node)),
        r matches Ok(c) ==> rule_is(node.entries@, threads_per_service, c),
{
    if !text::same_text(node.name.as_str(), "rule") {
        return Err(Bad::quoting("Unknown name: '", node.name.as_str(), "'", node.span));
    }
    match Args::named(&node.entries, node.span) {
        Ok(a) => make_rate_limiter(threads_per_service, &a),
        Err(b) => Err(b),
    }
}

/// The `rate-limiting` block.
pub fn extract_rate_limiting(threads_per_service: usize, block: &Document) -> (r: Result<
    RateLimitingConfig,
    Bad,
>)
    ensures
        args::told(r, args::first_fault(block.nodes@, rule_check())),
        r matches Ok(c) ==> rules_are(block.nodes@, threads_per_service, c.rules@),
{
    let nodes = block.nodes.as_slice();
    let mut rules: Vec<AllRateConfig> = Vec::new();
    let mut i: usize = 0;
    while i < nodes.len()
        invariant
            i <= nodes@.len(),
            nodes@ == block.nodes@,
            args::first_fault(nodes@.take(i as int), rule_check()) is None,
            rules@.len() == i,
            forall|k: int|
                0 <= k < i ==> rule_is(
                    nodes@[k].entries@,
                    threads_per_service,
                    #[trigger] rules@[k],
                ),
        decreases nodes@.len() - i,
    {
        let ghost next = nodes@.take(i + 1);
        assert(next.drop_last() == nodes@.take(i as int));
        assert(next.last() == nodes@[i as int]);
        match extract_rule(threads_per_service, &nodes[i]) {
            Ok(c) => {
                rules.push(c);
            },
            Err(b) => {
                proof {
                    args::lemma_fault_stays(nodes@, i + 1, rule_check());
                }
                return Err(b);
            },
        }
        i = i + 1;
    }
    assert(nodes@.take(nodes@.len() as int) == nodes@);
    Ok(RateLimitingConfig { rules })
}

/// Proxies are trusted by the last `trusted-proxies` line, with every range that it lists,
/// and the header that they add to is the one that the last `header` line names, or else
/// `x-forwarded-for`.
pub proof fn trust_is_as_the_lines_say(nodes: Seq<Node>, c: ClientIpConfig, t: int, h: int, i: int)
    requires
        client_ip_is(nodes, c),
        0 <= t < nodes.len(),
        nodes[t].name@ == "trusted-proxies"@,
        forall|k: int| t < k < nodes.len() ==> (#[trigger] nodes[k]).name@ != "trusted-proxies"@,
        args::one_str(nodes[t].entries@) is Some,
        -1 <= h < nodes.len(),
        h >= 0 ==> nodes[h].name@ == "header"@ && args::one_str(nodes[h].entries@) is Some,
        forall|k: int| h < k < nodes.len() ==> (#[trigger] nodes[k]).name@ != "header"@,
    ensures
        ({
            let ranges = text::split(args::one_str(nodes[t].entries@)->0, ',');
            &&& c.trusted_proxies@.len() == ranges.len()
            &&& 0 <= i < ranges.len() ==> crate::net::parsed_cidr(text::trimmed(ranges[i])) == Ok::<
                crate::net::IpCidr,
                Seq<char>,
            >(c.trusted_proxies@[i])
        }),
        c.header@ == (if h >= 0 {
            text::lower_text(args::one_str(nodes[h].entries@)->0)
        } else {
            "x-forwarded-for"@
        }),
{
    document::the_last_of_a_name_counts(nodes, "trusted-proxies"@, t);
    document::the_last_of_a_name_counts(nodes, "header"@, h);
}

/// A check is on if the last line that names it says so. Where no line names it the last
/// `default` line says so, and where there is none it is as usual.
pub proof fn a_check_is_on_as_its_line_says(
    nodes: Seq<Node>,
    name: Seq<char>,
    usual: bool,
    i: int,
    d: int,
)
    requires
        -1 <= i < nodes.len(),
        i >= 0 ==> nodes[i].name@ == name && args::one_bool(nodes[i].entries@) is Some,
        forall|k: int| i < k < nodes.len() ==> (#[trigger] nodes[k]).name@ != name,
        -1 <= d < nodes.len(),
        d >= 0 ==> nodes[d].name@ == "default"@ && args::one_bool(nodes[d].entries@) is Some,
        forall|k: int| d < k < nodes.len() ==> (#[trigger] nodes[k]).name@ != "default"@,
    ensures
        check_on(nodes, name, usual) == (if i >= 0 {
            args::one_bool(nodes[i].entries@)->0
        } else if d >= 0 {
            args::one_bool(nodes[d].entries@)->0
        } else {
            usual
        }),
{
    document::the_last_of_a_name_counts(nodes, name, i);
    document::the_last_of_a_name_counts(nodes, "default"@, d);
}

/// Each check has a line of its own name. All but the one for headers outside ASCII are on
/// where nothing is said, and what fails one is answered with a 400.
pub proof fn each_check_has_its_line(nodes: Seq<Node>, n: Normalization)
    requires
        normalization_is(nodes, n),
    ensures
        n.header_non_ascii == check_on(nodes, "header-non-ascii"@, false),
        n.host == check_on(nodes, "host"@, true),
        n.control_characters == check_on(nodes, "control-characters"@, true),
        n.percent_encoding == check_on(nodes, "percent-encoding"@, true),
        n.encoded_separators == check_on(nodes, "encoded-separators"@, true),
        n.duplicate_slashes == check_on(nodes, "duplicate-slashes"@, true),
        n.dot_segments == check_on(nodes, "dot-segments"@, true),
        document::last_named(nodes, "status"@) is None ==> n.rejection.status == 400,
        document::last_named(nodes, "body"@) is None ==> n.rejection.body is None,
        nodes.len() == 0 ==> !n.header_non_ascii && n.host && n.control_characters
            && n.percent_encoding && n.encoded_separators && n.duplicate_slashes && n.dot_segments,
{
}

/// A number on a line of its own is that of the last line of its name, and there is none
/// where no line has the name.
pub proof fn a_number_is_as_its_line_says(nodes: Seq<Node>, name: Seq<char>, i: int)
    requires
        -1 <= i < nodes.len(),
        i >= 0 ==> nodes[i].name@ == name,
        forall|k: int| i < k < nodes.len() ==> (#[trigger] nodes[k]).name@ != name,
    ensures
        i < 0 ==> last_num(nodes, name) is None && last_flag(nodes, name) is None,
        i >= 0 && nodes[i].entries@.len() == 1 ==> match nodes[i].entries@[0].value {
            Value::Int(n) => last_num(nodes, name) == (if n >= 0 {
                Some(n as nat)
            } else {
                None
            }),
            Value::Flag(b) => last_flag(nodes, name) == Some(b),
            _ => last_num(nodes, name) is None && last_flag(nodes, name) is None,
        },
{
    document::the_last_of_a_name_counts(nodes, name, i);
}

/// Each limit has a line of its own name, with the number that the line gives and, for a
/// time, in milliseconds. What is given no line has no limit, and what is over one is
/// answered with a 503.
pub proof fn each_limit_has_its_line(nodes: Seq<Node>, o: OverloadConfig)
    requires
        overload_is(nodes, o),
    ensures
        match last_num(nodes, "max-concurrent-requests"@) {
            Some(n) => o.max_concurrent_requests matches Some(m) && (n <= usize::MAX ==> m == n),
            None => o.max_concurrent_requests is None,
        },
        match last_num(nodes, "max-headers"@) {
            Some(n) => o.max_headers matches Some(m) && (n <= usize::MAX ==> m == n),
            None => o.max_headers is None,
        },
        match last_num(nodes, "max-header-bytes"@) {
            Some(n) => o.max_header_bytes matches Some(m) && (n <= usize::MAX ==> m == n),
            None => o.max_header_bytes is None,
        },
        match last_num(nodes, "min-send-rate-bytes"@) {
            Some(n) => o.min_send_rate matches Some(m) && (n <= usize::MAX ==> m == n),
            None => o.min_send_rate is None,
        },
        match last_num(nodes, "read-timeout-ms"@) {
            Some(n) => o.read_timeout matches Some(t) && (n <= u64::MAX ==> t.millis == n),
            None => o.read_timeout is None,
        },
        match last_num(nodes, "write-timeout-ms"@) {
            Some(n) => o.write_timeout matches Some(t) && (n <= u64::MAX ==> t.millis == n),
            None => o.write_timeout is None,
        },
        match last_num(nodes, "drain-timeout-ms"@) {
            Some(n) => o.drain_timeout matches Some(t) && (n <= u64::MAX ==> t.millis == n),
            None => o.drain_timeout is None,
        },
        document::last_named(nodes, "status"@) is None ==> o.rejection.status == 503,
        document::last_named(nodes, "body"@) is None ==> o.rejection.body is None,
{
}

/// Each line of a `rate-limiting` block is one rule, in the order they stand in, of the
/// kind and with the numbers that the line gives.
pub proof fn every_line_is_a_rule(
    nodes: Seq<Node>,
    threads: usize,
    rules: Seq<AllRateConfig>,
    i: int,
)
    requires
        rules_are(nodes, threads, rules),
        args::first_fault(nodes, rule_check()) is None,
        0 <= i < nodes.len(),
    ensures
        rules.len() == nodes.len(),
        ({
            let e = nodes[i].entries@;
            let kind = args::str_arg(e, "kind"@);
            match rules[i] {
                AllRateConfig::Multi { kind: k, config } => {
                    &&& (k is SourceIp && kind == Some("source-ip"@)) || (
                    k matches MultiRequestKeyKind::Uri { pattern } && kind == Some(
                        "specific-uri"@,
                    ) && args::str_arg(e, "pattern"@) == Some(pattern.source()))
                    &&& config.threads == threads
                    &&& args::num_arg(e, "max-buckets"@) == Some(config.max_buckets as nat)
                    &&& args::num_arg(e, "tokens-per-bucket"@) == Some(
                        config.max_tokens_per_bucket as nat,
                    )
                    &&& args::num_arg(e, "refill-rate-ms"@) == Some(
                        config.refill_interval_millis as nat,
                    )
                    &&& args::num_arg(e, "refill-qty"@) == Some(config.refill_qty as nat)
                },
                AllRateConfig::Single {
                    kind: SingleRequestKeyKind::UriGroup { pattern },
                    config,
                } => {
                    &&& kind == Some("any-matching-uri"@)
                    &&& args::str_arg(e, "pattern"@) == Some(pattern.source())
                    &&& args::num_arg(e, "tokens-per-bucket"@) == Some(
                        config.max_tokens_per_bucket as nat,
                    )
                    &&& args::num_arg(e, "refill-rate-ms"@) == Some(
                        config.refill_interval_millis as nat,
                    )
                    &&& args::num_arg(e, "refill-qty"@) == Some(config.refill_qty as nat)
                },
            }
        }),
{
    args::lemma_faultless(nodes, rule_check());
    assert(nodes.contains(nodes[i]));
    assert(rule_check()(nodes[i]) is None);
    assert(rule_is(nodes[i].entries@, threads, rules[i]));
}

/// Every line about proxies to trust is checked, and there has to be one that says which.
pub proof fn every_line_on_trust_is_checked(block: Document, i: int)
    requires
        client_ip_fault(block) is None,
    ensures
        document::last_named(block.nodes@, "trusted-proxies"@) is Some,
        0 <= i < block.nodes@.len() ==> {
            let node = block.nodes@[i];
            let word = args::one_str(node.entries@);
            &&& word is Some
            &&& node.name@ == "trusted-proxies"@ || node.name@ == "header"@
            &&& node.name@ == "trusted-proxies"@ ==> path_control::cidr_list_fault(
                word->0,
                node.span,
            ) is None
            &&& node.name@ == "header"@ ==> wire::is_header_name(word->0)
        },
{
    let nodes = block.nodes@;
    args::lemma_faultless(nodes, client_ip_check());
    if 0 <= i < nodes.len() {
        assert(nodes.contains(nodes[i]));
        assert(client_ip_check()(nodes[i]) is None);
        let known = args::words(seq!["trusted-proxies", "header"]);
        let at = known.index_of(nodes[i].name@);
        assert(known[at] == nodes[i].name@);
        assert(at == 0 || at == 1);
    }
}

} // verus!
