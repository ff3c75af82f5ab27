//! The `path-control` block: what is filtered and rewritten at each stage.
use crate::config::internal::{
    BodySizeLimit, HeaderModifier, PathControl, Rejection, RequestFilterConfig,
    RequestModifierConfig, ResponseModifierConfig,
};
use crate::config::kdl::args;
use crate::config::kdl::args::{Args, Bad, Fault};
use crate::config::kdl::balancing;
use crate::config::kdl::balancing::take_status;
use crate::config::kdl::connectors;
use crate::config::kdl::document;
use crate::config::kdl::document::{last_node, Document, Entry, Node, Span};
use crate::net;
use crate::net::IpCidr;
use crate::proxy::glob::Glob;
use crate::proxy::rate_limiting;
use crate::proxy::rate_limiting::RegexShim;
use crate::text;
use crate::wire;
use vstd::prelude::*;

verus! {

/// What is wrong with the form of one line of a stage, if anything.
pub open spec fn filter_form_fault(node: Node) -> Option<Fault> {
    args::or(
        args::when(
            node.name@ != "filter"@,
            "'"@ + node.name@
                + "' is not a path control entry - every line in this block is a 'filter', and what it does is chosen by its 'kind'"@,
            node.span,
        ),
        args::or(
            args::unnamed(node.entries@),
            args::or(
                args::str_fault(node.entries@, "kind"@),
                args::when(
                    args::str_arg(node.entries@, "kind"@) is None,
                    "a 'filter' must say which 'kind' it is"@,
                    node.span,
                ),
            ),
        ),
    )
}

/// The check on the form of each line of a stage.
pub open spec fn filter_form_check() -> spec_fn(Node) -> Option<Fault> {
    |n: Node| filter_form_fault(n)
}

/// What a line of a stage does.
pub open spec fn kind_of(node: Node) -> Seq<char> {
    args::str_arg(node.entries@, "kind"@)->0
}

fn check_filter_form(node: &Node) -> (r: Result<(), Bad>)
    ensures
        args::told(r, filter_form_fault(*node)),
{
    if !text::same_text(node.name.as_str(), "filter") {
        return Err(
            Bad::quoting(
                "'",
                node.name.as_str(),
                "' is not a path control entry - every line in this block is a 'filter', and what it does is chosen by its 'kind'",
                node.span,
            ),
        );
    }
    let a = match Args::named(&node.entries, node.span) {
        Ok(a) => a,
        Err(b) => {
            return Err(b);
        },
    };
    match a.take_str("kind") {
        Ok(Some(_)) => Ok(()),
        Ok(None) => Err(Bad::plain("a 'filter' must say which 'kind' it is", node.span)),
        Err(b) => Err(b),
    }
}

/// Every line of a stage is a `filter` that says which kind it is.
pub fn filter_kinds(nodes: &[Node]) -> (r: Result<(), Bad>)
    ensures
        args::told(r, args::first_fault(nodes@, filter_form_check())),
{
    let mut i: usize = 0;
    while i < nodes.len()
        invariant
            i <= nodes@.len(),
            args::first_fault(nodes@.take(i as int), filter_form_check()) is None,
        decreases nodes@.len() - i,
    {
        let ghost next = nodes@.take(i + 1);
        assert(next.drop_last() == nodes@.take(i as int));
        assert(next.last() == nodes@[i as int]);
        match check_filter_form(&nodes[i]) {
            Ok(()) => {},
            Err(b) => {
                proof {
                    args::lemma_fault_stays(nodes@, i + 1, filter_form_check());
                }
                return Err(b);
            },
        }
        i = i + 1;
    }
    assert(nodes@.take(nodes@.len() as int) == nodes@);
    Ok(())
}

fn read_kind<'a>(a: &Args<'a>) -> (r: &'a str)
    requires
        args::str_arg(a.entries@, "kind"@) is Some,
    ensures
        Some(r@) == args::str_arg(a.entries@, "kind"@),
{
    match a.take_str("kind") {
        Ok(Some(k)) => k,
        _ => "",
    }
}

/// What is wrong with the answer that a rejecting filter is given, if anything.
pub open spec fn rejection_fault(e: Seq<Entry>, default: u16, span: Span) -> Option<Fault> {
    args::or(
        balancing::status_fault(e, "status"@, default, span),
        args::str_fault(e, "body"@),
    )
}

/// Is `j` the answer that a rejecting filter is given?
pub open spec fn rejection_is(e: Seq<Entry>, default: u16, j: Rejection) -> bool {
    &&& j.status == connectors::given(args::num_arg(e, "status"@), default as nat)
    &&& wire::opt_text(j.body) == args::str_arg(e, "body"@)
}

/// The `status` and `body` arguments that every rejecting filter accepts.
///
/// `default_status` is what the filter answers when the operator does not say.
pub fn extract_rejection(a: &Args, default_status: u16) -> (r: Result<Rejection, Bad>)
    ensures
        args::told(r, rejection_fault(a.entries@, default_status, a.span)),
        r matches Ok(j) ==> rejection_is(a.entries@, default_status, j),
{
    let status = match take_status(a, "status", default_status) {
        Ok(s) => s,
        Err(b) => {
            return Err(b);
        },
    };
    match a.take_str("body") {
        Ok(Some(body)) => Ok(Rejection { status, body: Some(body.to_owned()) }),
        Ok(None) => Ok(Rejection { status, body: None }),
        Err(b) => Err(b),
    }
}

/// What is wrong with one piece of a list of addresses, if anything.
pub open spec fn range_fault(list: Seq<char>, piece: Seq<char>, span: Span) -> Option<Fault> {
    let entry = text::trimmed(piece);
    if entry.len() == 0 {
        Some(("'"@ + list + "' has an empty entry - check for a stray comma"@, span))
    } else {
        match net::parsed_cidr(entry) {
            Ok(_) => None,
            Err(e) => Some(
                ("'"@ + entry + "' is not an address or CIDR range: "@ + e, span),
            ),
        }
    }
}

/// What is wrong with the first faulty piece of a list of addresses.
pub open spec fn ranges_fault(list: Seq<char>, pieces: Seq<Seq<char>>, span: Span) -> Option<
    Fault,
>
    decreases pieces.len(),
{
    if pieces.len() == 0 {
        None
    } else {
        args::or(
            ranges_fault(list, pieces.drop_last(), span),
            range_fault(list, pieces.last(), span),
        )
    }
}

/// What is wrong with a comma separated list of addresses and ranges, if
/// anything.
pub open spec fn cidr_list_fault(list: Seq<char>, span: Span) -> Option<Fault> {
    ranges_fault(list, text::split(list, ','), span)
}

/// Are these the ranges that a list names?
pub open spec fn cidr_list_is(list: Seq<char>, blocks: Seq<IpCidr>) -> bool {
    let pieces = text::split(list, ',');
    &&& blocks.len() == pieces.len()
    &&& forall|i: int|
        0 <= i < blocks.len() ==> {
            &&& net::parsed_cidr(text::trimmed(pieces[i])) == Ok::<IpCidr, Seq<char>>(
                #[trigger] blocks[i],
            )
            &&& blocks[i].well_formed()
        }
}

proof fn lemma_ranges_fault_stays(
    list: Seq<char>,
    pieces: Seq<Seq<char>>,
    n: int,
    span: Span,
)
    requires
        0 <= n <= pieces.len(),
        ranges_fault(list, pieces.take(n), span) is Some,
    ensures
        ranges_fault(list, pieces, span) == ranges_fault(list, pieces.take(n), span),
    decreases pieces.len() - n,
{
    if n < pieces.len() {
        assert(pieces.take(n + 1).drop_last() == pieces.take(n));
        lemma_ranges_fault_stays(list, pieces, n + 1, span);
    } else {
        assert(pieces.take(n) == pieces);
    }
}

/// `192.168.0.0/16, 10.0.0.0/8, 127.0.0.1`.
pub fn extract_cidr_list(list: &str, span: Span) -> (r: Result<Vec<IpCidr>, Bad>)
    ensures
        args::told(r, cidr_list_fault(list@, span)),
        r matches Ok(blocks) ==> cidr_list_is(list@, blocks@),
{
    let pieces = text::split_text(list, ',');
    let ghost all = text::split(list@, ',');
    assert(all == text::texts(pieces@));
    let mut blocks: Vec<IpCidr> = Vec::new();
    let mut i: usize = 0;
    while i < pieces.len()
        invariant
            i <= pieces@.len(),
            all == text::texts(pieces@),
            all == text::split(list@, ','),
            ranges_fault(list@, all.take(i as int), span) is None,
            blocks@.len() == i,
            forall|k: int|
                0 <= k < i ==> {
                    &&& net::parsed_cidr(text::trimmed(all[k])) == Ok::<IpCidr, Seq<char>>(
                        #[trigger] blocks@[k],
                    )
                    &&& blocks@[k].well_formed()
                },
        decreases pieces@.len() - i,
    {
        let ghost next = all.take(i + 1);
        assert(next.drop_last() == all.take(i as int));
        assert(next.last() == pieces@[i as int]@);
        let entry = text::trim(pieces[i].as_str());
        if entry.as_str().is_empty() {
            proof {
                lemma_ranges_fault_stays(list@, all, i + 1, span);
            }
            return Err(
                Bad::quoting("'", list, "' has an empty entry - check for a stray comma", span),
            );
        }
        match net::parse_cidr(entry.as_str()) {
            Ok(c) => {
                blocks.push(c);
            },
            Err(e) => {
                proof {
                    lemma_ranges_fault_stays(list@, all, i + 1, span);
                }
                let mut message = text::concat3(
                    "'",
                    entry.as_str(),
                    "' is not an address or CIDR range: ",
                );
                message.append(e.as_str());
                return Err(Bad::docspan(message, span));
            },
        }
        i = i + 1;
    }
    assert(all.take(all.len() as int) == all);
    Ok(blocks)
}

/// A text that has to be given under `key`.
pub open spec fn required_str_fault(
    e: Seq<Entry>,
    key: Seq<char>,
    missing: Seq<char>,
    span: Span,
) -> Option<Fault> {
    args::or(args::str_fault(e, key), args::when(args::str_arg(e, key) is None, missing, span))
}

fn take_required_str<'a>(a: &Args<'a>, key: &str, before: &str, kind: &str, after: &str) -> (r:
    Result<&'a str, Bad>)
    ensures
        args::told(
            r,
            required_str_fault(a.entries@, key@, before@ + kind@ + after@, a.span),
        ),
        r matches Ok(s) ==> args::str_arg(a.entries@, key@) == Some(s@),
{
    match a.take_str(key) {
        Ok(Some(s)) => Ok(s),
        Ok(None) => Err(Bad::quoting(before, kind, after, a.span)),
        Err(b) => Err(b),
    }
}

/// What is wrong with a line of the `request-filters` stage, if anything.
pub open spec fn request_filter_fault(node: Node) -> Option<Fault> {
    let e = node.entries@;
    let kind = kind_of(node);
    if kind == "block-cidr-range"@ || kind == "allow-cidr-range"@ {
        args::or(
            required_str_fault(
                e,
                "addrs"@,
                "'"@ + kind + "' needs 'addrs', a comma separated list of addresses or ranges"@,
                node.span,
            ),
            args::or(
                cidr_list_fault(args::str_arg(e, "addrs"@)->0, node.span),
                args::or(
                    // A blocked source address is forbidden, not
                    // unauthenticated.
                    rejection_fault(e, 403, node.span),
                    args::unread_fault(
                        e,
                        args::words(seq!["kind", "addrs", "status", "body"]),
                        node.span,
                    ),
                ),
            ),
        )
    } else {
        Some(
            (
                "'"@ + kind
                    + "' is not a request filter. The kinds here are 'block-cidr-range' and 'allow-cidr-range'."@,
                node.span,
            ),
        )
    }
}

/// The check on each line of the `request-filters` stage.
pub open spec fn request_filter_check() -> spec_fn(Node) -> Option<Fault> {
    |n: Node| request_filter_fault(n)
}

/// Is `f` the filter that a line asks for?
pub open spec fn request_filter_is(node: Node, f: RequestFilterConfig) -> bool {
    let e = node.entries@;
    match f {
        RequestFilterConfig::BlockCidr { blocks, rejection } => {
            &&& kind_of(node) == "block-cidr-range"@
            &&& cidr_list_is(args::str_arg(e, "addrs"@)->0, blocks@)
            &&& rejection_is(e, 403, rejection)
        },
        RequestFilterConfig::AllowCidr { blocks, rejection } => {
            &&& kind_of(node) != "block-cidr-range"@
            &&& cidr_list_is(args::str_arg(e, "addrs"@)->0, blocks@)
            &&& rejection_is(e, 403, rejection)
        },
    }
}

fn extract_request_filter(node: &Node) -> (r: Result<RequestFilterConfig, Bad>)
    requires
        filter_form_fault(*node) is None,
    ensures
        args::told(r, request_filter_fault(*node)),
        r matches Ok(f) ==> request_filter_is(*node, f),
{
    let a = Args { entries: node.entries.as_slice(), span: node.span };
    let kind = read_kind(&a);
    let block = text::same_text(kind, "block-cidr-range");
    if !(block || text::same_text(kind, "allow-cidr-range")) {
        return Err(
            Bad::quoting(
                "'",
                kind,
                "' is not a request filter. The kinds here are 'block-cidr-range' and 'allow-cidr-range'.",
                node.span,
            ),
        );
    }
    let list = match take_required_str(
        &a,
        "addrs",
        "'",
        kind,
        "' needs 'addrs', a comma separated list of addresses or ranges",
    ) {
        Ok(s) => s,
        Err(b) => {
            return Err(b);
        },
    };
    let blocks = match extract_cidr_list(list, node.span) {
        Ok(v) => v,
        Err(b) => {
            return Err(b);
        },
    };
    let rejection = match extract_rejection(&a, 403) {
        Ok(v) => v,
        Err(b) => {
            return Err(b);
        },
    };
    let known = ["kind", "addrs", "status", "body"];
    assert(known@ == seq!["kind", "addrs", "status", "body"]);
    match a.finish(&known) {
        Ok(()) => {},
        Err(b) => {
            return Err(b);
        },
    }
    if block {
        Ok(RequestFilterConfig::BlockCidr { blocks, rejection })
    } else {
        Ok(RequestFilterConfig::AllowCidr { blocks, rejection })
    }
}

/// What is wrong with the `request-filters` stage, if anything.
pub open spec fn request_filters_fault(nodes: Seq<Node>) -> Option<Fault> {
    args::or(
        args::first_fault(nodes, filter_form_check()),
        args::first_fault(nodes, request_filter_check()),
    )
}

/// Are these the filters that the stage asks for?
pub open spec fn request_filters_are(nodes: Seq<Node>, f: Seq<RequestFilterConfig>) -> bool {
    &&& f.len() == nodes.len()
    &&& forall|i: int| 0 <= i < f.len() ==> request_filter_is(nodes[i], #[trigger] f[i])
}

/// The `request-filters` stage.
pub fn extract_request_filters(stage: &Document) -> (r: Result<Vec<RequestFilterConfig>, Bad>)
    ensures
        args::told(r, request_filters_fault(stage.nodes@)),
        r matches Ok(f) ==> request_filters_are(stage.nodes@, f@),
{
    let nodes = stage.nodes.as_slice();
    match filter_kinds(nodes) {
        Ok(()) => {},
        Err(b) => {
            return Err(b);
        },
    }
    proof {
        args::lemma_faultless(nodes@, filter_form_check());
    }
    let mut out: Vec<RequestFilterConfig> = Vec::new();
    let mut i: usize = 0;
    while i < nodes.len()
        invariant
            i <= nodes@.len(),
            nodes@ == stage.nodes@,
            args::first_fault(nodes@, filter_form_check()) is None,
            forall|n: Node| #[trigger] nodes@.contains(n) ==> filter_form_check()(n) is None,
            args::first_fault(nodes@.take(i as int), request_filter_check()) is None,
            out@.len() == i,
            forall|k: int| 0 <= k < i ==> request_filter_is(nodes@[k], #[trigger] out@[k]),
        decreases nodes@.len() - i,
    {
        let ghost next = nodes@.take(i + 1);
        assert(next.drop_last() == nodes@.take(i as int));
        assert(next.last() == nodes@[i as int]);
        proof {
            assert(nodes@.contains(nodes@[i as int]));
            assert(filter_form_check()(nodes@[i as int]) is None);
        }
        match extract_request_filter(&nodes[i]) {
            Ok(f) => {
                out.push(f);
            },
            Err(b) => {
                proof {
                    args::lemma_fault_stays(nodes@, i + 1, request_filter_check());
                }
                return Err(b);
            },
        }
        i = i + 1;
    }
    assert(nodes@.take(nodes@.len() as int) == nodes@);
    Ok(out)
}

/// What is wrong with a regular expression given as `pattern`, if anything.
pub open spec fn pattern_fault(e: Seq<Entry>, kind: Seq<char>, span: Span) -> Option<Fault> {
    let pattern = args::str_arg(e, "pattern"@)->0;
    args::or(
        required_str_fault(e, "pattern"@, "'"@ + kind + "' needs a 'pattern'"@, span),
        args::when(
            !rate_limiting::regex_compiles(pattern),
            "'"@ + pattern + "' is not a valid regular expression"@,
            span,
        ),
    )
}

/// `pattern="..."`, compiled here rather than when the service is built.
fn extract_pattern(a: &Args, kind: &str) -> (r: Result<RegexShim, Bad>)
    ensures
        args::told(r, pattern_fault(a.entries@, kind@, a.span)),
        r matches Ok(p) ==> args::str_arg(a.entries@, "pattern"@) == Some(p.source()),
{
    let pattern = match take_required_str(a, "pattern", "'", kind, "' needs a 'pattern'") {
        Ok(s) => s,
        Err(b) => {
            return Err(b);
        },
    };
    match RegexShim::new(pattern) {
        Some(p) => Ok(p),
        None => Err(
            Bad::quoting("'", pattern, "' is not a valid regular expression", a.span),
        ),
    }
}

/// What is wrong with a header name given as `key`, if anything.
pub open spec fn header_name_fault(key: Seq<char>, span: Span) -> Option<Fault> {
    args::when(
        !wire::is_header_name(key),
        "'"@ + key + "' is not a valid HTTP header name"@,
        span,
    )
}

/// What is wrong with a header given as `key` and `value`, if anything.
pub open spec fn header_pair_fault(e: Seq<Entry>, kind: Seq<char>, span: Span) -> Option<Fault> {
    let value = args::str_arg(e, "value"@)->0;
    args::or(
        required_str_fault(e, "key"@, "'"@ + kind + "' needs a 'key'"@, span),
        args::or(
            required_str_fault(e, "value"@, "'"@ + kind + "' needs a 'value'"@, span),
            args::or(
                header_name_fault(args::str_arg(e, "key"@)->0, span),
                args::when(
                    !wire::is_header_value(value),
                    "'"@ + value + "' is not a valid HTTP header value"@,
                    span,
                ),
            ),
        ),
    )
}

/// `key="..." value="..."`, validated as an HTTP header here.
fn extract_header_pair(a: &Args, kind: &str) -> (r: Result<(String, Vec<u8>), Bad>)
    ensures
        args::told(r, header_pair_fault(a.entries@, kind@, a.span)),
        r matches Ok((k, v)) ==> k@ == text::lower_text(args::str_arg(a.entries@, "key"@)->0) && v@
            == text::utf8(args::str_arg(a.entries@, "value"@)->0),
{
    let key = match take_required_str(a, "key", "'", kind, "' needs a 'key'") {
        Ok(s) => s,
        Err(b) => {
            return Err(b);
        },
    };
    let value = match take_required_str(a, "value", "'", kind, "' needs a 'value'") {
        Ok(s) => s,
        Err(b) => {
            return Err(b);
        },
    };
    let name = match wire::header_name(key) {
        Some(n) => n,
        None => {
            return Err(Bad::quoting("'", key, "' is not a valid HTTP header name", a.span));
        },
    };
    match wire::header_value(value) {
        Some(v) => Ok((name, v)),
        None => Err(Bad::quoting("'", value, "' is not a valid HTTP header value", a.span)),
    }
}

/// What is wrong with a line that changes headers, if anything. `what` says
/// which stage the line stands in.
pub open spec fn modifier_fault(node: Node, what: Seq<char>) -> Option<Fault> {
    let e = node.entries@;
    let kind = kind_of(node);
    let span = node.span;
    let pattern_known = args::words(seq!["kind", "pattern"]);
    let pair_known = args::words(seq!["kind", "key", "value"]);
    if kind == "remove-header-key-regex"@ {
        args::or(pattern_fault(e, kind, span), args::unread_fault(e, pattern_known, span))
    } else if kind == "remove-header-key-glob"@ {
        args::or(
            required_str_fault(e, "pattern"@, "'"@ + kind + "' needs a 'pattern'"@, span),
            args::unread_fault(e, pattern_known, span),
        )
    } else if kind == "remove-header"@ {
        args::or(
            required_str_fault(e, "key"@, "'"@ + kind + "' needs a 'key'"@, span),
            args::or(
                header_name_fault(args::str_arg(e, "key"@)->0, span),
                args::unread_fault(e, args::words(seq!["kind", "key"]), span),
            ),
        )
    } else if kind == "upsert-header"@ || kind == "append-header"@ {
        args::or(header_pair_fault(e, kind, span), args::unread_fault(e, pair_known, span))
    } else {
        Some(
            (
                "'"@ + kind + "' is not "@ + what
                    + " filter. The kinds here are 'remove-header-key-regex', 'remove-header-key-glob', 'remove-header', 'upsert-header', and 'append-header'."@,
                span,
            ),
        )
    }
}

/// The check on each line that changes headers.
pub open spec fn modifier_check(what: Seq<char>) -> spec_fn(Node) -> Option<Fault> {
    |n: Node| modifier_fault(n, what)
}

/// Is `m` the change that a line asks for?
pub open spec fn modifier_is(node: Node, m: HeaderModifier) -> bool {
    let e = node.entries@;
    let kind = kind_of(node);
    if kind == "remove-header-key-regex"@ {
        match m {
            HeaderModifier::RemoveHeaderKeyRegex { pattern } => args::str_arg(e, "pattern"@)
                == Some(pattern.source()),
            _ => false,
        }
    } else if kind == "remove-header-key-glob"@ {
        match m {
            HeaderModifier::RemoveHeaderKeyGlob { pattern } => args::str_arg(e, "pattern"@)
                == Some(pattern.source()) && pattern.wf(),
            _ => false,
        }
    } else if kind == "remove-header"@ {
        match m {
            HeaderModifier::RemoveHeader { key } => key@ == text::lower_text(
                args::str_arg(e, "key"@)->0,
            ),
            _ => false,
        }
    } else if kind == "upsert-header"@ {
        match m {
            HeaderModifier::UpsertHeader { key, value } => key@ == text::lower_text(
                args::str_arg(e, "key"@)->0,
            ) && value@ == text::utf8(args::str_arg(e, "value"@)->0),
            _ => false,
        }
    } else {
        match m {
            HeaderModifier::AppendHeader { key, value } => key@ == text::lower_text(
                args::str_arg(e, "key"@)->0,
            ) && value@ == text::utf8(args::str_arg(e, "value"@)->0),
            _ => false,
        }
    }
}

fn extract_modifier(node: &Node, what: &str) -> (r: Result<HeaderModifier, Bad>)
    requires
        filter_form_fault(*node) is None,
    ensures
        args::told(r, modifier_fault(*node, what@)),
        r matches Ok(m) ==> modifier_is(*node, m),
{
    let a = Args { entries: node.entries.as_slice(), span: node.span };
    let kind = read_kind(&a);
    let pattern_known = ["kind", "pattern"];
    assert(pattern_known@ == seq!["kind", "pattern"]);
    if text::same_text(kind, "remove-header-key-regex") {
        let pattern = match extract_pattern(&a, kind) {
            Ok(p) => p,
            Err(b) => {
                return Err(b);
            },
        };
        return match a.finish(&pattern_known) {
            Ok(()) => Ok(HeaderModifier::RemoveHeaderKeyRegex { pattern }),
            Err(b) => Err(b),
        };
    }
    if text::same_text(kind, "remove-header-key-glob") {
        let pattern = match take_required_str(&a, "pattern", "'", kind, "' needs a 'pattern'") {
            Ok(p) => p,
            Err(b) => {
                return Err(b);
            },
        };
        return match a.finish(&pattern_known) {
            Ok(()) => Ok(HeaderModifier::RemoveHeaderKeyGlob { pattern: Glob::new(pattern) }),
            Err(b) => Err(b),
        };
    }
    if text::same_text(kind, "remove-header") {
        let key = match take_required_str(&a, "key", "'", kind, "' needs a 'key'") {
            Ok(k) => k,
            Err(b) => {
                return Err(b);
            },
        };
        let name = match wire::header_name(key) {
            Some(n) => n,
            None => {
                return Err(Bad::quoting("'", key, "' is not a valid HTTP header name", a.span));
            },
        };
        let known = ["kind", "key"];
        assert(known@ == seq!["kind", "key"]);
        return match a.finish(&known) {
            Ok(()) => Ok(HeaderModifier::RemoveHeader { key: name }),
            Err(b) => Err(b),
        };
    }
    let upsert = text::same_text(kind, "upsert-header");
    if upsert || text::same_text(kind, "append-header") {
        let (key, value) = match extract_header_pair(&a, kind) {
            Ok(p) => p,
            Err(b) => {
                return Err(b);
            },
        };
        let known = ["kind", "key", "value"];
        assert(known@ == seq!["kind", "key", "value"]);
        return match a.finish(&known) {
            Ok(()) => if upsert {
                Ok(HeaderModifier::UpsertHeader { key, value })
            } else {
                Ok(HeaderModifier::AppendHeader { key, value })
            },
            Err(b) => Err(b),
        };
    }
    let mut message = text::concat3("'", kind, "' is not ");
    message.append(what);
    message.append(
        " filter. The kinds here are 'remove-header-key-regex', 'remove-header-key-glob', 'remove-header', 'upsert-header', and 'append-header'.",
    );
    Err(Bad::docspan(message, node.span))
}

/// What is wrong with a stage that changes headers, if anything.
pub open spec fn modifiers_fault(nodes: Seq<Node>, what: Seq<char>) -> Option<Fault> {
    args::or(
        args::first_fault(nodes, filter_form_check()),
        args::first_fault(nodes, modifier_check(what)),
    )
}

/// Are these the changes that a stage asks for?
pub open spec fn modifiers_are(nodes: Seq<Node>, m: Seq<HeaderModifier>) -> bool {
    &&& m.len() == nodes.len()
    &&& forall|i: int| 0 <= i < m.len() ==> modifier_is(nodes[i], #[trigger] m[i])
}

fn extract_modifiers(stage: &Document, what: &str) -> (r: Result<Vec<HeaderModifier>, Bad>)
    ensures
        args::told(r, modifiers_fault(stage.nodes@, what@)),
        r matches Ok(m) ==> modifiers_are(stage.nodes@, m@),
{
    let nodes = stage.nodes.as_slice();
    match filter_kinds(nodes) {
        Ok(()) => {},
        Err(b) => {
            return Err(b);
        },
    }
    proof {
        args::lemma_faultless(nodes@, filter_form_check());
    }
    let mut out: Vec<HeaderModifier> = Vec::new();
    let mut i: usize = 0;
    while i < nodes.len()
        invariant
            i <= nodes@.len(),
            nodes@ == stage.nodes@,
            args::first_fault(nodes@, filter_form_check()) is None,
            forall|n: Node| #[trigger] nodes@.contains(n) ==> filter_form_check()(n) is None,
            args::first_fault(nodes@.take(i as int), modifier_check(what@)) is None,
            out@.len() == i,
            forall|k: int| 0 <= k < i ==> modifier_is(nodes@[k], #[trigger] out@[k]),
        decreases nodes@.len() - i,
    {
        let ghost next = nodes@.take(i + 1);
        assert(next.drop_last() == nodes@.take(i as int));
        assert(next.last() == nodes@[i as int]);
        proof {
            assert(nodes@.contains(nodes@[i as int]));
            assert(filter_form_check()(nodes@[i as int]) is None);
        }
        match extract_modifier(&nodes[i], what) {
            Ok(m) => {
                out.push(m);
            },
            Err(b) => {
                proof {
                    args::lemma_fault_stays(nodes@, i + 1, modifier_check(what@));
                }
                return Err(b);
            },
        }
        i = i + 1;
    }
    assert(nodes@.take(nodes@.len() as int) == nodes@);
    Ok(out)
}

/// The `upstream-request` stage.
pub fn extract_request_modifiers(stage: &Document) -> (r: Result<Vec<RequestModifierConfig>, Bad>)
    ensures
        args::told(r, modifiers_fault(stage.nodes@, "an upstream request"@)),
        r matches Ok(m) ==> modifiers_are(stage.nodes@, m@),
{
    extract_modifiers(stage, "an upstream request")
}

/// The `upstream-response` and `response-filters` stages.
pub fn extract_response_modifiers(stage: &Document) -> (r: Result<
    Vec<ResponseModifierConfig>,
    Bad,
>)
    ensures
        args::told(r, modifiers_fault(stage.nodes@, "an upstream response"@)),
        r matches Ok(m) ==> modifiers_are(stage.nodes@, m@),
{
    extract_modifiers(stage, "an upstream response")
}

/// What is wrong with one line of a body stage, if anything. `taken` says
/// whether there is a limit already.
pub open spec fn body_line_fault(node: Node, taken: bool, default_status: u16) -> Option<Fault> {
    let e = node.entries@;
    let span = node.span;
    if kind_of(node) != "max-size"@ {
        Some(
            (
                "'"@ + kind_of(node)
                    + "' is not a body filter. The only kind here is 'max-size'."@,
                span,
            ),
        )
    } else {
        args::or(
            args::when(
                taken,
                "only one 'max-size' filter is allowed per body stage - two limits would just mean the smaller one"@,
                span,
            ),
            args::or(
                args::usize_fault(e, "max-bytes"@, span),
                args::or(
                    args::when(
                        args::num_arg(e, "max-bytes"@) is None,
                        "'max-size' needs 'max-bytes'"@,
                        span,
                    ),
                    args::or(
                        args::when(
                            args::num_arg(e, "max-bytes"@) == Some(0nat),
                            "'max-bytes' must be at least 1. To refuse bodies entirely, block the methods that carry them instead."@,
                            span,
                        ),
                        args::or(
                            balancing::status_fault(e, "status"@, default_status, span),
                            args::unread_fault(
                                e,
                                args::words(seq!["kind", "max-bytes", "status"]),
                                span,
                            ),
                        ),
                    ),
                ),
            ),
        )
    }
}

/// What is wrong with the lines of a body stage, if anything.
pub open spec fn body_lines_fault(nodes: Seq<Node>, default_status: u16) -> Option<Fault>
    decreases nodes.len(),
{
    if nodes.len() == 0 {
        None
    } else {
        args::or(
            body_lines_fault(nodes.drop_last(), default_status),
            body_line_fault(nodes.last(), nodes.len() > 1, default_status),
        )
    }
}

/// What is wrong with a body stage, if anything.
pub open spec fn body_fault(nodes: Seq<Node>, default_status: u16) -> Option<Fault> {
    args::or(
        args::first_fault(nodes, filter_form_check()),
        body_lines_fault(nodes, default_status),
    )
}

/// The limit that a body stage sets.
pub open spec fn body_limit_of(nodes: Seq<Node>, default_status: u16) -> Option<BodySizeLimit> {
    if nodes.len() == 0 {
        None
    } else {
        let e = nodes[0].entries@;
        Some(
            BodySizeLimit {
                max_bytes: args::num_arg(e, "max-bytes"@)->0 as usize,
                status: connectors::given(
                    args::num_arg(e, "status"@),
                    default_status as nat,
                ) as u16,
            },
        )
    }
}

proof fn lemma_body_fault_stays(nodes: Seq<Node>, n: int, default_status: u16)
    requires
        0 <= n <= nodes.len(),
        body_lines_fault(nodes.take(n), default_status) is Some,
    ensures
        body_lines_fault(nodes, default_status) == body_lines_fault(nodes.take(n), default_status),
    decreases nodes.len() - n,
{
    if n < nodes.len() {
        assert(nodes.take(n + 1).drop_last() == nodes.take(n));
        lemma_body_fault_stays(nodes, n + 1, default_status);
    } else {
        assert(nodes.take(n) == nodes);
    }
}

fn extract_body_line(node: &Node, taken: bool, default_status: u16) -> (r: Result<
    BodySizeLimit,
    Bad,
>)
    requires
        filter_form_fault(*node) is None,
    ensures
        args::told(r, body_line_fault(*node, taken, default_status)),
        r matches Ok(l) ==> Some(l) == body_limit_of(seq![*node], default_status) && !taken,
{
    let a = Args { entries: node.entries.as_slice(), span: node.span };
    let kind = read_kind(&a);
    if !text::same_text(kind, "max-size") {
        return Err(
            Bad::quoting(
                "'",
                kind,
                "' is not a body filter. The only kind here is 'max-size'.",
                node.span,
            ),
        );
    }
    if taken {
        return Err(
            Bad::plain(
                "only one 'max-size' filter is allowed per body stage - two limits would just mean the smaller one",
                node.span,
            ),
        );
    }
    let max_bytes = match a.take_usize("max-bytes") {
        Ok(Some(n)) => n,
        Ok(None) => {
            return Err(Bad::plain("'max-size' needs 'max-bytes'", node.span));
        },
        Err(b) => {
            return Err(b);
        },
    };
    // A limit of zero far more often means that the value was left unfilled
    // than that every body is to be refused.
    if max_bytes == 0 {
        return Err(
            Bad::plain(
                "'max-bytes' must be at least 1. To refuse bodies entirely, block the methods that carry them instead.",
                node.span,
            ),
        );
    }
    let status = match take_status(&a, "status", default_status) {
        Ok(s) => s,
        Err(b) => {
            return Err(b);
        },
    };
    let known = ["kind", "max-bytes", "status"];
    assert(known@ == seq!["kind", "max-bytes", "status"]);
    match a.finish(&known) {
        Ok(()) => Ok(BodySizeLimit { max_bytes, status }),
        Err(b) => Err(b),
    }
}

/// A body stage, which holds at most one `max-size` filter.
///
/// `default_status` differs between the request and response sides, because
/// "your request was too large" and "the server sent too much" are different
/// answers.
pub fn extract_body_limit(stage: &Document, default_status: u16) -> (r: Result<
    Option<BodySizeLimit>,
    Bad,
>)
    ensures
        args::told(r, body_fault(stage.nodes@, default_status)),
        r matches Ok(l) ==> l == body_limit_of(stage.nodes@, default_status),
{
    let nodes = stage.nodes.as_slice();
    match filter_kinds(nodes) {
        Ok(()) => {},
        Err(b) => {
            return Err(b);
        },
    }
    proof {
        args::lemma_faultless(nodes@, filter_form_check());
    }
    let mut limit: Option<BodySizeLimit> = None;
    let mut i: usize = 0;
    while i < nodes.len()
        invariant
            i <= nodes@.len(),
            nodes@ == stage.nodes@,
            args::first_fault(nodes@, filter_form_check()) is None,
            forall|n: Node| #[trigger] nodes@.contains(n) ==> filter_form_check()(n) is None,
            body_lines_fault(nodes@.take(i as int), default_status) is None,
            limit == body_limit_of(nodes@.take(i as int), default_status),
        decreases nodes@.len() - i,
    {
        let ghost next = nodes@.take(i + 1);
        assert(next.drop_last() == nodes@.take(i as int));
        assert(next.last() == nodes@[i as int]);
        proof {
            assert(nodes@.contains(nodes@[i as int]));
            assert(filter_form_check()(nodes@[i as int]) is None);
        }
        match extract_body_line(&nodes[i], limit.is_some(), default_status) {
            Ok(l) => {
                limit = Some(l);
                assert(i == 0);
            },
            Err(b) => {
                proof {
                    lemma_body_fault_stays(nodes@, i + 1, default_status);
                }
                return Err(b);
            },
        }
        i = i + 1;
    }
    assert(nodes@.take(nodes@.len() as int) == nodes@);
    Ok(limit)
}

/// What is wrong with the inside of one stage, if anything.
pub open spec fn stage_inside_fault(node: Node) -> Option<Fault> {
    let nodes = node.children->0.nodes@;
    args::or(
        args::on(node, "request-filters"@, request_filters_fault(nodes)),
        args::or(
            args::on(
                node,
                "upstream-request"@,
                modifiers_fault(nodes, "an upstream request"@),
            ),
            args::or(
                args::on(
                    node,
                    "upstream-response"@,
                    modifiers_fault(nodes, "an upstream response"@),
                ),
                args::or(
                    args::on(
                        node,
                        "response-filters"@,
                        modifiers_fault(nodes, "an upstream response"@),
                    ),
                    args::or(
                        // 413: a request body that is more than the server is
                        // willing to take.
                        args::on(node, "request-body"@, body_fault(nodes, 413)),
                        args::or(
                            // 502: an oversize response is the upstream server
                            // misbehaving, not the client.
                            args::on(node, "response-body"@, body_fault(nodes, 502)),
                            args::when(
                                !stage_names().contains(node.name@),
                                "'"@ + node.name@
                                    + "' is not a path control stage. The stages are 'request-filters', 'request-body', 'upstream-request', 'upstream-response', 'response-filters', and 'response-body'."@,
                                node.span,
                            ),
                        ),
                    ),
                ),
            ),
        ),
    )
}

/// The names of the stages.
pub open spec fn stage_names() -> Seq<Seq<char>> {
    args::words(
        seq![
            "request-filters",
            "request-body",
            "upstream-request",
            "upstream-response",
            "response-filters",
            "response-body",
        ],
    )
}

/// What is wrong with one stage, if anything. `seen` says whether there was a
/// stage of this name before.
pub open spec fn stage_fault(node: Node, seen: bool) -> Option<Fault> {
    args::or(
        args::when(seen, "Duplicate path control stage: '"@ + node.name@ + "'"@, node.span),
        args::or(
            args::when(
                node.children is None,
                "'"@ + node.name@ + "' should be a nested block"@,
                node.span,
            ),
            stage_inside_fault(node),
        ),
    )
}

/// What is wrong with a `path-control` block, if anything.
pub open spec fn path_control_fault(nodes: Seq<Node>) -> Option<Fault>
    decreases nodes.len(),
{
    if nodes.len() == 0 {
        None
    } else {
        let front = nodes.drop_last();
        args::or(
            path_control_fault(front),
            stage_fault(
                nodes.last(),
                document::last_named(front, nodes.last().name@) is Some,
            ),
        )
    }
}

/// The lines of the stage called `name`.
pub open spec fn stage_lines(nodes: Seq<Node>, name: Seq<char>) -> Seq<Node> {
    match document::last_named(nodes, name) {
        Some(n) => n.children->0.nodes@,
        None => Seq::empty(),
    }
}

/// Is this what a `path-control` block asks for?
pub open spec fn path_control_is(nodes: Seq<Node>, pc: PathControl) -> bool {
    &&& request_filters_are(stage_lines(nodes, "request-filters"@), pc.request_filters@)
    &&& modifiers_are(stage_lines(nodes, "upstream-request"@), pc.upstream_request_filters@)
    &&& modifiers_are(stage_lines(nodes, "upstream-response"@), pc.upstream_response_filters@)
    &&& modifiers_are(stage_lines(nodes, "response-filters"@), pc.response_filters@)
    &&& pc.request_body_limit == body_limit_of(stage_lines(nodes, "request-body"@), 413)
    &&& pc.response_body_limit == body_limit_of(stage_lines(nodes, "response-body"@), 502)
}

proof fn lemma_path_control_fault_stays(nodes: Seq<Node>, n: int)
    requires
        0 <= n <= nodes.len(),
        path_control_fault(nodes.take(n)) is Some,
    ensures
        path_control_fault(nodes) == path_control_fault(nodes.take(n)),
    decreases nodes.len() - n,
{
    if n < nodes.len() {
        assert(nodes.take(n + 1).drop_last() == nodes.take(n));
        lemma_path_control_fault_stays(nodes, n + 1);
    } else {
        assert(nodes.take(n) == nodes);
    }
}

proof fn lemma_stage_is_fine(nodes: Seq<Node>, name: Seq<char>)
    requires
        path_control_fault(nodes) is None,
    ensures
        document::last_named(nodes, name) matches Some(n) ==> n.name@ == name && n.children is Some
            && stage_inside_fault(n) is None,
    decreases nodes.len(),
{
    if nodes.len() > 0 {
        lemma_stage_is_fine(nodes.drop_last(), name);
    }
}

fn check_stage(node: &Node, seen: bool) -> (r: Result<(), Bad>)
    ensures
        args::told(r, stage_fault(*node, seen)),
{
    let name = node.name.as_str();
    if seen {
        return Err(Bad::quoting("Duplicate path control stage: '", name, "'", node.span));
    }
    let stage = match &node.children {
        Some(d) => d,
        None => {
            return Err(Bad::quoting("'", name, "' should be a nested block", node.span));
        },
    };
    if text::same_text(name, "request-filters") {
        match extract_request_filters(stage) {
            Ok(_) => {},
            Err(b) => {
                return Err(b);
            },
        }
    }
    if text::same_text(name, "upstream-request") {
        match extract_request_modifiers(stage) {
            Ok(_) => {},
            Err(b) => {
                return Err(b);
            },
        }
    }
    if text::same_text(name, "upstream-response") {
        match extract_response_modifiers(stage) {
            Ok(_) => {},
            Err(b) => {
                return Err(b);
            },
        }
    }
    if text::same_text(name, "response-filters") {
        match extract_response_modifiers(stage) {
            Ok(_) => {},
            Err(b) => {
                return Err(b);
            },
        }
    }
    if text::same_text(name, "request-body") {
        match extract_body_limit(stage, 413) {
            Ok(_) => {},
            Err(b) => {
                return Err(b);
            },
        }
    }
    if text::same_text(name, "response-body") {
        match extract_body_limit(stage, 502) {
            Ok(_) => {},
            Err(b) => {
                return Err(b);
            },
        }
    }
    let known = [
        "request-filters",
        "request-body",
        "upstream-request",
        "upstream-response",
        "response-filters",
        "response-body",
    ];
    assert(args::words(known@) == stage_names());
    if !args::is_among(name, &known) {
        return Err(
            Bad::quoting(
                "'",
                name,
                "' is not a path control stage. The stages are 'request-filters', 'request-body', 'upstream-request', 'upstream-response', 'response-filters', and 'response-body'.",
                node.span,
            ),
        );
    }
    Ok(())
}

/// The whole `path-control` block.
pub fn extract_path_control(stages: &Document) -> (r: Result<PathControl, Bad>)
    ensures
        args::told(r, path_control_fault(stages.nodes@)),
        r matches Ok(pc) ==> path_control_is(stages.nodes@, pc),
{
    let nodes = stages.nodes.as_slice();
    let mut i: usize = 0;
    while i < nodes.len()
        invariant
            i <= nodes@.len(),
            nodes@ == stages.nodes@,
            path_control_fault(nodes@.take(i as int)) is None,
        decreases nodes@.len() - i,
    {
        let ghost next = nodes@.take(i + 1);
        assert(next.drop_last() == nodes@.take(i as int));
        assert(next.last() == nodes@[i as int]);
        let earlier = vstd::slice::slice_subrange(nodes, 0, i);
        assert(earlier@ == nodes@.take(i as int));
        let seen = last_node(earlier, nodes[i].name.as_str()).is_some();
        match check_stage(&nodes[i], seen) {
            Ok(()) => {},
            Err(b) => {
                proof {
                    lemma_path_control_fault_stays(nodes@, i + 1);
                }
                return Err(b);
            },
        }
        i = i + 1;
    }
    assert(nodes@.take(nodes@.len() as int) == nodes@);
    proof {
        lemma_stage_is_fine(nodes@, "request-filters"@);
        lemma_stage_is_fine(nodes@, "upstream-request"@);
        lemma_stage_is_fine(nodes@, "upstream-response"@);
        lemma_stage_is_fine(nodes@, "response-filters"@);
        lemma_stage_is_fine(nodes@, "request-body"@);
        lemma_stage_is_fine(nodes@, "response-body"@);
    }
    Ok(
        PathControl {
            request_filters: match stage_block(nodes, "request-filters") {
                Some(d) => match extract_request_filters(d) {
                    Ok(v) => v,
                    Err(_) => Vec::new(),
                },
                None => Vec::new(),
            },
            upstream_request_filters: match stage_block(nodes, "upstream-request") {
                Some(d) => match extract_request_modifiers(d) {
                    Ok(v) => v,
                    Err(_) => Vec::new(),
                },
                None => Vec::new(),
            },
            upstream_response_filters: match stage_block(nodes, "upstream-response") {
                Some(d) => match extract_response_modifiers(d) {
                    Ok(v) => v,
                    Err(_) => Vec::new(),
                },
                None => Vec::new(),
            },
            response_filters: match stage_block(nodes, "response-filters") {
                Some(d) => match extract_response_modifiers(d) {
                    Ok(v) => v,
                    Err(_) => Vec::new(),
                },
                None => Vec::new(),
            },
            request_body_limit: match stage_block(nodes, "request-body") {
                Some(d) => match extract_body_limit(d, 413) {
                    Ok(v) => v,
                    Err(_) => None,
                },
                None => None,
            },
            response_body_limit: match stage_block(nodes, "response-body") {
                Some(d) => match extract_body_limit(d, 502) {
                    Ok(v) => v,
                    Err(_) => None,
                },
                None => None,
            },
        },
    )
}

fn stage_block<'a>(nodes: &'a [Node], name: &str) -> (r: Option<&'a Document>)
    ensures
        match document::last_named(nodes@, name@) {
            Some(n) => match r {
                Some(d) => n.children == Some(*d),
                None => n.children is None,
            },
            None => r is None,
        },
{
    match last_node(nodes, name) {
        Some(n) => n.children.as_ref(),
        None => None,
    }
}

/// Every range of a list is read, wherever in the list it stands: two lists with a comma
/// between them name the ranges of the one and then those of the other, and a list without
/// a comma is one range.
pub proof fn every_range_of_a_list_is_read(
    a: Seq<char>,
    b: Seq<char>,
    x: Seq<IpCidr>,
    y: Seq<IpCidr>,
    block: IpCidr,
)
    requires
        x.len() == text::split(a, ',').len(),
    ensures
        cidr_list_is(a + seq![','] + b, x + y) <==> cidr_list_is(a, x) && cidr_list_is(b, y),
        !a.contains(',') ==> (cidr_list_is(a, seq![block]) <==> block.well_formed()
            && net::parsed_cidr(text::trimmed(a)) == Ok::<IpCidr, Seq<char>>(block)),
{
    let whole = a + seq![','] + b;
    let one = text::split(a, ',');
    let other = text::split(b, ',');
    let both = x + y;
    text::a_split_goes_on_behind_a_separator(a, b, ',');
    assert(text::split(whole, ',') == one + other);
    if cidr_list_is(whole, both) {
        assert forall|i: int| 0 <= i < x.len() implies net::parsed_cidr(text::trimmed(one[i]))
            == Ok::<IpCidr, Seq<char>>(#[trigger] x[i]) && x[i].well_formed() by {
            assert(both[i] == x[i]);
        }
        assert forall|i: int| 0 <= i < y.len() implies net::parsed_cidr(text::trimmed(other[i]))
            == Ok::<IpCidr, Seq<char>>(#[trigger] y[i]) && y[i].well_formed() by {
            assert(both[x.len() + i] == y[i]);
        }
    }
    if cidr_list_is(a, x) && cidr_list_is(b, y) {
        assert forall|i: int| 0 <= i < both.len() implies net::parsed_cidr(
            text::trimmed((one + other)[i]),
        ) == Ok::<IpCidr, Seq<char>>(#[trigger] both[i]) && both[i].well_formed() by {
            if i < x.len() {
                assert(both[i] == x[i]);
            } else {
                assert(both[i] == y[i - x.len()]);
            }
        }
    }
    if !a.contains(',') {
        assert(one == seq![a]);
        assert(seq![block][0] == block);
    }
}

/// A list of ranges is in order if and only if each of them is: there is no empty entry,
/// and every entry is an address or a range.
pub proof fn every_range_of_a_list_is_checked(list: Seq<char>, span: Span)
    ensures
        cidr_list_fault(list, span) is None <==> forall|i: int|
            #![trigger text::split(list, ',')[i]]
            0 <= i < text::split(list, ',').len() ==> text::trimmed(
                text::split(list, ',')[i],
            ).len() > 0 && net::parsed_cidr(text::trimmed(text::split(list, ',')[i])) is Ok,
{
    lemma_ranges_checked(list, text::split(list, ','), span);
}

proof fn lemma_ranges_checked(list: Seq<char>, pieces: Seq<Seq<char>>, span: Span)
    ensures
        ranges_fault(list, pieces, span) is None <==> forall|i: int|
            0 <= i < pieces.len() ==> range_fault(list, #[trigger] pieces[i], span) is None,
    decreases pieces.len(),
{
    if pieces.len() > 0 {
        let front = pieces.drop_last();
        let last = pieces.len() - 1;
        lemma_ranges_checked(list, front, span);
        assert(forall|i: int| 0 <= i < front.len() ==> #[trigger] front[i] == pieces[i]);
        assert(pieces[last] == pieces.last());
        if ranges_fault(list, pieces, span) is None {
            assert forall|i: int| 0 <= i < pieces.len() implies range_fault(
                list,
                #[trigger] pieces[i],
                span,
            ) is None by {
                if i < last {
                    assert(range_fault(list, front[i], span) is None);
                }
            }
        }
    }
}

/// Each line of the `request-filters` stage is one filter, in the order they stand in: one
/// that refuses what is in its ranges, or what is not, as the line says, with a 403 unless
/// the line gives another status.
pub proof fn every_line_is_a_request_filter(
    nodes: Seq<Node>,
    f: Seq<RequestFilterConfig>,
    i: int,
)
    requires
        request_filters_are(nodes, f),
        request_filters_fault(nodes) is None,
        0 <= i < nodes.len(),
    ensures
        f.len() == nodes.len(),
        ({
            let e = nodes[i].entries@;
            let ranges = args::str_arg(e, "addrs"@);
            let status = args::num_arg(e, "status"@);
            &&& ranges is Some
            &&& match f[i] {
                RequestFilterConfig::BlockCidr { blocks, rejection } => args::str_arg(e, "kind"@)
                    == Some("block-cidr-range"@) && cidr_list_is(ranges->0, blocks@) && (
                status is None ==> rejection.status == 403) && (status matches Some(n)
                    ==> rejection.status == n) && wire::opt_text(rejection.body) == args::str_arg(
                    e,
                    "body"@,
                ),
                RequestFilterConfig::AllowCidr { blocks, rejection } => args::str_arg(e, "kind"@)
                    == Some("allow-cidr-range"@) && cidr_list_is(ranges->0, blocks@) && (
                status is None ==> rejection.status == 403) && (status matches Some(n)
                    ==> rejection.status == n) && wire::opt_text(rejection.body) == args::str_arg(
                    e,
                    "body"@,
                ),
            }
        }),
{
    args::lemma_faultless(nodes, filter_form_check());
    args::lemma_faultless(nodes, request_filter_check());
    assert(nodes.contains(nodes[i]));
    assert(filter_form_check()(nodes[i]) is None);
    assert(request_filter_check()(nodes[i]) is None);
    assert(request_filter_is(nodes[i], f[i]));
}

/// Each line of a stage that changes headers is one change, in the order they stand in, of
/// the kind and with the header that the line names.
pub proof fn every_line_is_a_header_change(
    nodes: Seq<Node>,
    what: Seq<char>,
    m: Seq<HeaderModifier>,
    i: int,
)
    requires
        modifiers_are(nodes, m),
        modifiers_fault(nodes, what) is None,
        0 <= i < nodes.len(),
    ensures
        m.len() == nodes.len(),
        ({
            let e = nodes[i].entries@;
            let kind = args::str_arg(e, "kind"@);
            let name = args::str_arg(e, "key"@);
            let value = args::str_arg(e, "value"@);
            let given = args::str_arg(e, "pattern"@);
            match m[i] {
                HeaderModifier::RemoveHeaderKeyRegex { pattern } => kind == Some(
                    "remove-header-key-regex"@,
                ) && given == Some(pattern.source()),
                HeaderModifier::RemoveHeaderKeyGlob { pattern } => kind == Some(
                    "remove-header-key-glob"@,
                ) && given == Some(pattern.source()),
                HeaderModifier::RemoveHeader { key } => kind == Some("remove-header"@)
                    && name is Some && key@ == text::lower_text(name->0),
                HeaderModifier::UpsertHeader { key, value: v } => kind == Some("upsert-header"@)
                    && name is Some && key@ == text::lower_text(name->0) && value is Some && v@
                    == text::utf8(value->0),
                HeaderModifier::AppendHeader { key, value: v } => kind == Some("append-header"@)
                    && name is Some && key@ == text::lower_text(name->0) && value is Some && v@
                    == text::utf8(value->0),
            }
        }),
{
    args::lemma_faultless(nodes, filter_form_check());
    args::lemma_faultless(nodes, modifier_check(what));
    assert(nodes.contains(nodes[i]));
    assert(filter_form_check()(nodes[i]) is None);
    assert(modifier_check(what)(nodes[i]) is None);
    assert(modifier_is(nodes[i], m[i]));
}

/// A body stage without a fault has at most one line, which sets the limit: as many bytes
/// as it says, and its status or else the usual one.
pub proof fn a_body_stage_sets_one_limit(nodes: Seq<Node>, default_status: u16)
    requires
        body_fault(nodes, default_status) is None,
    ensures
        nodes.len() <= 1,
        nodes.len() == 0 ==> body_limit_of(nodes, default_status) is None,
        nodes.len() == 1 ==> {
            let e = nodes[0].entries@;
            &&& body_limit_of(nodes, default_status) matches Some(limit) && {
                &&& limit.max_bytes >= 1
                &&& args::num_arg(e, "max-bytes"@) == Some(limit.max_bytes as nat)
                &&& args::num_arg(e, "status"@) is None ==> limit.status == default_status
                &&& args::num_arg(e, "status"@) is Some ==> args::num_arg(e, "status"@) == Some(
                    limit.status as nat,
                )
            }
        },
{
    if nodes.len() >= 1 {
        let front = nodes.drop_last();
        assert(body_line_fault(nodes.last(), nodes.len() > 1, default_status) is None);
    }
}

proof fn lemma_stage_found(nodes: Seq<Node>, k: int)
    requires
        path_control_fault(nodes) is None,
        0 <= k < nodes.len(),
    ensures
        document::last_named(nodes, nodes[k].name@) == Some(nodes[k]),
        nodes[k].children is Some,
        stage_inside_fault(nodes[k]) is None,
    decreases nodes.len(),
{
    let front = nodes.drop_last();
    if k < front.len() {
        lemma_stage_found(front, k);
        assert(front[k] == nodes[k]);
    }
}

/// Each stage of a `path-control` block is read, wherever among the others it stands: what
/// its lines say is what the service does at that stage.
pub proof fn every_stage_is_read(nodes: Seq<Node>, pc: PathControl, k: int)
    requires
        path_control_is(nodes, pc),
        path_control_fault(nodes) is None,
        0 <= k < nodes.len(),
    ensures
        nodes[k].children is Some,
        ({
            let name = nodes[k].name@;
            let lines = nodes[k].children->0.nodes@;
            &&& name == "request-filters"@ ==> request_filters_are(lines, pc.request_filters@)
            &&& name == "upstream-request"@ ==> modifiers_are(lines, pc.upstream_request_filters@)
            &&& name == "upstream-response"@ ==> modifiers_are(
                lines,
                pc.upstream_response_filters@,
            )
            &&& name == "response-filters"@ ==> modifiers_are(lines, pc.response_filters@)
            &&& name == "request-body"@ ==> pc.request_body_limit == body_limit_of(lines, 413)
            &&& name == "response-body"@ ==> pc.response_body_limit == body_limit_of(lines, 502)
        }),
{
    lemma_stage_found(nodes, k);
}

/// No two stages of a `path-control` block have one name.
pub proof fn every_stage_is_there_once(nodes: Seq<Node>, i: int, k: int)
    requires
        path_control_fault(nodes) is None,
        0 <= i < nodes.len(),
        0 <= k < nodes.len(),
        nodes[i].name@ == nodes[k].name@,
    ensures
        nodes[i] == nodes[k],
        i == k,
    decreases nodes.len(),
{
    lemma_stage_found(nodes, i);
    lemma_stage_found(nodes, k);
    let front = nodes.drop_last();
    if i < front.len() && k < front.len() {
        every_stage_is_there_once(front, i, k);
    } else if i < front.len() {
        lemma_stage_found(front, i);
        assert(front[i] == nodes[i]);
    } else if k < front.len() {
        lemma_stage_found(front, k);
        assert(front[k] == nodes[k]);
    }
}

} // verus!
