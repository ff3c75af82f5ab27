//! The `routes` block: which requests go to which set of servers.
use crate::config::internal;
use crate::config::internal::{Rejection, RouteConfig, RouteMatch};
use crate::config::kdl::args;
use crate::config::kdl::args::{first_and_named, required_child_doc, Args, Bad, Fault};
use crate::config::kdl::connectors;
use crate::config::kdl::connectors::extract_connectors;
use crate::config::kdl::document;
use crate::config::kdl::document::{Document, Node, Span};
use crate::config::kdl::path_control;
use crate::config::kdl::path_control::extract_rejection;
use crate::proxy::rate_limiting;
use crate::proxy::rate_limiting::RegexShim;
use crate::text;
use crate::wire;
use vstd::prelude::*;

verus! {

/// The path or pattern that a route is for.
pub open spec fn route_path(node: Node) -> Seq<char> {
    args::as_text(node.entries@[0].value)->0
}

/// How the path of a route is matched.
pub open spec fn route_kind(node: Node) -> Seq<char> {
    connectors::given(args::str_arg(node.entries@.skip(1), "match"@), "prefix"@)
}

/// The methods that a route claims; none means any.
pub open spec fn route_methods(node: Node) -> Seq<Seq<char>> {
    match args::str_arg(node.entries@.skip(1), "methods"@) {
        Some(list) => method_list(list),
        None => Seq::empty(),
    }
}

/// The methods that a comma separated list names.
pub open spec fn method_list(list: Seq<char>) -> Seq<Seq<char>> {
    text::split(list, ',').map_values(|p: Seq<char>| text::trimmed(p))
}

/// What is wrong with the methods of a list, if anything.
pub open spec fn methods_fault(methods: Seq<Seq<char>>, span: Span) -> Option<Fault>
    decreases methods.len(),
{
    if methods.len() == 0 {
        None
    } else {
        let m = methods.last();
        let front = methods.drop_last();
        args::or(
            methods_fault(front, span),
            args::or(
                args::when(!wire::is_token(m), "'"@ + m + "' is not an HTTP method"@, span),
                args::when(front.contains(m), "'"@ + m + "' is listed twice"@, span),
            ),
        )
    }
}

proof fn lemma_methods_fault_stays(methods: Seq<Seq<char>>, n: int, span: Span)
    requires
        0 <= n <= methods.len(),
        methods_fault(methods.take(n), span) is Some,
    ensures
        methods_fault(methods, span) == methods_fault(methods.take(n), span),
    decreases methods.len() - n,
{
    if n < methods.len() {
        assert(methods.take(n + 1).drop_last() == methods.take(n));
        lemma_methods_fault_stays(methods, n + 1, span);
    } else {
        assert(methods.take(n) == methods);
    }
}

/// Is the text one of these?
fn holds_text(list: &[String], t: &str) -> (r: bool)
    ensures
        r == text::texts(list@).contains(t@),
{
    let mut i: usize = 0;
    while i < list.len()
        invariant
            i <= list@.len(),
            forall|k: int| 0 <= k < i ==> text::texts(list@)[k] != t@,
        decreases list@.len() - i,
    {
        if text::same_text(list[i].as_str(), t) {
            assert(text::texts(list@)[i as int] == t@);
            return true;
        }
        i = i + 1;
    }
    false
}

/// Reads a comma separated list of methods.
pub fn parse_methods(list: &str, span: Span) -> (r: Result<Vec<String>, Bad>)
    ensures
        args::told(r, methods_fault(method_list(list@), span)),
        r matches Ok(m) ==> text::texts(m@) == method_list(list@),
{
    let pieces = text::split_text(list, ',');
    let ghost all = method_list(list@);
    let ghost raw = text::split(list@, ',');
    assert(raw == text::texts(pieces@));
    let mut out: Vec<String> = Vec::new();
    let mut i: usize = 0;
    assert(text::texts(out@) == all.take(0));
    while i < pieces.len()
        invariant
            i <= pieces@.len(),
            raw == text::texts(pieces@),
            raw == text::split(list@, ','),
            all == method_list(list@),
            all.len() == pieces@.len(),
            methods_fault(all.take(i as int), span) is None,
            text::texts(out@) == all.take(i as int),
        decreases pieces@.len() - i,
    {
        let ghost next = all.take(i + 1);
        assert(next.drop_last() == all.take(i as int));
        let entry = text::trim(pieces[i].as_str());
        assert(raw[i as int] == pieces@[i as int]@);
        assert(all[i as int] == entry@);
        assert(next.last() == entry@);
        let name = match wire::method(entry.as_str()) {
            Some(m) => m,
            None => {
                proof {
                    lemma_methods_fault_stays(all, i + 1, span);
                }
                return Err(Bad::quoting("'", entry.as_str(), "' is not an HTTP method", span));
            },
        };
        if holds_text(&out, name.as_str()) {
            proof {
                lemma_methods_fault_stays(all, i + 1, span);
            }
            return Err(Bad::quoting("'", name.as_str(), "' is listed twice", span));
        }
        let ghost before = out@;
        let ghost added = name@;
        out.push(name);
        assert(text::texts(out@) == text::texts(before).push(added));
        i = i + 1;
    }
    assert(all.take(all.len() as int) == all);
    Ok(out)
}

/// What is wrong with the path of a route, if anything.
pub open spec fn matcher_fault(kind: Seq<char>, path: Seq<char>, span: Span) -> Option<Fault> {
    if kind == "prefix"@ || kind == "exact"@ {
        args::when(
            !internal::is_absolute_path(path),
            "a route's path must start with '/', got '"@ + path + "'"@,
            span,
        )
    } else if kind == "regex"@ {
        args::when(
            !rate_limiting::regex_compiles(path),
            "'"@ + path + "' is not a valid regular expression"@,
            span,
        )
    } else {
        Some(
            (
                "'"@ + kind + "' is not a kind of match, use 'prefix', 'exact', or 'regex'"@,
                span,
            ),
        )
    }
}

/// Is `m` the matcher that a route asks for?
pub open spec fn matcher_is(kind: Seq<char>, path: Seq<char>, m: RouteMatch) -> bool {
    if kind == "prefix"@ {
        m is Prefix && m->Prefix_path@ == path
    } else if kind == "exact"@ {
        m is Exact && m->Exact_path@ == path
    } else {
        m is Regex && m->pattern.source() == path
    }
}

fn make_matcher(kind: &str, path: &str, span: Span) -> (r: Result<RouteMatch, Bad>)
    ensures
        args::told(r, matcher_fault(kind@, path@, span)),
        r matches Ok(m) ==> matcher_is(kind@, path@, m),
{
    let prefix = text::same_text(kind, "prefix");
    if prefix || text::same_text(kind, "exact") {
        if !internal::is_absolute(path) {
            return Err(
                Bad::quoting("a route's path must start with '/', got '", path, "'", span),
            );
        }
        return if prefix {
            Ok(RouteMatch::Prefix { path: path.to_owned() })
        } else {
            Ok(RouteMatch::Exact { path: path.to_owned() })
        };
    }
    if text::same_text(kind, "regex") {
        return match RegexShim::new(path) {
            Some(pattern) => Ok(RouteMatch::Regex { pattern }),
            None => Err(Bad::quoting("'", path, "' is not a valid regular expression", span)),
        };
    }
    Err(
        Bad::quoting(
            "'",
            kind,
            "' is not a kind of match, use 'prefix', 'exact', or 'regex'",
            span,
        ),
    )
}

/// What stands in the block of a route besides its connectors, if anything.
pub open spec fn route_section_fault(node: Node) -> Option<Fault> {
    args::when(
        node.name@ != "connectors"@,
        "Unknown section in a route: '"@ + node.name@ + "'"@,
        node.span,
    )
}

/// The check on each section of a route.
pub open spec fn route_section_check() -> spec_fn(Node) -> Option<Fault> {
    |n: Node| route_section_fault(n)
}

/// What is wrong with the arguments of a route, if anything.
pub open spec fn route_args_fault(node: Node) -> Option<Fault> {
    let e = node.entries@.skip(1);
    args::or(
        args::lead_fault(node.entries@, "route"@, node.span),
        args::or(
            args::str_fault(e, "match"@),
            args::or(
                args::str_fault(e, "methods"@),
                args::or(
                    args::unread_fault(e, args::words(seq!["match", "methods"]), node.span),
                    args::or(
                        matcher_fault(route_kind(node), route_path(node), node.span),
                        methods_fault(route_methods(node), node.span),
                    ),
                ),
            ),
        ),
    )
}

/// What is wrong with a route, if anything.
pub open spec fn route_fault(node: Node) -> Option<Fault> {
    let block = node.children->0;
    args::or(
        route_args_fault(node),
        args::or(
            args::when(
                node.children is None,
                "a 'route' should be a nested block, with 'connectors' in it"@,
                node.span,
            ),
            args::or(
                args::first_fault(block.nodes@, route_section_check()),
                args::or(
                    args::required_fault(block, "connectors"@),
                    connectors::connectors_fault(args::child(block, "connectors"@)->0),
                ),
            ),
        ),
    )
}

/// Is `c` the route that a line asks for?
pub open spec fn route_is(node: Node, c: RouteConfig) -> bool {
    &&& matcher_is(route_kind(node), route_path(node), c.matcher)
    &&& text::texts(c.methods@) == route_methods(node)
    &&& connectors::connectors_are(
        args::child(node.children->0, "connectors"@)->0,
        c.upstream_options,
        c.upstreams@,
    )
}

fn extract_route_args(node: &Node) -> (r: Result<(RouteMatch, Vec<String>), Bad>)
    ensures
        args::told(r, route_args_fault(*node)),
        r matches Ok((m, methods)) ==> matcher_is(route_kind(*node), route_path(*node), m)
            && text::texts(methods@) == route_methods(*node),
{
    let (path, a) = match first_and_named(&node.entries, "route", node.span) {
        Ok(p) => p,
        Err(b) => {
            return Err(b);
        },
    };
    let kind = match a.take_str("match") {
        Ok(Some(k)) => k,
        Ok(None) => "prefix",
        Err(b) => {
            return Err(b);
        },
    };
    let list = match a.take_str("methods") {
        Ok(l) => l,
        Err(b) => {
            return Err(b);
        },
    };
    let known = ["match", "methods"];
    assert(known@ == seq!["match", "methods"]);
    match a.finish(&known) {
        Ok(()) => {},
        Err(b) => {
            return Err(b);
        },
    }
    let matcher = match make_matcher(kind, path, node.span) {
        Ok(m) => m,
        Err(b) => {
            return Err(b);
        },
    };
    let methods: Vec<String> = match list {
        Some(l) => match parse_methods(l, node.span) {
            Ok(m) => m,
            Err(b) => {
                return Err(b);
            },
        },
        None => Vec::new(),
    };
    assert(list is None ==> text::texts(methods@) == Seq::<Seq<char>>::empty());
    Ok((matcher, methods))
}

fn check_route_sections(nodes: &[Node]) -> (r: Result<(), Bad>)
    ensures
        args::told(r, args::first_fault(nodes@, route_section_check())),
{
    let mut i: usize = 0;
    while i < nodes.len()
        invariant
            i <= nodes@.len(),
            args::first_fault(nodes@.take(i as int), route_section_check()) is None,
        decreases nodes@.len() - i,
    {
        let ghost next = nodes@.take(i + 1);
        assert(next.drop_last() == nodes@.take(i as int));
        assert(next.last() == nodes@[i as int]);
        if !text::same_text(nodes[i].name.as_str(), "connectors") {
            proof {
                args::lemma_fault_stays(nodes@, i + 1, route_section_check());
            }
            return Err(
                Bad::quoting(
                    "Unknown section in a route: '",
                    nodes[i].name.as_str(),
                    "'",
                    nodes[i].span,
                ),
            );
        }
        i = i + 1;
    }
    assert(nodes@.take(nodes@.len() as int) == nodes@);
    Ok(())
}

/// `route "/api" match="prefix" methods="GET,POST" { connectors { .. } }`.
pub fn extract_route(node: &Node) -> (r: Result<RouteConfig, Bad>)
    ensures
        args::told(r, route_fault(*node)),
        r matches Ok(c) ==> route_is(*node, c),
{
    let (matcher, methods) = match extract_route_args(node) {
        Ok(p) => p,
        Err(b) => {
            return Err(b);
        },
    };
    let block = match &node.children {
        Some(d) => d,
        None => {
            return Err(
                Bad::plain(
                    "a 'route' should be a nested block, with 'connectors' in it",
                    node.span,
                ),
            );
        },
    };
    match check_route_sections(&block.nodes) {
        Ok(()) => {},
        Err(b) => {
            return Err(b);
        },
    }
    let inner = match required_child_doc(block, "connectors") {
        Ok(d) => d,
        Err(b) => {
            return Err(b);
        },
    };
    match extract_connectors(inner) {
        Ok((upstream_options, upstreams)) => Ok(
            RouteConfig { matcher, methods, upstream_options, upstreams },
        ),
        Err(b) => Err(b),
    }
}

/// Would two routes claim exactly the same requests?
pub open spec fn same_requests(a: Node, b: Node) -> bool {
    &&& route_kind(a) == route_kind(b)
    &&& route_path(a) == route_path(b)
    &&& forall|m: Seq<char>|
        (#[trigger] route_methods(a).contains(m)) <==> route_methods(b).contains(m)
}

/// Is there a route before that claims exactly the same requests?
pub open spec fn shadowed(earlier: Seq<Node>, node: Node) -> bool {
    exists|i: int|
        0 <= i < earlier.len() && (#[trigger] earlier[i]).name@ == "route"@ && same_requests(
            earlier[i],
            node,
        )
}

/// What is wrong with a `no-route` line, if anything.
pub open spec fn no_route_fault(node: Node) -> Option<Fault> {
    let e = node.entries@;
    args::or(
        args::unnamed(e),
        args::or(
            path_control::rejection_fault(e, 404, node.span),
            args::unread_fault(e, args::words(seq!["status", "body"]), node.span),
        ),
    )
}

/// What is wrong with one line of a `routes` block, if anything.
pub open spec fn routes_line_fault(earlier: Seq<Node>, node: Node) -> Option<Fault> {
    if node.name@ == "no-route"@ {
        args::or(
            args::when(
                document::last_named(earlier, "no-route"@) is Some,
                "Only one 'no-route' entry is allowed"@,
                node.span,
            ),
            no_route_fault(node),
        )
    } else if node.name@ == "route"@ {
        args::or(
            route_fault(node),
            args::when(
                shadowed(earlier, node),
                "this route matches exactly the same requests as an earlier one, and could never be reached"@,
                node.span,
            ),
        )
    } else {
        Some(("Unknown entry in 'routes': '"@ + node.name@ + "'"@, node.span))
    }
}

/// What is wrong with the lines of a `routes` block, if anything.
pub open spec fn routes_lines_fault(nodes: Seq<Node>) -> Option<Fault>
    decreases nodes.len(),
{
    if nodes.len() == 0 {
        None
    } else {
        args::or(
            routes_lines_fault(nodes.drop_last()),
            routes_line_fault(nodes.drop_last(), nodes.last()),
        )
    }
}

/// What is wrong with a `routes` block, if anything.
pub open spec fn routes_fault(block: Document) -> Option<Fault> {
    args::or(
        routes_lines_fault(block.nodes@),
        args::when(
            document::all_named(block.nodes@, "route"@).len() == 0,
            "'routes' needs at least one 'route'"@,
            block.span,
        ),
    )
}

/// Are these the routes, and the answer where none matches, that a `routes`
/// block asks for?
pub open spec fn routes_are(nodes: Seq<Node>, routes: Seq<RouteConfig>, no_route: Rejection) -> bool {
    let lines = document::all_named(nodes, "route"@);
    &&& routes.len() == lines.len()
    &&& forall|i: int| 0 <= i < routes.len() ==> route_is(lines[i], #[trigger] routes[i])
    &&& match document::last_named(nodes, "no-route"@) {
        Some(n) => path_control::rejection_is(n.entries@, 404, no_route),
        None => no_route == (Rejection { status: 404, body: None }),
    }
}

proof fn lemma_routes_fault_stays(nodes: Seq<Node>, n: int)
    requires
        0 <= n <= nodes.len(),
        routes_lines_fault(nodes.take(n)) is Some,
    ensures
        routes_lines_fault(nodes) == routes_lines_fault(nodes.take(n)),
    decreases nodes.len() - n,
{
    if n < nodes.len() {
        assert(nodes.take(n + 1).drop_last() == nodes.take(n));
        lemma_routes_fault_stays(nodes, n + 1);
    } else {
        assert(nodes.take(n) == nodes);
    }
}

/// Every line so far is without a fault of its own.
proof fn lemma_routes_fine(nodes: Seq<Node>)
    requires
        routes_lines_fault(nodes) is None,
    ensures
        forall|i: int|
            0 <= i < nodes.len() && (#[trigger] nodes[i]).name@ == "route"@ && nodes[i].name@
                != "no-route"@ ==> route_args_fault(nodes[i]) is None,
        forall|i: int|
            0 <= i < nodes.len() && (#[trigger] nodes[i]).name@ == "no-route"@ ==> no_route_fault(
                nodes[i],
            ) is None,
    decreases nodes.len(),
{
    if nodes.len() > 0 {
        let front = nodes.drop_last();
        lemma_routes_fine(front);
        assert forall|i: int|
            0 <= i < nodes.len() && (#[trigger] nodes[i]).name@ == "route"@ && nodes[i].name@
                != "no-route"@ implies route_args_fault(nodes[i]) is None by {
            if i < front.len() {
                assert(front[i] == nodes[i]);
            }
        }
        assert forall|i: int|
            0 <= i < nodes.len() && (#[trigger] nodes[i]).name@
                == "no-route"@ implies no_route_fault(nodes[i]) is None by {
            if i < front.len() {
                assert(front[i] == nodes[i]);
            }
        }
    }
}

fn extract_no_route(node: &Node) -> (r: Result<Rejection, Bad>)
    ensures
        args::told(r, no_route_fault(*node)),
        r matches Ok(j) ==> path_control::rejection_is(node.entries@, 404, j),
{
    let a = match Args::named(&node.entries, node.span) {
        Ok(a) => a,
        Err(b) => {
            return Err(b);
        },
    };
    let rejection = match extract_rejection(&a, 404) {
        Ok(j) => j,
        Err(b) => {
            return Err(b);
        },
    };
    let known = ["status", "body"];
    assert(known@ == seq!["status", "body"]);
    match a.finish(&known) {
        Ok(()) => Ok(rejection),
        Err(b) => Err(b),
    }
}

/// Is every text of `a` one of `b`?
fn all_within(a: &[String], b: &[String]) -> (r: bool)
    ensures
        r == (forall|m: Seq<char>|
            (#[trigger] text::texts(a@).contains(m)) ==> text::texts(b@).contains(m)),
{
    let mut i: usize = 0;
    while i < a.len()
        invariant
            i <= a@.len(),
            forall|k: int|
                0 <= k < i ==> text::texts(b@).contains(#[trigger] text::texts(a@)[k]),
        decreases a@.len() - i,
    {
        if !holds_text(b, a[i].as_str()) {
            assert(text::texts(a@)[i as int] == a@[i as int]@);
            assert(text::texts(a@).contains(a@[i as int]@));
            return false;
        }
        i = i + 1;
    }
    assert forall|m: Seq<char>| #[trigger] text::texts(a@).contains(m) implies text::texts(
        b@,
    ).contains(m) by {
        let k = choose|k: int| 0 <= k < text::texts(a@).len() && text::texts(a@)[k] == m;
        assert(text::texts(b@).contains(text::texts(a@)[k]));
    }
    true
}

fn is_same_route(a: &Node, b: &Node) -> (r: bool)
    requires
        route_args_fault(*a) is None,
        route_args_fault(*b) is None,
    ensures
        r == same_requests(*a, *b),
{
    let (path_a, args_a) = match first_and_named(&a.entries, "route", a.span) {
        Ok(p) => p,
        Err(_) => {
            return false;
        },
    };
    let (path_b, args_b) = match first_and_named(&b.entries, "route", b.span) {
        Ok(p) => p,
        Err(_) => {
            return false;
        },
    };
    if !text::same_text(path_a, path_b) {
        return false;
    }
    let kind_a = match args_a.take_str("match") {
        Ok(Some(k)) => k,
        _ => "prefix",
    };
    let kind_b = match args_b.take_str("match") {
        Ok(Some(k)) => k,
        _ => "prefix",
    };
    if !text::same_text(kind_a, kind_b) {
        return false;
    }
    match (extract_route_args(a), extract_route_args(b)) {
        (Ok((_, methods_a)), Ok((_, methods_b))) => {
            let r = all_within(&methods_a, &methods_b) && all_within(&methods_b, &methods_a);
            r
        },
        _ => false,
    }
}

fn is_shadowed(earlier: &[Node], node: &Node) -> (r: bool)
    requires
        route_args_fault(*node) is None,
        routes_lines_fault(earlier@) is None,
        "route"@ != "no-route"@,
    ensures
        r == shadowed(earlier@, *node),
{
    proof {
        lemma_routes_fine(earlier@);
    }
    let mut i: usize = 0;
    while i < earlier.len()
        invariant
            i <= earlier@.len(),
            route_args_fault(*node) is None,
            "route"@ != "no-route"@,
            forall|i: int|
                0 <= i < earlier@.len() && (#[trigger] earlier@[i]).name@ == "route"@
                    && earlier@[i].name@ != "no-route"@ ==> route_args_fault(
                    earlier@[i],
                ) is None,
            forall|k: int|
                0 <= k < i ==> !((#[trigger] earlier@[k]).name@ == "route"@ && same_requests(
                    earlier@[k],
                    *node,
                )),
        decreases earlier@.len() - i,
    {
        if text::same_text(earlier[i].name.as_str(), "route") {
            if is_same_route(&earlier[i], node) {
                return true;
            }
        }
        i = i + 1;
    }
    false
}

/// The `routes` block.
pub fn extract_routes(block: &Document) -> (r: Result<(Vec<RouteConfig>, Rejection), Bad>)
    ensures
        args::told(r, routes_fault(*block)),
        r matches Ok((routes, no_route)) ==> routes_are(block.nodes@, routes@, no_route),
{
    proof {
        reveal_strlit("route");
        reveal_strlit("no-route");
    }
    assert("route"@.len() != "no-route"@.len());
    let nodes = block.nodes.as_slice();
    let mut routes: Vec<RouteConfig> = Vec::new();
    let mut no_route: Option<Rejection> = None;
    let mut i: usize = 0;
    while i < nodes.len()
        invariant
            i <= nodes@.len(),
            nodes@ == block.nodes@,
            "route"@ != "no-route"@,
            routes_lines_fault(nodes@.take(i as int)) is None,
            routes@.len() == document::all_named(nodes@.take(i as int), "route"@).len(),
            forall|k: int|
                0 <= k < routes@.len() ==> route_is(
                    document::all_named(nodes@.take(i as int), "route"@)[k],
                    #[trigger] routes@[k],
                ),
            match document::last_named(nodes@.take(i as int), "no-route"@) {
                Some(n) => no_route is Some && path_control::rejection_is(
                    n.entries@,
                    404,
                    no_route->0,
                ),
                None => no_route is None,
            },
        decreases nodes@.len() - i,
    {
        let ghost next = nodes@.take(i + 1);
        let earlier = vstd::slice::slice_subrange(nodes, 0, i);
        assert(earlier@ == nodes@.take(i as int));
        assert(next.drop_last() == nodes@.take(i as int));
        assert(next.last() == nodes@[i as int]);
        let node = &nodes[i];
        if text::same_text(node.name.as_str(), "no-route") {
            if no_route.is_some() {
                proof {
                    lemma_routes_fault_stays(nodes@, i + 1);
                }
                return Err(Bad::plain("Only one 'no-route' entry is allowed", node.span));
            }
            match extract_no_route(node) {
                Ok(j) => {
                    no_route = Some(j);
                },
                Err(b) => {
                    proof {
                        lemma_routes_fault_stays(nodes@, i + 1);
                    }
                    return Err(b);
                },
            }
        } else if text::same_text(node.name.as_str(), "route") {
            match extract_route(node) {
                Ok(c) => {
                    if is_shadowed(earlier, node) {
                        proof {
                            lemma_routes_fault_stays(nodes@, i + 1);
                        }
                        return Err(
                            Bad::plain(
                                "this route matches exactly the same requests as an earlier one, and could never be reached",
                                node.span,
                            ),
                        );
                    }
                    routes.push(c);
                },
                Err(b) => {
                    proof {
                        lemma_routes_fault_stays(nodes@, i + 1);
                    }
                    return Err(b);
                },
            }
        } else {
            proof {
                lemma_routes_fault_stays(nodes@, i + 1);
            }
            return Err(
                Bad::quoting("Unknown entry in 'routes': '", node.name.as_str(), "'", node.span),
            );
        }
        i = i + 1;
    }
    assert(nodes@.take(nodes@.len() as int) == nodes@);
    if routes.len() == 0 {
        return Err(Bad::plain("'routes' needs at least one 'route'", block.span));
    }
    let no_route = match no_route {
        Some(j) => j,
        None => Rejection { status: 404, body: None },
    };
    Ok((routes, no_route))
}

/// Every method of a list is read, wherever in the list it stands: two lists with a comma
/// between them are one, and a list without a comma is one method, without the white space
/// around it.
pub proof fn every_method_of_a_list_is_read(a: Seq<char>, b: Seq<char>)
    ensures
        method_list(a + seq![','] + b) == method_list(a) + method_list(b),
        !a.contains(',') ==> method_list(a) == seq![text::trimmed(a)],
{
    text::a_split_goes_on_behind_a_separator(a, b, ',');
}

/// Methods are in order if and only if each of them is one and no two are the same.
pub proof fn every_method_is_checked(methods: Seq<Seq<char>>, span: Span)
    ensures
        methods_fault(methods, span) is None <==> methods.no_duplicates() && forall|i: int|
            0 <= i < methods.len() ==> wire::is_token(#[trigger] methods[i]),
    decreases methods.len(),
{
    if methods.len() > 0 {
        let front = methods.drop_last();
        let last = methods.len() - 1;
        every_method_is_checked(front, span);
        assert(forall|i: int| 0 <= i < front.len() ==> #[trigger] front[i] == methods[i]);
        assert(methods[last] == methods.last());
        if methods_fault(methods, span) is None {
            assert forall|i: int| 0 <= i < methods.len() implies wire::is_token(
                #[trigger] methods[i],
            ) by {
                if i < last {
                    assert(wire::is_token(front[i]));
                }
            }
            assert forall|i: int, j: int|
                0 <= i < methods.len() && 0 <= j < methods.len() && i != j implies methods[i]
                != methods[j] by {
                if i < last && j < last {
                    assert(front[i] != front[j]);
                } else if i < last {
                    assert(front.contains(front[i]));
                } else {
                    assert(front.contains(front[j]));
                }
            }
        }
        if methods.no_duplicates() && (forall|i: int|
            0 <= i < methods.len() ==> wire::is_token(#[trigger] methods[i])) {
            assert forall|i: int| 0 <= i < front.len() implies wire::is_token(
                #[trigger] front[i],
            ) by {
                assert(wire::is_token(methods[i]));
            }
            assert(wire::is_token(methods[last]));
            if front.contains(methods.last()) {
                let i = front.index_of(methods.last());
                assert(methods[i] == methods[last]);
            }
        }
    }
}

/// A route cannot be reached if and only if any earlier one, wherever it stands, is for
/// the same requests.
pub proof fn any_earlier_route_can_be_in_the_way(
    one: Seq<Node>,
    other: Seq<Node>,
    earlier: Node,
    node: Node,
)
    ensures
        shadowed(one + other, node) <==> shadowed(one, node) || shadowed(other, node),
        shadowed(seq![earlier], node) <==> earlier.name@ == "route"@ && route_kind(earlier)
            == route_kind(node) && route_path(earlier) == route_path(node) && forall|m: Seq<char>|
            (#[trigger] route_methods(earlier).contains(m)) <==> route_methods(node).contains(m),
{
    let all = one + other;
    if shadowed(all, node) {
        let i = choose|i: int|
            0 <= i < all.len() && (#[trigger] all[i]).name@ == "route"@ && same_requests(
                all[i],
                node,
            );
        if i < one.len() {
            assert(one[i] == all[i]);
        } else {
            assert(other[i - one.len()] == all[i]);
        }
    }
    if shadowed(one, node) {
        let i = choose|i: int|
            0 <= i < one.len() && (#[trigger] one[i]).name@ == "route"@ && same_requests(
                one[i],
                node,
            );
        assert(all[i] == one[i]);
    }
    if shadowed(other, node) {
        let i = choose|i: int|
            0 <= i < other.len() && (#[trigger] other[i]).name@ == "route"@ && same_requests(
                other[i],
                node,
            );
        assert(all[one.len() + i] == other[i]);
    }
    let single = seq![earlier];
    assert(single[0] == earlier);
    if same_requests(earlier, node) && earlier.name@ == "route"@ {
        assert(shadowed(single, node));
    }
}

/// Every line of a `routes` block is checked, with regard to those before it, and the fault
/// of the first line that has one is told.
pub proof fn every_line_of_the_routes_is_checked(nodes: Seq<Node>, i: int)
    requires
        0 <= i < nodes.len(),
    ensures
        routes_line_fault(nodes.take(i), nodes[i]) is Some ==> routes_lines_fault(nodes) is Some,
        routes_line_fault(nodes.take(i), nodes[i]) is Some && routes_lines_fault(
            nodes.take(i),
        ) is None ==> routes_lines_fault(nodes) == routes_line_fault(nodes.take(i), nodes[i]),
{
    let part = nodes.take(i + 1);
    assert(part.drop_last() == nodes.take(i));
    assert(part.last() == nodes[i]);
    if routes_line_fault(nodes.take(i), nodes[i]) is Some {
        lemma_routes_fault_stays(nodes, i + 1);
    }
}

/// Each `route` line is one route, in the order they stand in, with every method that it
/// lists, and the answer where none matches is a 404 unless a line says otherwise.
pub proof fn every_route_line_is_a_route(
    nodes: Seq<Node>,
    list: Seq<RouteConfig>,
    no_route: Rejection,
    is_route: spec_fn(Node) -> bool,
    i: int,
    m: int,
)
    requires
        routes_are(nodes, list, no_route),
        forall|n: Node| #[trigger] is_route(n) <==> n.name@ == "route"@,
        0 <= i < nodes.filter(is_route).len(),
    ensures
        list.len() == nodes.filter(is_route).len(),
        ({
            let node = nodes.filter(is_route)[i];
            let kind = args::str_arg(node.entries@.skip(1), "match"@);
            let methods = args::str_arg(node.entries@.skip(1), "methods"@);
            let path = args::as_text(node.entries@[0].value)->0;
            &&& kind is None || kind == Some("prefix"@) ==> (
            list[i].matcher matches RouteMatch::Prefix { path: p } && p@ == path)
            &&& kind == Some("exact"@) ==> (list[i].matcher matches RouteMatch::Exact { path: p }
                && p@ == path)
            &&& kind == Some("regex"@) ==> (
            list[i].matcher matches RouteMatch::Regex { pattern } && pattern.source() == path)
            &&& methods is None ==> list[i].methods@.len() == 0
            &&& methods matches Some(all) ==> list[i].methods@.len() == text::split(
                all,
                ',',
            ).len() && (0 <= m < list[i].methods@.len() ==> list[i].methods@[m]@ == text::trimmed(
                text::split(all, ',')[m],
            ))
        }),
        document::last_named(nodes, "no-route"@) is None ==> no_route.status == 404
            && no_route.body is None,
{
    document::every_line_of_a_name_is_taken(nodes, "route"@, is_route);
    let node = nodes.filter(is_route)[i];
    assert(route_is(node, list[i]));
    let texts = text::texts(list[i].methods@);
    assert(texts.len() == list[i].methods@.len());
    if args::str_arg(node.entries@.skip(1), "methods"@) is Some && 0 <= m < texts.len() {
        let all = args::str_arg(node.entries@.skip(1), "methods"@)->0;
        assert(texts[m] == list[i].methods@[m]@);
        assert(method_list(all)[m] == text::trimmed(text::split(all, ',')[m]));
    }
    reveal_strlit("prefix");
    reveal_strlit("exact");
    reveal_strlit("regex");
    assert("prefix"@.len() != "exact"@.len());
    assert("prefix"@.len() != "regex"@.len());
    assert("exact"@[0] != "regex"@[0]);
}

} // verus!
