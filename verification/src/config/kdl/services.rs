//! The `services` section, the `system` section, and the document as a whole.
use crate::config::internal::{
    Config, FileServerConfig, Normalization, OverloadConfig, PathControl, ProxyConfig,
    RateLimitingConfig, Rejection, RouteConfig, RouteMatch,
};
use crate::config::kdl::acme;
use crate::config::kdl::acme::{extract_acme, validate_acme};
use crate::config::kdl::args;
use crate::config::kdl::args::{
    extract_one_bool_arg, extract_one_str_arg, optional_child_doc, required_child_doc, Bad, Fault,
};
use crate::config::kdl::connectors;
use crate::config::kdl::connectors::extract_connectors;
use crate::config::kdl::document;
use crate::config::kdl::document::{last_node, parse_document, Document, Node, Span, Value};
use crate::config::kdl::laws;
use crate::config::kdl::listeners;
use crate::config::kdl::listeners::extract_listeners;
use crate::config::kdl::path_control;
use crate::config::kdl::path_control::extract_path_control;
use crate::config::kdl::routes;
use crate::config::kdl::routes::extract_routes;
use crate::config::kdl::settings;
use crate::config::kdl::settings::{
    extract_client_ip, extract_normalization, extract_overload, extract_rate_limiting,
};
use crate::text;
use crate::wire;
use vstd::prelude::*;

verus! {

// ---- file servers ----

/// What is wrong with a service that serves files, if anything.
pub open spec fn file_server_fault(service: Document) -> Option<Fault> {
    let nodes = args::child(service, "file-server"@)->0.nodes@;
    args::or(
        listeners::listeners_fault(service),
        args::or(
            args::required_fault(service, "file-server"@),
            match document::last_named(nodes, "base-path"@) {
                Some(n) => args::one_str_fault(n),
                None => Some(
                    (
                        "'base-path' section is required"@,
                        args::child(service, "file-server"@)->0.span,
                    ),
                ),
            },
        ),
    )
}

/// Is `f` what a service that serves files says?
pub open spec fn file_server_is(name: Seq<char>, service: Document, f: FileServerConfig) -> bool {
    &&& f.name@ == name
    &&& listeners::listeners_are(service, f.listeners@)
    &&& f.base_path is Some
    &&& wire::opt_text(f.base_path) == acme::last_str(
        args::child(service, "file-server"@)->0.nodes@,
        "base-path"@,
    )
}

/// Extracts a single file server from the `services` block.
pub fn extract_file_server(name: &str, service: &Document) -> (r: Result<FileServerConfig, Bad>)
    ensures
        args::told(r, file_server_fault(*service)),
        r matches Ok(f) ==> file_server_is(name@, *service, f),
{
    let list = match extract_listeners(service) {
        Ok(l) => l,
        Err(b) => {
            return Err(b);
        },
    };
    let block = match required_child_doc(service, "file-server") {
        Ok(d) => d,
        Err(b) => {
            return Err(b);
        },
    };
    let base_path = match last_node(&block.nodes, "base-path") {
        Some(n) => match extract_one_str_arg(n) {
            Ok(s) => Some(s.to_owned()),
            Err(b) => {
                return Err(b);
            },
        },
        None => {
            return Err(Bad::plain("'base-path' section is required", block.span));
        },
    };
    Ok(FileServerConfig { name: name.to_owned(), listeners: list, base_path })
}

// ---- proxies ----

/// What is wrong with where a service sends requests, if anything.
pub open spec fn upstream_fault(service: Document) -> Option<Fault> {
    let routes_node = document::find(service.nodes@, "routes"@);
    let connectors_node = document::find(service.nodes@, "connectors"@);
    if routes_node is Some && connectors_node is Some {
        Some(
            (
                "A service has either a 'connectors' block or a 'routes' block, not both"@,
                routes_node->0.span,
            ),
        )
    } else if routes_node is Some {
        args::or(
            args::required_fault(service, "routes"@),
            routes::routes_fault(args::child(service, "routes"@)->0),
        )
    } else {
        args::or(
            args::required_fault(service, "connectors"@),
            connectors::connectors_fault(args::child(service, "connectors"@)->0),
        )
    }
}

/// Is this where a service sends requests? A bare `connectors` block is one
/// route for everything.
pub open spec fn upstream_is(
    service: Document,
    list: Seq<RouteConfig>,
    no_route: Rejection,
) -> bool {
    if document::find(service.nodes@, "routes"@) is Some {
        routes::routes_are(args::child(service, "routes"@)->0.nodes@, list, no_route)
    } else {
        &&& list.len() == 1
        &&& list[0].matcher is Any
        &&& list[0].methods@.len() == 0
        &&& connectors::connectors_are(
            args::child(service, "connectors"@)->0,
            list[0].upstream_options,
            list[0].upstreams@,
        )
        &&& no_route == (Rejection { status: 404, body: None })
    }
}

fn extract_upstream(service: &Document) -> (r: Result<(Vec<RouteConfig>, Rejection), Bad>)
    ensures
        args::told(r, upstream_fault(*service)),
        r matches Ok((list, no_route)) ==> upstream_is(*service, list@, no_route),
{
    match service.get("routes") {
        Some(node) => {
            if service.get("connectors").is_some() {
                return Err(
                    Bad::plain(
                        "A service has either a 'connectors' block or a 'routes' block, not both",
                        node.span,
                    ),
                );
            }
            match required_child_doc(service, "routes") {
                Ok(block) => extract_routes(block),
                Err(b) => Err(b),
            }
        },
        None => {
            let block = match required_child_doc(service, "connectors") {
                Ok(d) => d,
                Err(b) => {
                    return Err(b);
                },
            };
            match extract_connectors(block) {
                Ok((upstream_options, upstreams)) => {
                    let mut list: Vec<RouteConfig> = Vec::new();
                    list.push(
                        RouteConfig {
                            matcher: RouteMatch::Any,
                            methods: Vec::new(),
                            upstream_options,
                            upstreams,
                        },
                    );
                    Ok((list, Rejection { status: 404, body: None }))
                },
                Err(b) => Err(b),
            }
        },
    }
}

/// What is wrong with the optional sections of a service, if anything.
pub open spec fn options_fault(service: Document) -> Option<Fault> {
    args::or(
        match args::child(service, "client-ip"@) {
            Some(d) => settings::client_ip_fault(d),
            None => None,
        },
        args::or(
            match args::child(service, "normalization"@) {
                Some(d) => args::first_fault(d.nodes@, settings::normalization_check()),
                None => None,
            },
            args::or(
                match args::child(service, "overload"@) {
                    Some(d) => args::first_fault(d.nodes@, settings::overload_check()),
                    None => None,
                },
                args::or(
                    match args::child(service, "path-control"@) {
                        Some(d) => path_control::path_control_fault(d.nodes@),
                        None => None,
                    },
                    match args::child(service, "rate-limiting"@) {
                        Some(d) => args::first_fault(d.nodes@, settings::rule_check()),
                        None => None,
                    },
                ),
            ),
        ),
    )
}

/// What is wrong with a service that proxies, if anything.
pub open spec fn service_fault(service: Document) -> Option<Fault> {
    args::or(
        listeners::listeners_fault(service),
        args::or(upstream_fault(service), options_fault(service)),
    )
}

/// The lines of an optional section.
pub open spec fn section_lines(service: Document, name: Seq<char>) -> Seq<Node> {
    match args::child(service, name) {
        Some(d) => d.nodes@,
        None => Seq::empty(),
    }
}

/// Is `p` what a service that proxies says?
pub open spec fn service_is(
    threads: usize,
    name: Seq<char>,
    service: Document,
    p: ProxyConfig,
) -> bool {
    &&& p.name@ == name
    &&& listeners::listeners_are(service, p.listeners@)
    &&& upstream_is(service, p.routes@, p.no_route)
    &&& match args::child(service, "client-ip"@) {
        Some(d) => p.client_ip is Some && settings::client_ip_is(d.nodes@, p.client_ip->0),
        None => p.client_ip is None,
    }
    &&& settings::normalization_is(section_lines(service, "normalization"@), p.normalization)
    &&& settings::overload_is(section_lines(service, "overload"@), p.overload)
    &&& path_control::path_control_is(section_lines(service, "path-control"@), p.path_control)
    &&& settings::rules_are(
        section_lines(service, "rate-limiting"@),
        threads,
        p.rate_limiting.rules@,
    )
}

/// Extracts a single service from the `services` block.
pub fn extract_service(threads_per_service: usize, name: &str, service: &Document) -> (r: Result<
    ProxyConfig,
    Bad,
>)
    ensures
        args::told(r, service_fault(*service)),
        r matches Ok(p) ==> service_is(threads_per_service, name@, *service, p),
{
    let list = match extract_listeners(service) {
        Ok(l) => l,
        Err(b) => {
            return Err(b);
        },
    };
    let (route_list, no_route) = match extract_upstream(service) {
        Ok(p) => p,
        Err(b) => {
            return Err(b);
        },
    };
    let client_ip = match optional_child_doc(service, "client-ip") {
        Some(d) => match extract_client_ip(d) {
            Ok(c) => Some(c),
            Err(b) => {
                return Err(b);
            },
        },
        None => None,
    };
    let normalization = match optional_child_doc(service, "normalization") {
        Some(d) => match extract_normalization(d) {
            Ok(n) => n,
            Err(b) => {
                return Err(b);
            },
        },
        None => Normalization::default(),
    };
    let overload = match optional_child_doc(service, "overload") {
        Some(d) => match extract_overload(d) {
            Ok(o) => o,
            Err(b) => {
                return Err(b);
            },
        },
        None => OverloadConfig::default(),
    };
    let pc = match optional_child_doc(service, "path-control") {
        Some(d) => match extract_path_control(d) {
            Ok(p) => p,
            Err(b) => {
                return Err(b);
            },
        },
        None => PathControl::default(),
    };
    let rl = match optional_child_doc(service, "rate-limiting") {
        Some(d) => match extract_rate_limiting(threads_per_service, d) {
            Ok(c) => c,
            Err(b) => {
                return Err(b);
            },
        },
        None => RateLimitingConfig::default(),
    };
    Ok(
        ProxyConfig {
            name: name.to_owned(),
            listeners: list,
            routes: route_list,
            no_route,
            client_ip,
            normalization,
            overload,
            path_control: pc,
            rate_limiting: rl,
        },
    )
}

// ---- services ----

/// The sections that a service that proxies may have.
pub open spec fn proxy_sections() -> Seq<Seq<char>> {
    args::words(
        seq![
            "listeners",
            "connectors",
            "routes",
            "client-ip",
            "normalization",
            "overload",
            "path-control",
            "rate-limiting",
        ],
    )
}

/// The sections that a service that serves files may have.
pub open spec fn file_sections() -> Seq<Seq<char>> {
    args::words(seq!["listeners", "file-server"])
}

/// The sections of either.
pub open spec fn all_sections() -> Seq<Seq<char>> {
    args::words(
        seq![
            "listeners",
            "connectors",
            "routes",
            "client-ip",
            "normalization",
            "overload",
            "path-control",
            "rate-limiting",
            "file-server",
        ],
    )
}

/// The first section that is there for the second time.
pub open spec fn duplicate_fault(nodes: Seq<Node>) -> Option<Fault>
    decreases nodes.len(),
{
    if nodes.len() == 0 {
        None
    } else {
        let front = nodes.drop_last();
        let node = nodes.last();
        args::or(
            duplicate_fault(front),
            args::when(
                document::last_named(front, node.name@) is Some,
                "Duplicate section: '"@ + node.name@ + "'!"@,
                node.span,
            ),
        )
    }
}

/// Is every section one of these?
pub open spec fn only_sections(nodes: Seq<Node>, known: Seq<Seq<char>>) -> bool {
    novel(nodes, known).len() == 0
}

/// The sections that are none of these, in the order they stand.
pub open spec fn novel(nodes: Seq<Node>, known: Seq<Seq<char>>) -> Seq<Seq<char>>
    decreases nodes.len(),
{
    if nodes.len() == 0 {
        Seq::empty()
    } else {
        let front = novel(nodes.drop_last(), known);
        if known.contains(nodes.last().name@) {
            front
        } else {
            front.push(nodes.last().name@)
        }
    }
}

/// What is wrong with one service, if anything.
pub open spec fn service_node_fault(node: Node) -> Option<Fault> {
    let service = node.children->0;
    args::or(
        duplicate_fault(service.nodes@),
        if only_sections(service.nodes@, proxy_sections()) {
            service_fault(service)
        } else if only_sections(service.nodes@, file_sections()) {
            file_server_fault(service)
        } else {
            Some(
                (
                    "Unknown configuration section(s): "@ + text::join(
                        text::ordered(novel(service.nodes@, all_sections())),
                        ", "@,
                    ),
                    service.span,
                ),
            )
        },
    )
}

/// The check on each service.
pub open spec fn service_check() -> spec_fn(Node) -> Option<Fault> {
    |n: Node| service_node_fault(n)
}

/// A service is a name and a block.
pub open spec fn service_form_fault(node: Node) -> Option<Fault> {
    args::or(
        args::when(
            node.entries@.len() > 0,
            "'"@ + node.name@ + "' should not have arguments"@,
            node.span,
        ),
        args::when(
            node.children is None,
            "'"@ + node.name@ + "' should be a nested block"@,
            node.span,
        ),
    )
}

/// The check on the form of each service.
pub open spec fn service_form_check() -> spec_fn(Node) -> Option<Fault> {
    |n: Node| service_form_fault(n)
}

/// What is wrong with the `services` section, if anything.
pub open spec fn services_fault(doc: Document) -> Option<Fault> {
    let block = args::child(doc, "services"@)->0;
    args::or(
        args::required_fault(doc, "services"@),
        args::or(
            args::first_fault(block.nodes@, service_form_check()),
            args::or(
                args::first_fault(block.nodes@, service_check()),
                args::when(block.nodes@.len() == 0, "No services defined"@, block.span),
            ),
        ),
    )
}

/// Does the service proxy?
pub open spec fn is_proxy(node: Node) -> bool {
    only_sections(node.children->0.nodes@, proxy_sections())
}

/// The services that proxy, or those that do not, in order.
pub open spec fn sorted_out(nodes: Seq<Node>, proxies: bool) -> Seq<Node>
    decreases nodes.len(),
{
    if nodes.len() == 0 {
        Seq::empty()
    } else {
        let front = sorted_out(nodes.drop_last(), proxies);
        if is_proxy(nodes.last()) == proxies {
            front.push(nodes.last())
        } else {
            front
        }
    }
}

/// Are these the services of the section?
pub open spec fn services_are(
    threads: usize,
    nodes: Seq<Node>,
    proxies: Seq<ProxyConfig>,
    servers: Seq<FileServerConfig>,
) -> bool {
    &&& proxies.len() == sorted_out(nodes, true).len()
    &&& forall|i: int|
        0 <= i < proxies.len() ==> service_is(
            threads,
            sorted_out(nodes, true)[i].name@,
            sorted_out(nodes, true)[i].children->0,
            #[trigger] proxies[i],
        )
    &&& servers.len() == sorted_out(nodes, false).len()
    &&& forall|i: int|
        0 <= i < servers.len() ==> file_server_is(
            sorted_out(nodes, false)[i].name@,
            sorted_out(nodes, false)[i].children->0,
            #[trigger] servers[i],
        )
}

proof fn lemma_duplicate_fault_stays(nodes: Seq<Node>, n: int)
    requires
        0 <= n <= nodes.len(),
        duplicate_fault(nodes.take(n)) is Some,
    ensures
        duplicate_fault(nodes) == duplicate_fault(nodes.take(n)),
    decreases nodes.len() - n,
{
    if n < nodes.len() {
        assert(nodes.take(n + 1).drop_last() == nodes.take(n));
        lemma_duplicate_fault_stays(nodes, n + 1);
    } else {
        assert(nodes.take(n) == nodes);
    }
}

fn check_duplicates(nodes: &[Node]) -> (r: Result<(), Bad>)
    ensures
        args::told(r, duplicate_fault(nodes@)),
{
    let mut i: usize = 0;
    while i < nodes.len()
        invariant
            i <= nodes@.len(),
            duplicate_fault(nodes@.take(i as int)) is None,
        decreases nodes@.len() - i,
    {
        let ghost next = nodes@.take(i + 1);
        let earlier = vstd::slice::slice_subrange(nodes, 0, i);
        assert(earlier@ == nodes@.take(i as int));
        assert(next.drop_last() == nodes@.take(i as int));
        assert(next.last() == nodes@[i as int]);
        if last_node(earlier, nodes[i].name.as_str()).is_some() {
            proof {
                lemma_duplicate_fault_stays(nodes@, i + 1);
            }
            return Err(
                Bad::quoting("Duplicate section: '", nodes[i].name.as_str(), "'!", nodes[i].span),
            );
        }
        i = i + 1;
    }
    assert(nodes@.take(nodes@.len() as int) == nodes@);
    Ok(())
}

fn novel_sections(nodes: &[Node], known: &[&str]) -> (r: Vec<String>)
    ensures
        text::texts(r@) == novel(nodes@, args::words(known@)),
{
    let mut out: Vec<String> = Vec::new();
    let mut i: usize = 0;
    assert(text::texts(out@) == Seq::<Seq<char>>::empty());
    while i < nodes.len()
        invariant
            i <= nodes@.len(),
            text::texts(out@) == novel(nodes@.take(i as int), args::words(known@)),
        decreases nodes@.len() - i,
    {
        let ghost next = nodes@.take(i + 1);
        assert(next.drop_last() == nodes@.take(i as int));
        assert(next.last() == nodes@[i as int]);
        if !args::is_among(nodes[i].name.as_str(), known) {
            let ghost before = out@;
            out.push(nodes[i].name.clone());
            assert(text::texts(out@) == text::texts(before).push(nodes@[i as int].name@));
        }
        i = i + 1;
    }
    assert(nodes@.take(nodes@.len() as int) == nodes@);
    out
}

/// One service, of either kind.
enum Service {
    Proxy(ProxyConfig),
    Files(FileServerConfig),
}

fn extract_one(threads_per_service: usize, node: &Node, service: &Document) -> (r: Result<
    Service,
    Bad,
>)
    requires
        node.children == Some(*service),
    ensures
        args::told(r, service_node_fault(*node)),
        r matches Ok(s) ==> match s {
            Service::Proxy(p) => is_proxy(*node) && service_is(
                threads_per_service,
                node.name@,
                node.children->0,
                p,
            ),
            Service::Files(f) => !is_proxy(*node) && file_server_is(
                node.name@,
                node.children->0,
                f,
            ),
        },
{
    match check_duplicates(&service.nodes) {
        Ok(()) => {},
        Err(b) => {
            return Err(b);
        },
    }
    let proxy_known = [
        "listeners",
        "connectors",
        "routes",
        "client-ip",
        "normalization",
        "overload",
        "path-control",
        "rate-limiting",
    ];
    assert(args::words(proxy_known@) == proxy_sections());
    if novel_sections(&service.nodes, &proxy_known).len() == 0 {
        return match extract_service(threads_per_service, node.name.as_str(), service) {
            Ok(p) => Ok(Service::Proxy(p)),
            Err(b) => Err(b),
        };
    }
    let file_known = ["listeners", "file-server"];
    assert(args::words(file_known@) == file_sections());
    if novel_sections(&service.nodes, &file_known).len() == 0 {
        return match extract_file_server(node.name.as_str(), service) {
            Ok(f) => Ok(Service::Files(f)),
            Err(b) => Err(b),
        };
    }
    let known = [
        "listeners",
        "connectors",
        "routes",
        "client-ip",
        "normalization",
        "overload",
        "path-control",
        "rate-limiting",
        "file-server",
    ];
    assert(args::words(known@) == all_sections());
    let what = text::sort_distinct(&novel_sections(&service.nodes, &known));
    let list = text::join_text(&what, ", ");
    Err(
        Bad::docspan(
            text::concat2("Unknown configuration section(s): ", list.as_str()),
            service.span,
        ),
    )
}

fn check_service_forms(nodes: &[Node]) -> (r: Result<(), Bad>)
    ensures
        args::told(r, args::first_fault(nodes@, service_form_check())),
{
    let mut i: usize = 0;
    while i < nodes.len()
        invariant
            i <= nodes@.len(),
            args::first_fault(nodes@.take(i as int), service_form_check()) is None,
        decreases nodes@.len() - i,
    {
        let ghost next = nodes@.take(i + 1);
        assert(next.drop_last() == nodes@.take(i as int));
        assert(next.last() == nodes@[i as int]);
        if nodes[i].entries.len() > 0 {
            proof {
                args::lemma_fault_stays(nodes@, i + 1, service_form_check());
            }
            return Err(
                Bad::quoting(
                    "'",
                    nodes[i].name.as_str(),
                    "' should not have arguments",
                    nodes[i].span,
                ),
            );
        }
        if nodes[i].children.is_none() {
            proof {
                args::lemma_fault_stays(nodes@, i + 1, service_form_check());
            }
            return Err(
                Bad::quoting(
                    "'",
                    nodes[i].name.as_str(),
                    "' should be a nested block",
                    nodes[i].span,
                ),
            );
        }
        i = i + 1;
    }
    assert(nodes@.take(nodes@.len() as int) == nodes@);
    Ok(())
}

/// Extracts all services from the top level document.
pub fn extract_services(threads_per_service: usize, doc: &Document) -> (r: Result<
    (Vec<ProxyConfig>, Vec<FileServerConfig>),
    Bad,
>)
    ensures
        args::told(r, services_fault(*doc)),
        r matches Ok((proxies, servers)) ==> services_are(
            threads_per_service,
            args::child(*doc, "services"@)->0.nodes@,
            proxies@,
            servers@,
        ),
{
    let block = match required_child_doc(doc, "services") {
        Ok(d) => d,
        Err(b) => {
            return Err(b);
        },
    };
    let nodes = block.nodes.as_slice();
    match check_service_forms(nodes) {
        Ok(()) => {},
        Err(b) => {
            return Err(b);
        },
    }
    proof {
        args::lemma_faultless(nodes@, service_form_check());
    }
    let mut proxies: Vec<ProxyConfig> = Vec::new();
    let mut servers: Vec<FileServerConfig> = Vec::new();
    let mut i: usize = 0;
    while i < nodes.len()
        invariant
            i <= nodes@.len(),
            nodes@ == block.nodes@,
            args::required_fault(*doc, "services"@) is None,
            args::child(*doc, "services"@) == Some(*block),
            args::first_fault(nodes@, service_form_check()) is None,
            forall|n: Node| #[trigger] nodes@.contains(n) ==> service_form_check()(n) is None,
            args::first_fault(nodes@.take(i as int), service_check()) is None,
            services_are(threads_per_service, nodes@.take(i as int), proxies@, servers@),
        decreases nodes@.len() - i,
    {
        let ghost next = nodes@.take(i + 1);
        assert(next.drop_last() == nodes@.take(i as int));
        assert(next.last() == nodes@[i as int]);
        proof {
            assert(nodes@.contains(nodes@[i as int]));
            assert(service_form_check()(nodes@[i as int]) is None);
        }
        let service = nodes[i].children.as_ref().unwrap();
        match extract_one(threads_per_service, &nodes[i], service) {
            Ok(Service::Proxy(p)) => {
                proxies.push(p);
            },
            Ok(Service::Files(f)) => {
                servers.push(f);
            },
            Err(b) => {
                proof {
                    args::lemma_fault_stays(nodes@, i + 1, service_check());
                }
                return Err(b);
            },
        }
        i = i + 1;
    }
    assert(nodes@.take(nodes@.len() as int) == nodes@);
    if nodes.len() == 0 {
        return Err(Bad::plain("No services defined", block.span));
    }
    Ok((proxies, servers))
}

// ---- system ----

/// What the `system` section says.
pub struct SystemData {
    pub threads_per_service: usize,
    pub daemonize: bool,
    pub upgrade_socket: Option<String>,
    pub pid_file: Option<String>,
}

/// What is wrong with `threads-per-service`, if anything.
pub open spec fn threads_fault(sys: Document) -> Option<Fault> {
    match document::find(sys.nodes@, "threads-per-service"@) {
        None => None,
        Some(node) => {
            let e = node.entries@;
            let n = args::one_int(e);
            if e.len() != 1 {
                Some(("system > threads-per-service should have exactly one entry"@, node.span))
            } else if n is None {
                Some(("system > threads-per-service should be an integer"@, e[0].span))
            } else if n->0 < 0 || n->0 > usize::MAX {
                Some(("system > threads-per-service should fit in a usize"@, e[0].span))
            } else {
                args::when(
                    n->0 == 0,
                    "system > threads-per-service should be at least 1"@,
                    e[0].span,
                )
            }
        },
    }
}

/// The number of threads that each service gets.
pub open spec fn threads_of(sys: Document) -> int {
    match document::find(sys.nodes@, "threads-per-service"@) {
        None => 8,
        Some(node) => args::one_int(node.entries@)->0 as int,
    }
}

/// `threads-per-service 8`.
pub fn extract_threads_per_service(sys: &Document) -> (r: Result<usize, Bad>)
    ensures
        args::told(r, threads_fault(*sys)),
        r matches Ok(n) ==> n == threads_of(*sys),
{
    let node = match sys.get("threads-per-service") {
        Some(n) => n,
        None => {
            return Ok(8);
        },
    };
    if node.entries.len() != 1 {
        return Err(
            Bad::plain("system > threads-per-service should have exactly one entry", node.span),
        );
    }
    let span = node.entries[0].span;
    match &node.entries[0].value {
        Value::Int(n) => {
            if *n < 0 || (*n as u64) > usize::MAX as u64 {
                return Err(
                    Bad::plain("system > threads-per-service should fit in a usize", span),
                );
            }
            if *n == 0 {
                return Err(
                    Bad::plain("system > threads-per-service should be at least 1", span),
                );
            }
            Ok(*n as usize)
        },
        _ => Err(Bad::plain("system > threads-per-service should be an integer", span)),
    }
}

/// A setting that may be there, with one text.
pub open spec fn optional_str_fault(sys: Document, name: Seq<char>) -> Option<Fault> {
    match document::find(sys.nodes@, name) {
        Some(n) => args::one_str_fault(n),
        None => None,
    }
}

/// The text of a setting that may be there.
pub open spec fn optional_str(sys: Document, name: Seq<char>) -> Option<Seq<char>> {
    match document::find(sys.nodes@, name) {
        Some(n) => args::one_str(n.entries@),
        None => None,
    }
}

fn extract_optional_str(sys: &Document, name: &str) -> (r: Result<Option<String>, Bad>)
    ensures
        args::told(r, optional_str_fault(*sys, name@)),
        r matches Ok(s) ==> wire::opt_text(s) == optional_str(*sys, name@),
{
    match sys.get(name) {
        Some(n) => match extract_one_str_arg(n) {
            Ok(s) => Ok(Some(s.to_owned())),
            Err(b) => Err(b),
        },
        None => Ok(None),
    }
}

/// What is wrong with the `system` section, if anything.
pub open spec fn system_fault(doc: Document) -> Option<Fault> {
    match args::child(doc, "system"@) {
        None => None,
        Some(sys) => args::or(
            threads_fault(sys),
            args::or(
                match document::find(sys.nodes@, "daemonize"@) {
                    Some(n) => args::one_bool_fault(n),
                    None => None,
                },
                args::or(
                    optional_str_fault(sys, "upgrade-socket"@),
                    optional_str_fault(sys, "pid-file"@),
                ),
            ),
        ),
    }
}

/// Is this what the `system` section says?
pub open spec fn system_is(
    doc: Document,
    threads: usize,
    daemonize: bool,
    upgrade_socket: Option<String>,
    pid_file: Option<String>,
) -> bool {
    match args::child(doc, "system"@) {
        None => threads == 8 && !daemonize && upgrade_socket is None && pid_file is None,
        Some(sys) => {
            &&& threads == threads_of(sys)
            &&& daemonize == (match document::find(sys.nodes@, "daemonize"@) {
                Some(n) => args::one_bool(n.entries@)->0,
                None => false,
            })
            &&& wire::opt_text(upgrade_socket) == optional_str(sys, "upgrade-socket"@)
            &&& wire::opt_text(pid_file) == optional_str(sys, "pid-file"@)
        },
    }
}

/// Extracts the optional `system` section.
pub fn extract_system_data(doc: &Document) -> (r: Result<SystemData, Bad>)
    ensures
        args::told(r, system_fault(*doc)),
        r matches Ok(s) ==> system_is(
            *doc,
            s.threads_per_service,
            s.daemonize,
            s.upgrade_socket,
            s.pid_file,
        ),
{
    let sys = match optional_child_doc(doc, "system") {
        Some(d) => d,
        None => {
            return Ok(
                SystemData {
                    threads_per_service: 8,
                    daemonize: false,
                    upgrade_socket: None,
                    pid_file: None,
                },
            );
        },
    };
    let threads_per_service = match extract_threads_per_service(sys) {
        Ok(n) => n,
        Err(b) => {
            return Err(b);
        },
    };
    let daemonize = match sys.get("daemonize") {
        Some(n) => match extract_one_bool_arg(n) {
            Ok(v) => v,
            Err(b) => {
                return Err(b);
            },
        },
        None => false,
    };
    let upgrade_socket = match extract_optional_str(sys, "upgrade-socket") {
        Ok(s) => s,
        Err(b) => {
            return Err(b);
        },
    };
    let pid_file = match extract_optional_str(sys, "pid-file") {
        Ok(s) => s,
        Err(b) => {
            return Err(b);
        },
    };
    Ok(SystemData { threads_per_service, daemonize, upgrade_socket, pid_file })
}

// ---- the whole ----

/// What is wrong with the sections of a document taken one by one, if anything.
pub open spec fn sections_fault(doc: Document) -> Option<Fault> {
    args::or(system_fault(doc), args::or(services_fault(doc), acme::acme_fault(doc)))
}

/// Is `c` what a document says? What a document cannot say is left as it is by
/// default.
pub open spec fn config_is(doc: Document, c: Config) -> bool {
    &&& system_is(doc, c.threads_per_service, c.daemonize, c.upgrade_socket, c.pid_file)
    &&& services_are(
        c.threads_per_service,
        args::child(doc, "services"@)->0.nodes@,
        c.basic_proxies@,
        c.file_servers@,
    )
    &&& match (document::find(doc.nodes@, "acme"@), c.acme) {
        (None, None) => true,
        (Some(node), Some(a)) => acme::acme_is(node.children->0.nodes@, a),
        _ => false,
    }
    &&& !c.validate_configs && !c.upgrade
}

/// Where faults between the `acme` section and the listeners are reported: at
/// the section, or the document as a whole when there is none.
pub open spec fn acme_span(doc: Document) -> Span {
    match document::find(doc.nodes@, "acme"@) {
        Some(n) => n.span,
        None => doc.span,
    }
}

/// Does a result say what a document says: the configuration if nothing is
/// wrong, or else the first fault?
pub open spec fn is_reading(doc: Document, r: Result<Config, Bad>) -> bool {
    match r {
        Ok(c) => {
            &&& sections_fault(doc) is None
            &&& config_is(doc, c)
            &&& acme::validate_fault(c, acme_span(doc)) is None
        },
        Err(b) => match sections_fault(doc) {
            Some(fault) => b@ == fault,
            None => exists|c: Config| #[trigger]
                config_is(doc, c) && acme::validate_fault(c, acme_span(doc)) == Some(b@),
        },
    }
}

/// Reads a configuration out of a document.
pub fn config_from_document(doc: &Document) -> (r: Result<Config, Bad>)
    ensures
        is_reading(*doc, r),
{
    let system = match extract_system_data(doc) {
        Ok(s) => s,
        Err(b) => {
            return Err(b);
        },
    };
    let (basic_proxies, file_servers) = match extract_services(system.threads_per_service, doc) {
        Ok(p) => p,
        Err(b) => {
            return Err(b);
        },
    };
    let acme = match extract_acme(doc) {
        Ok(a) => a,
        Err(b) => {
            return Err(b);
        },
    };
    let config = Config {
        validate_configs: false,
        threads_per_service: system.threads_per_service,
        daemonize: system.daemonize,
        pid_file: system.pid_file,
        upgrade_socket: system.upgrade_socket,
        upgrade: false,
        basic_proxies,
        file_servers,
        acme,
    };
    assert(config_is(*doc, config));
    let span = match doc.get("acme") {
        Some(n) => n.span,
        None => doc.span,
    };
    match validate_acme(&config, span) {
        Ok(()) => Ok(config),
        Err(b) => Err(b),
    }
}

/// Why a text is not a configuration.
#[derive(Debug, PartialEq, Eq)]
pub enum ConfigError {
    /// It is not KDL.
    Syntax(String),
    /// It is KDL, but says something that makes no sense.
    Contents(Bad),
}

/// Reads a configuration out of a text.
pub fn parse_config(s: &str) -> (r: Result<Config, ConfigError>)
    ensures
        match document::unread(s@) {
            Some(why) => r matches Err(ConfigError::Syntax(said)) && said@ == why,
            None => match document::parsed(s@) {
                Err(e) => r matches Err(ConfigError::Syntax(why)) && why@ == e,
                Ok(k) => exists|doc: Document| #[trigger]
                    document::document_is(doc, k, document::NESTING as nat) && (match r {
                        Ok(c) => is_reading(doc, Ok(c)),
                        Err(ConfigError::Contents(b)) => is_reading(doc, Err(b)),
                        Err(ConfigError::Syntax(_)) => false,
                    }),
            },
        },
        r matches Ok(c) ==> forall|i: int|
            0 <= i < c.basic_proxies@.len() ==> laws::service_wf(#[trigger] c.basic_proxies@[i]),
{
    match parse_document(s) {
        Ok(doc) => match config_from_document(&doc) {
            Ok(c) => {
                proof {
                    laws::what_was_read_can_be_started(doc, c);
                }
                Ok(c)
            },
            Err(b) => Err(ConfigError::Contents(b)),
        },
        Err(e) => Err(ConfigError::Syntax(e)),
    }
}

/// No section of a service is there twice, wherever the two stand.
pub proof fn every_section_is_there_once(nodes: Seq<Node>, i: int, k: int)
    requires
        0 <= i < k < nodes.len(),
        nodes[i].name@ == nodes[k].name@,
    ensures
        duplicate_fault(nodes) is Some,
    decreases nodes.len(),
{
    let front = nodes.drop_last();
    assert(front[i] == nodes[i]);
    if k < front.len() {
        assert(front[k] == nodes[k]);
        every_section_is_there_once(front, i, k);
    } else {
        lemma_named(front, i);
    }
}

proof fn lemma_named(nodes: Seq<Node>, i: int)
    requires
        0 <= i < nodes.len(),
    ensures
        document::last_named(nodes, nodes[i].name@) is Some,
    decreases nodes.len(),
{
    if i < nodes.len() - 1 {
        lemma_named(nodes.drop_last(), i);
    }
}

/// Sections of different names are no mistake, however many there are.
pub proof fn different_sections_are_fine(nodes: Seq<Node>)
    requires
        forall|i: int, k: int|
            0 <= i < k < nodes.len() ==> (#[trigger] nodes[i]).name@ != (#[trigger] nodes[k]).name@,
    ensures
        duplicate_fault(nodes) is None,
    decreases nodes.len(),
{
    if nodes.len() > 0 {
        let front = nodes.drop_last();
        let last = nodes.len() - 1;
        assert forall|i: int, k: int| 0 <= i < k < front.len() implies (
        #[trigger] front[i]).name@ != (#[trigger] front[k]).name@ by {
            assert(nodes[i].name@ != nodes[k].name@);
        }
        different_sections_are_fine(front);
        document::lemma_last_named(front, nodes[last].name@);
        if document::last_named(front, nodes[last].name@) is Some {
            let n = document::last_named(front, nodes[last].name@)->0;
            let i = front.index_of(n);
            assert(nodes[i].name@ != nodes[last].name@);
        }
    }
}

/// Every section counts for what kind of service it is: all of them have to be known.
pub proof fn every_section_counts(nodes: Seq<Node>, known: Seq<Seq<char>>)
    ensures
        only_sections(nodes, known) <==> forall|i: int|
            0 <= i < nodes.len() ==> known.contains((#[trigger] nodes[i]).name@),
        novel(nodes, known) == nodes.filter_map(
            |n: Node|
                if known.contains(n.name@) {
                    None
                } else {
                    Some(n.name@)
                },
        ),
    decreases nodes.len(),
{
    if nodes.len() > 0 {
        let front = nodes.drop_last();
        let last = nodes.len() - 1;
        every_section_counts(front, known);
        assert(forall|i: int| 0 <= i < front.len() ==> #[trigger] front[i] == nodes[i]);
        assert(nodes[last] == nodes.last());
        if only_sections(nodes, known) {
            assert forall|i: int| 0 <= i < nodes.len() implies known.contains(
                (#[trigger] nodes[i]).name@,
            ) by {
                if i < last {
                    assert(known.contains(front[i].name@));
                }
            }
        }
    }
}

/// Every service is read, in the order they stand in: those that proxy, which have only
/// sections of a proxy, and those that serve files, which are all the others. Each has the
/// name of its line.
pub proof fn every_service_is_read(
    threads: usize,
    nodes: Seq<Node>,
    proxies: Seq<ProxyConfig>,
    servers: Seq<FileServerConfig>,
    proxying: spec_fn(Node) -> bool,
    serving: spec_fn(Node) -> bool,
    i: int,
)
    requires
        services_are(threads, nodes, proxies, servers),
        forall|n: Node| #[trigger]
            proxying(n) <==> forall|k: int|
                0 <= k < n.children->0.nodes@.len() ==> proxy_sections().contains(
                    (#[trigger] n.children->0.nodes@[k]).name@,
                ),
        forall|n: Node| #[trigger] serving(n) <==> !proxying(n),
    ensures
        proxies.len() == nodes.filter(proxying).len(),
        servers.len() == nodes.filter(serving).len(),
        proxies.len() + servers.len() == nodes.len(),
        0 <= i < proxies.len() ==> proxies[i].name@ == nodes.filter(proxying)[i].name@
            && service_is(
            threads,
            nodes.filter(proxying)[i].name@,
            nodes.filter(proxying)[i].children->0,
            proxies[i],
        ),
        0 <= i < servers.len() ==> servers[i].name@ == nodes.filter(serving)[i].name@
            && file_server_is(
            nodes.filter(serving)[i].name@,
            nodes.filter(serving)[i].children->0,
            servers[i],
        ),
{
    lemma_services_sorted(nodes, proxying, serving);
}

proof fn lemma_services_sorted(
    nodes: Seq<Node>,
    proxying: spec_fn(Node) -> bool,
    serving: spec_fn(Node) -> bool,
)
    requires
        forall|n: Node| #[trigger]
            proxying(n) <==> forall|k: int|
                0 <= k < n.children->0.nodes@.len() ==> proxy_sections().contains(
                    (#[trigger] n.children->0.nodes@[k]).name@,
                ),
        forall|n: Node| #[trigger] serving(n) <==> !proxying(n),
    ensures
        sorted_out(nodes, true) == nodes.filter(proxying),
        sorted_out(nodes, false) == nodes.filter(serving),
        nodes.filter(proxying).len() + nodes.filter(serving).len() == nodes.len(),
    decreases nodes.len(),
{
    reveal(Seq::filter);
    if nodes.len() > 0 {
        lemma_services_sorted(nodes.drop_last(), proxying, serving);
        every_section_counts(nodes.last().children->0.nodes@, proxy_sections());
        assert(proxying(nodes.last()) <==> is_proxy(nodes.last()));
        assert(serving(nodes.last()) <==> !is_proxy(nodes.last()));
    }
}

/// A service without routes sends everything to its connectors, whatever the path and the
/// method, and what no route takes is answered with a 404 unless a line says otherwise.
pub proof fn without_routes_everything_goes_to_the_connectors(
    service: Document,
    list: Seq<RouteConfig>,
    no_route: Rejection,
)
    requires
        upstream_is(service, list, no_route),
        forall|k: int|
            0 <= k < service.nodes@.len() ==> (#[trigger] service.nodes@[k]).name@ != "routes"@,
    ensures
        list.len() == 1,
        list[0].matcher is Any,
        list[0].methods@.len() == 0,
        no_route.status == 404,
        no_route.body is None,
{
    document::the_first_of_a_name_is_found(
        service.nodes@,
        "routes"@,
        service.nodes@.len() as int,
    );
}

/// A service is set up by all of its sections: each is read into its own part, and a
/// section that is not there leaves that part as it is by default.
pub proof fn each_section_sets_its_part(
    threads: usize,
    name: Seq<char>,
    service: Document,
    p: ProxyConfig,
)
    requires
        service_is(threads, name, service, p),
    ensures
        p.name@ == name,
        listeners::listeners_are(service, p.listeners@),
        p.client_ip is Some <==> args::child(service, "client-ip"@) is Some,
        args::child(service, "client-ip"@) matches Some(d) ==> settings::client_ip_is(
            d.nodes@,
            p.client_ip->0,
        ),
        args::child(service, "normalization"@) matches Some(d) ==> settings::normalization_is(
            d.nodes@,
            p.normalization,
        ),
        args::child(service, "normalization"@) is None ==> settings::normalization_is(
            Seq::empty(),
            p.normalization,
        ),
        args::child(service, "overload"@) matches Some(d) ==> settings::overload_is(
            d.nodes@,
            p.overload,
        ),
        args::child(service, "overload"@) is None ==> settings::overload_is(
            Seq::empty(),
            p.overload,
        ),
        args::child(service, "path-control"@) matches Some(d) ==> path_control::path_control_is(
            d.nodes@,
            p.path_control,
        ),
        args::child(service, "path-control"@) is None ==> p.path_control.request_filters@.len()
            == 0 && p.path_control.upstream_request_filters@.len() == 0
            && p.path_control.upstream_response_filters@.len() == 0
            && p.path_control.response_filters@.len() == 0
            && p.path_control.request_body_limit is None
            && p.path_control.response_body_limit is None,
        args::child(service, "rate-limiting"@) matches Some(d) ==> settings::rules_are(
            d.nodes@,
            threads,
            p.rate_limiting.rules@,
        ),
        args::child(service, "rate-limiting"@) is None ==> p.rate_limiting.rules@.len() == 0,
{
}

/// Each service has as many threads as the `system` section says, and eight where it does
/// not; the other settings of that section are off where they are not given.
pub proof fn the_system_is_as_its_section_says(
    doc: Document,
    threads: usize,
    daemonize: bool,
    upgrade_socket: Option<String>,
    pid_file: Option<String>,
)
    requires
        system_is(doc, threads, daemonize, upgrade_socket, pid_file),
        system_fault(doc) is None,
    ensures
        match args::child(doc, "system"@) {
            None => threads == 8 && !daemonize && upgrade_socket is None && pid_file is None,
            Some(sys) => {
                &&& threads >= 1
                &&& match document::find(sys.nodes@, "threads-per-service"@) {
                    Some(n) => n.entries@.len() == 1 && (
                    n.entries@[0].value matches document::Value::Int(v) && threads == v),
                    None => threads == 8,
                }
                &&& match document::find(sys.nodes@, "daemonize"@) {
                    Some(n) => args::one_bool(n.entries@) == Some(daemonize),
                    None => !daemonize,
                }
                &&& match document::find(sys.nodes@, "upgrade-socket"@) {
                    Some(n) => upgrade_socket matches Some(s) && args::one_str(n.entries@) == Some(
                        s@,
                    ),
                    None => upgrade_socket is None,
                }
                &&& match document::find(sys.nodes@, "pid-file"@) {
                    Some(n) => pid_file matches Some(s) && args::one_str(n.entries@) == Some(s@),
                    None => pid_file is None,
                }
            },
        },
{
}

/// A service sends requests by its routes or to its connectors, to one of the two and never
/// to both.
pub proof fn routes_or_connectors(service: Document)
    requires
        upstream_fault(service) is None,
    ensures
        document::find(service.nodes@, "routes"@) is Some != document::find(
            service.nodes@,
            "connectors"@,
        ) is Some,
        document::find(service.nodes@, "routes"@) is Some ==> args::child(
            service,
            "routes"@,
        ) is Some && routes::routes_fault(args::child(service, "routes"@)->0) is None,
        document::find(service.nodes@, "connectors"@) is Some ==> args::child(
            service,
            "connectors"@,
        ) is Some && connectors::connectors_fault(args::child(service, "connectors"@)->0) is None,
{
}

/// There is at least one service, and every one of them is checked: it has a block and no
/// arguments, no section is there twice, and its sections are all those of a proxy or all
/// those of a server of files, and without fault.
pub proof fn every_service_is_checked(doc: Document, i: int)
    requires
        services_fault(doc) is None,
    ensures
        args::child(doc, "services"@) is Some,
        args::child(doc, "services"@)->0.nodes@.len() > 0,
        0 <= i < args::child(doc, "services"@)->0.nodes@.len() ==> {
            let node = args::child(doc, "services"@)->0.nodes@[i];
            let service = node.children->0;
            &&& node.children is Some
            &&& node.entries@.len() == 0
            &&& duplicate_fault(service.nodes@) is None
            &&& only_sections(service.nodes@, proxy_sections()) ==> service_fault(service) is None
            &&& !only_sections(service.nodes@, proxy_sections()) ==> only_sections(
                service.nodes@,
                file_sections(),
            ) && file_server_fault(service) is None
        },
{
    let nodes = args::child(doc, "services"@)->0.nodes@;
    args::lemma_faultless(nodes, service_form_check());
    args::lemma_faultless(nodes, service_check());
    if 0 <= i < nodes.len() {
        assert(nodes.contains(nodes[i]));
        assert(service_form_check()(nodes[i]) is None);
        assert(service_check()(nodes[i]) is None);
    }
}

/// Every section of a service is checked: its listeners, where it sends requests, and each
/// of the others that is there.
pub proof fn every_section_is_checked(service: Document)
    ensures
        service_fault(service) is None <==> {
            &&& listeners::listeners_fault(service) is None
            &&& upstream_fault(service) is None
            &&& args::child(service, "client-ip"@) matches Some(d) ==> settings::client_ip_fault(
                d,
            ) is None
            &&& args::child(service, "normalization"@) matches Some(d) ==> args::first_fault(
                d.nodes@,
                settings::normalization_check(),
            ) is None
            &&& args::child(service, "overload"@) matches Some(d) ==> args::first_fault(
                d.nodes@,
                settings::overload_check(),
            ) is None
            &&& args::child(service, "path-control"@) matches Some(d)
                ==> path_control::path_control_fault(d.nodes@) is None
            &&& args::child(service, "rate-limiting"@) matches Some(d) ==> args::first_fault(
                d.nodes@,
                settings::rule_check(),
            ) is None
        },
{
}

} // verus!
