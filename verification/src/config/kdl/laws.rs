//! What a configuration that was read without complaint can be relied on for.
use crate::config::internal::{
    AcmeConfig, ChallengeKind, Config, ListenerConfig, ListenerKind, Normalization, ProxyConfig,
    RouteConfig, UpstreamConfig, UpstreamKind,
};
use crate::config::kdl::document::{self, Document, Node, Span};
use crate::config::kdl::{
    acme, args, balancing, connectors, listeners as lines, path_control, routes, services, settings,
};
use crate::listeners;
use crate::proxy;
use crate::text;
use crate::tls::store;
use vstd::prelude::*;

verus! {

/// Are the bounds on how often a name is resolved the right way round?
pub open spec fn upstream_wf(u: UpstreamConfig) -> bool {
    match u.kind {
        UpstreamKind::Static { .. } => true,
        UpstreamKind::Dns { refresh, .. } => refresh.wf(),
        UpstreamKind::Srv { refresh, .. } => refresh.wf(),
    }
}

/// Are the servers of a route such that they can be looked up?
pub open spec fn route_wf(r: RouteConfig) -> bool {
    forall|i: int| 0 <= i < r.upstreams@.len() ==> upstream_wf(#[trigger] r.upstreams@[i])
}

/// Can a service be started with this configuration?
pub open spec fn service_wf(p: ProxyConfig) -> bool {
    &&& proxy::config_wf(p)
    &&& forall|i: int| 0 <= i < p.routes@.len() ==> route_wf(#[trigger] p.routes@[i])
}

proof fn lemma_connectors(block: Document, r: RouteConfig)
    requires
        connectors::connectors_are(block, r.upstream_options, r.upstreams@),
    ensures
        route_wf(r),
{
    assert forall|i: int| 0 <= i < r.upstreams@.len() implies upstream_wf(
        #[trigger] r.upstreams@[i],
    ) by {
        assert(connectors::source_is(
            connectors::sources(block.nodes@)[i],
            connectors::inherited(block.nodes@),
            r.upstreams@[i],
        ));
    }
}

/// The ranges and patterns of a service that was read are ranges and patterns, and
/// the bounds on how often its names are resolved are the right way round: nothing
/// that was written in the file can go wrong once the service is running.
pub proof fn a_service_that_was_read_can_be_started(
    threads: usize,
    name: Seq<char>,
    service: Document,
    p: ProxyConfig,
)
    requires
        services::service_is(threads, name, service, p),
    ensures
        service_wf(p),
{
    let nodes = services::section_lines(service, "path-control"@);
    let pc = p.path_control;
    assert forall|i: int| 0 <= i < pc.request_filters@.len() implies proxy::filter_config_wf(
        #[trigger] pc.request_filters@[i],
    ) by {
        assert(path_control::request_filter_is(
            path_control::stage_lines(nodes, "request-filters"@)[i],
            pc.request_filters@[i],
        ));
    }
    assert forall|i: int|
        0 <= i < pc.upstream_request_filters@.len() implies proxy::headers::modifier_wf(
        #[trigger] pc.upstream_request_filters@[i],
    ) by {
        assert(path_control::modifier_is(
            path_control::stage_lines(nodes, "upstream-request"@)[i],
            pc.upstream_request_filters@[i],
        ));
    }
    assert forall|i: int|
        0 <= i < pc.upstream_response_filters@.len() implies proxy::headers::modifier_wf(
        #[trigger] pc.upstream_response_filters@[i],
    ) by {
        assert(path_control::modifier_is(
            path_control::stage_lines(nodes, "upstream-response"@)[i],
            pc.upstream_response_filters@[i],
        ));
    }
    assert forall|i: int| 0 <= i < pc.response_filters@.len() implies proxy::headers::modifier_wf(
        #[trigger] pc.response_filters@[i],
    ) by {
        assert(path_control::modifier_is(
            path_control::stage_lines(nodes, "response-filters"@)[i],
            pc.response_filters@[i],
        ));
    }
    assert forall|i: int| 0 <= i < p.routes@.len() implies route_wf(#[trigger] p.routes@[i]) by {
        if document::find(service.nodes@, "routes"@) is Some {
            let all = document::all_named(args::child(service, "routes"@)->0.nodes@, "route"@);
            assert(routes::route_is(all[i], p.routes@[i]));
            lemma_connectors(args::child(all[i].children->0, "connectors"@)->0, p.routes@[i]);
        } else {
            lemma_connectors(args::child(service, "connectors"@)->0, p.routes@[i]);
        }
    }
}

/// Every service of a configuration that was read can be started.
pub proof fn what_was_read_can_be_started(doc: Document, c: Config)
    requires
        services::is_reading(doc, Ok(c)),
    ensures
        forall|i: int|
            0 <= i < c.basic_proxies@.len() ==> service_wf(#[trigger] c.basic_proxies@[i]),
{
    let nodes = args::child(doc, "services"@)->0.nodes@;
    let proxies = services::sorted_out(nodes, true);
    assert forall|i: int| 0 <= i < c.basic_proxies@.len() implies service_wf(
        #[trigger] c.basic_proxies@[i],
    ) by {
        a_service_that_was_read_can_be_started(
            c.threads_per_service,
            proxies[i].name@,
            proxies[i].children->0,
            c.basic_proxies@[i],
        );
    }
}

proof fn lemma_listener_can_be_set_up(node: Node, l: ListenerConfig)
    requires
        lines::listener_is(node, l),
    ensures
        listeners::setup_of(l.source) is Ok,
{
    match l.source {
        ListenerKind::Tcp { tls: Some(tls), .. } => {
            assert(text::texts(tls.acme_domains@).len() == tls.acme_domains@.len());
            match args::str_arg(node.entries@, "acme-domains"@) {
                Some(list) => {
                    text::lemma_split_nonempty(list, ',');
                    assert(lines::domain_list(list).len() == text::split(list, ',').len());
                },
                None => {},
            }
        },
        _ => {},
    }
}

/// Every listener of a configuration that was read can be set up: one with TLS has
/// a certificate or managed domains, and one that offers HTTP/2 has TLS.
pub proof fn what_was_read_can_be_bound(doc: Document, c: Config)
    requires
        services::is_reading(doc, Ok(c)),
    ensures
        forall|i: int, k: int|
            0 <= i < c.basic_proxies@.len() && 0 <= k < c.basic_proxies@[i].listeners@.len()
                ==> listeners::setup_of((#[trigger] c.basic_proxies@[i].listeners@[k]).source) is Ok,
        forall|i: int, k: int|
            0 <= i < c.file_servers@.len() && 0 <= k < c.file_servers@[i].listeners@.len()
                ==> listeners::setup_of((#[trigger] c.file_servers@[i].listeners@[k]).source) is Ok,
{
    let nodes = args::child(doc, "services"@)->0.nodes@;
    let proxies = services::sorted_out(nodes, true);
    let servers = services::sorted_out(nodes, false);
    assert forall|i: int, k: int|
        0 <= i < c.basic_proxies@.len() && 0 <= k
            < c.basic_proxies@[i].listeners@.len() implies listeners::setup_of(
        (#[trigger] c.basic_proxies@[i].listeners@[k]).source,
    ) is Ok by {
        let service = proxies[i].children->0;
        assert(services::service_is(
            c.threads_per_service,
            proxies[i].name@,
            service,
            c.basic_proxies@[i],
        ));
        lemma_listener_can_be_set_up(
            args::child(service, "listeners"@)->0.nodes@[k],
            c.basic_proxies@[i].listeners@[k],
        );
    }
    assert forall|i: int, k: int|
        0 <= i < c.file_servers@.len() && 0 <= k
            < c.file_servers@[i].listeners@.len() implies listeners::setup_of(
        (#[trigger] c.file_servers@[i].listeners@[k]).source,
    ) is Ok by {
        let service = servers[i].children->0;
        assert(services::file_server_is(servers[i].name@, service, c.file_servers@[i]));
        lemma_listener_can_be_set_up(
            args::child(service, "listeners"@)->0.nodes@[k],
            c.file_servers@[i].listeners@[k],
        );
    }
}

/// Can the certificate authority validate the domain? It is a DNS name, a wildcard
/// is validated over DNS, and what is validated over DNS has a hook for it.
pub open spec fn can_be_validated(a: AcmeConfig, domain: Seq<char>) -> bool {
    let (challenge, hook) = a.challenge_of(domain);
    &&& store::served(domain) is Some
    &&& store::served(domain) matches Some((true, _)) ==> challenge == ChallengeKind::Dns01
    &&& challenge == ChallengeKind::Dns01 ==> hook is Some
}

proof fn lemma_managed(a: AcmeConfig, domains: Seq<Seq<char>>, span: Span, i: int)
    requires
        acme::managed_faults(a, domains, span) is None,
        0 <= i < domains.len(),
    ensures
        can_be_validated(a, domains[i]),
    decreases domains.len(),
{
    if i < domains.len() - 1 {
        lemma_managed(a, domains.drop_last(), span, i);
    }
}

/// Every domain that a listener has managed can be validated by the certificate
/// authority, whose terms of service the operator has accepted, and what is
/// obtained is kept in a place that does not depend on the working directory.
pub proof fn what_is_managed_can_be_validated(doc: Document, c: Config)
    requires
        services::is_reading(doc, Ok(c)),
        c.managed_domains().len() > 0,
    ensures
        c.acme is Some,
        c.acme->0.accept_terms_of_service,
        crate::config::internal::is_absolute_path(c.acme->0.store_dir@),
        forall|i: int|
            0 <= i < c.managed_domains().len() ==> can_be_validated(
                c.acme->0,
                #[trigger] c.managed_domains()[i],
            ),
{
    let span = services::acme_span(doc);
    let domains = c.managed_domains();
    assert(c.acme is Some);
    assert forall|i: int| 0 <= i < domains.len() implies can_be_validated(
        c.acme->0,
        #[trigger] domains[i],
    ) by {
        lemma_managed(c.acme->0, domains, span, i);
    }
}

/// Lines of a block with two next to each other that have different names.
pub open spec fn lines_with(front: Seq<Node>, a: Node, b: Node, back: Seq<Node>) -> Seq<Node> {
    front + seq![a, b] + back
}

proof fn lemma_swap_last_named(front: Seq<Node>, a: Node, b: Node, back: Seq<Node>, name: Seq<char>)
    requires
        a.name@ != b.name@,
    ensures
        document::last_named(lines_with(front, a, b, back), name) == document::last_named(
            lines_with(front, b, a, back),
            name,
        ),
    decreases back.len(),
{
    let one = lines_with(front, a, b, back);
    let other = lines_with(front, b, a, back);
    if back.len() > 0 {
        lemma_swap_last_named(front, a, b, back.drop_last(), name);
        assert(one.drop_last() == lines_with(front, a, b, back.drop_last()));
        assert(other.drop_last() == lines_with(front, b, a, back.drop_last()));
        assert(one.last() == back.last() && other.last() == back.last());
    } else {
        assert(one.drop_last() == front.push(a));
        assert(other.drop_last() == front.push(b));
        assert(front.push(a).drop_last() == front);
        assert(front.push(b).drop_last() == front);
        assert(one.last() == b && other.last() == a);
        assert(document::last_named(front.push(a), name) == if a.name@ == name {
            Some(a)
        } else {
            document::last_named(front, name)
        });
        assert(document::last_named(front.push(b), name) == if b.name@ == name {
            Some(b)
        } else {
            document::last_named(front, name)
        });
    }
}

/// The lines of a `normalization` block mean the same in any order: two lines about
/// different things can change places. That goes for `default` as well, which says
/// what holds for every check that is not named, wherever it stands.
pub proof fn normalization_lines_can_change_places(
    front: Seq<Node>,
    a: Node,
    b: Node,
    back: Seq<Node>,
    n: Normalization,
)
    requires
        a.name@ != b.name@,
    ensures
        settings::normalization_is(lines_with(front, a, b, back), n)
            == settings::normalization_is(lines_with(front, b, a, back), n),
{
    assert forall|name: Seq<char>| #[trigger] document::last_named(
        lines_with(front, a, b, back),
        name,
    ) == document::last_named(lines_with(front, b, a, back), name) by {
        lemma_swap_last_named(front, a, b, back, name);
    }
}

/// What a `connectors` block makes of a `load-balance` block, wherever that stands
/// among the other entries.
proof fn lemma_balance_within(rest: Seq<Node>, a: Node, at: int)
    requires
        a.name@ == "load-balance"@,
        document::last_named(rest, "load-balance"@) is None,
        0 <= at <= rest.len(),
    ensures
        document::last_named(rest.insert(at, a), "load-balance"@) == Some(a),
        connectors::sources(rest.insert(at, a)) == connectors::sources(rest),
        connectors::balance_fault(rest) is None,
        connectors::balance_fault(rest.insert(at, a)) == balancing::load_balance_fault(a),
    decreases rest.len(),
{
    let whole = rest.insert(at, a);
    if rest.len() > 0 {
        let front = rest.drop_last();
        if at < rest.len() {
            lemma_balance_within(front, a, at);
            assert(whole.drop_last() == front.insert(at, a));
            assert(whole.last() == rest.last());
        } else {
            lemma_balance_within(front, a, front.len() as int);
            assert(whole.drop_last() == rest);
            assert(whole.last() == a);
        }
    } else {
        assert(whole.drop_last() == rest);
        assert(whole.last() == a);
    }
}

/// An entry without a fault of its own makes no difference to which fault comes first.
proof fn lemma_faultless_within(
    rest: Seq<Node>,
    a: Node,
    at: int,
    check: spec_fn(Node) -> Option<args::Fault>,
)
    requires
        check(a) is None,
        0 <= at <= rest.len(),
    ensures
        args::first_fault(rest.insert(at, a), check) == args::first_fault(rest, check),
    decreases rest.len(),
{
    let whole = rest.insert(at, a);
    if at < rest.len() {
        lemma_faultless_within(rest.drop_last(), a, at, check);
        assert(whole.drop_last() == rest.drop_last().insert(at, a));
        assert(whole.last() == rest.last());
    } else {
        assert(whole.drop_last() == rest);
        assert(whole.last() == a);
    }
}

/// The `load-balance` block says the same about the servers beside it wherever it
/// stands among them: the same faults are found, and what is read is the same.
pub proof fn load_balance_can_stand_anywhere(
    rest: Seq<Node>,
    a: Node,
    i: int,
    k: int,
    before: Document,
    after: Document,
    route: RouteConfig,
)
    requires
        a.name@ == "load-balance"@,
        document::last_named(rest, "load-balance"@) is None,
        0 <= i <= rest.len(),
        0 <= k <= rest.len(),
        before.nodes@ == rest.insert(i, a),
        after.nodes@ == rest.insert(k, a),
        before.span == after.span,
    ensures
        connectors::connectors_fault(before) == connectors::connectors_fault(after),
        connectors::connectors_are(before, route.upstream_options, route.upstreams@)
            == connectors::connectors_are(after, route.upstream_options, route.upstreams@),
{
    lemma_balance_within(rest, a, i);
    lemma_balance_within(rest, a, k);
    let bounds = connectors::inherited(before.nodes@);
    assert(bounds == connectors::inherited(after.nodes@));
    lemma_faultless_within(rest, a, i, connectors::source_check(bounds));
    lemma_faultless_within(rest, a, k, connectors::source_check(bounds));
}

} // verus!
