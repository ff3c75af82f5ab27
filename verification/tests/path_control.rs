//! A service from its configuration to what reaches the upstream servers.
use river::acme::http01::ChallengeStore;
use river::config::internal::{Rejection, RequestSelector, UpstreamKind};
use river::config::kdl::services::parse_config;
use river::net::{parse_ip, IpAddr};
use river::proxy::buckets::{Bucket, Outcome, Rate, RateLimiters};
use river::proxy::headers::Headers;
use river::proxy::message::{RequestHead, RequestUri, ResponseHead, Target};
use river::proxy::overload::Overload;
use river::proxy::{
    logging, river_proxy_service, selection_key, Admission, Handling, PoolPlan,
    RiverContext,
    RiverProxyService,
};

/// A service with one upstream and whatever extra configuration a test needs
fn config(extra: &str) -> String {
    format!(
        r#"
system {{
    threads-per-service 2
}}

services {{
    Test {{
        listeners {{
            "127.0.0.1:8080"
        }}
        connectors {{
            "127.0.0.1:9000"
        }}
{extra}
    }}
}}
"#
    )
}

/// What one request looked like by the time it reached an upstream server
struct Seen {
    port: u16,
    head: RequestHead,
}

impl Seen {
    fn target(&self) -> String {
        let target = self.head.uri.target.as_ref().unwrap();
        match &target.query {
            Some(q) => format!("{}?{q}", target.path),
            None => target.path.clone(),
        }
    }

    fn header(&self, name: &str) -> Option<String> {
        find(&self.head.headers, name)
    }
}

fn find(headers: &[river::proxy::message::Header], name: &str) -> Option<String> {
    headers
        .iter()
        .find(|h| h.name == name)
        .map(|h| String::from_utf8(h.value.clone()).unwrap())
}

/// What a client gets back
struct Response {
    status: u16,
    headers: Vec<river::proxy::message::Header>,
    body: String,
}

/// A service, with everything that happens to a request on its way through
struct River {
    service: RiverProxyService,
    overload: Option<Overload>,
    limiters: RateLimiters,
    now: u128,
    pools: Vec<PoolPlan>,
    peer: IpAddr,
    body: String,
    seen: Vec<Seen>,
}

fn refused(r: Rejection) -> Response {
    Response {
        status: r.status,
        headers: vec![],
        body: r.body.unwrap_or_default(),
    }
}

/// Reads a request as it would stand on the wire
fn read(raw: &str) -> (RequestHead, usize) {
    let (head, body) = raw.split_once("\r\n\r\n").unwrap();
    let mut lines = head.split("\r\n");
    let mut first = lines.next().unwrap().split(' ');
    let method = first.next().unwrap().to_string();
    let target = first.next().unwrap();
    let (path, query) = match target.split_once('?') {
        Some((p, q)) => (p.to_string(), Some(q.to_string())),
        None => (target.to_string(), None),
    };
    let mut out = RequestHead {
        method,
        uri: RequestUri {
            scheme: None,
            authority: None,
            target: Some(Target { path, query }),
        },
        headers: vec![],
    };
    for line in lines {
        let (name, value) = line.split_once(':').unwrap();
        out.append(&name.to_lowercase(), value.trim().as_bytes());
    }
    (out, body.len())
}

impl River {
    fn start_with(document: &str, body: &str) -> Self {
        let mut config = parse_config(document).unwrap();
        let plan = river_proxy_service(config.basic_proxies.remove(0), 0);
        River {
            service: plan.service,
            overload: plan.overload,
            limiters: plan.rate_limiters,
            now: 0,
            pools: plan.pools,
            peer: parse_ip("127.0.0.1").unwrap(),
            body: body.to_string(),
            seen: vec![],
        }
    }

    fn get(&mut self, target: &str) -> Response {
        self.raw(&format!(
            "GET {target} HTTP/1.1\r\nHost: example.com\r\nConnection: close\r\n\r\n"
        ))
    }

    fn raw(&mut self, request: &str) -> Response {
        let (mut head, sent) = read(request);
        let mut ctx = RiverContext::new();
        let response = self.handle(&mut ctx, &mut head, sent);
        logging(&mut ctx, &mut self.overload);
        assert_eq!(self.overload.as_ref().map_or(0, |o| o.in_flight()), 0);
        response
    }

    fn handle(&mut self, ctx: &mut RiverContext, head: &mut RequestHead, sent: usize) -> Response {
        match self.service.handle_request(
            ctx,
            head,
            Some(self.peer),
            None,
            &mut self.overload,
            &mut self.limiters,
            self.now,
        ) {
            Handling::Forward => {}
            Handling::Malformed(r) | Handling::Shed(r) | Handling::Refused(r) => return refused(r),
            Handling::Challenge(_) => unreachable!(),
        }
        let route = self.service.upstream_route(head).unwrap();
        let port = match self.pools[route.pool].upstreams[0].kind {
            UpstreamKind::Static { addr } => addr.port,
            _ => unreachable!(),
        };
        let mut outgoing = head.clone();
        self.service.upstream_request_filter(&mut outgoing);
        self.seen.push(Seen {
            port,
            head: outgoing,
        });
        if let Err(status) = self.service.request_body_filter(ctx, Some(sent)) {
            return refused(Rejection { status, body: None });
        }
        let mut answer = ResponseHead {
            status: 200,
            headers: vec![],
        };
        answer.append("etag", b"\"abc\"");
        self.service.upstream_response_filter(&mut answer);
        self.service.response_filter(&mut answer);
        match self
            .service
            .response_body_filter(ctx, Some(self.body.len()))
        {
            Ok(()) => Response {
                status: answer.status,
                headers: answer.headers,
                body: self.body.clone(),
            },
            Err(status) => refused(Rejection { status, body: None }),
        }
    }

    /// The one request that reached an upstream server
    fn only_request(&self) -> &Seen {
        assert_eq!(self.seen.len(), 1);
        &self.seen[0]
    }
}

fn start(extra: &str) -> River {
    River::start_with(&config(extra), "upstream\n")
}

#[test]
fn a_request_reaches_the_upstream_unchanged() {
    let mut river = start("");

    let response = river.get("/api/users");

    assert_eq!(response.status, 200);
    assert_eq!(response.body, "upstream\n");
    assert_eq!(river.only_request().target(), "/api/users");
}

#[test]
fn a_traversal_is_resolved_before_the_upstream_sees_it() {
    let mut river = start("");

    let response = river.get("/static/../admin");

    assert_eq!(response.status, 200);
    // The whole reason normalization exists: the upstream server is asked for
    // the path River decided on, not the one the client wrote.
    assert_eq!(river.only_request().target(), "/admin");
}

#[test]
fn an_encoded_traversal_is_resolved_too() {
    let mut river = start("");

    assert_eq!(river.get("/static/%2E%2E/admin").status, 200);
    assert_eq!(river.only_request().target(), "/admin");
}

#[test]
fn path_control_duplicate_slashes_are_collapsed() {
    let mut river = start("");

    assert_eq!(river.get("/a//b///c").status, 200);
    assert_eq!(river.only_request().target(), "/a/b/c");
}

#[test]
fn the_query_goes_through_as_it_came() {
    let mut river = start("");

    assert_eq!(river.get("/a/../b?c=/../%2e").status, 200);
    assert_eq!(river.only_request().target(), "/b?c=/../%2e");
}

#[test]
fn an_encoded_separator_is_refused() {
    let mut river = start("");

    assert_eq!(river.get("/a%2Fb").status, 400);
    assert!(
        river.seen.is_empty(),
        "a refused request must not reach the upstream"
    );
}

#[test]
fn climbing_above_the_root_is_refused() {
    let mut river = start("");

    assert_eq!(river.get("/../etc/passwd").status, 400);
    assert!(river.seen.is_empty());
}

#[test]
fn a_request_without_a_host_is_refused() {
    let mut river = start("");

    let response = river.raw("GET / HTTP/1.1\r\nConnection: close\r\n\r\n");

    assert_eq!(response.status, 400);
    assert!(river.seen.is_empty());
}

#[test]
fn two_host_headers_are_refused() {
    let mut river = start("");

    // River and the upstream server could otherwise disagree about which site
    // was asked for.
    let response = river.raw(
        "GET / HTTP/1.1\r\nHost: example.com\r\nHost: evil.example\r\nConnection: close\r\n\r\n",
    );

    assert_eq!(response.status, 400);
    assert!(river.seen.is_empty());
}

#[test]
fn a_check_that_is_turned_off_stops_refusing() {
    let mut river = start(
        r#"
        normalization {
            encoded-separators false
            percent-encoding false
        }
        "#,
    );

    assert_eq!(river.get("/a%2Fb").status, 200);
    assert_eq!(river.only_request().target(), "/a%2Fb");
}

#[test]
fn the_normalization_answer_can_be_chosen() {
    let mut river = start(
        r#"
        normalization {
            status 422
            body "nope\n"
        }
        "#,
    );

    let response = river.get("/a%2Fb");
    assert_eq!(response.status, 422);
    assert_eq!(response.body, "nope\n");
}

#[test]
fn a_blocked_range_is_refused_with_the_configured_answer() {
    let mut river = start(
        r#"
        path-control {
            request-filters {
                filter kind="block-cidr-range" addrs="127.0.0.0/8" status=403 body="denied\n"
            }
        }
        "#,
    );

    let response = river.get("/");

    assert_eq!(response.status, 403);
    assert_eq!(response.body, "denied\n");
    assert!(river.seen.is_empty());
}

#[test]
fn an_allow_list_refuses_what_it_does_not_name() {
    let mut river = start(
        r#"
        path-control {
            request-filters {
                filter kind="allow-cidr-range" addrs="10.0.0.0/8"
            }
        }
        "#,
    );

    // The test client is on loopback, which the allow list does not name.
    assert_eq!(river.get("/").status, 403);
    assert!(river.seen.is_empty());
}

#[test]
fn an_allow_list_admits_what_it_names() {
    let mut river = start(
        r#"
        path-control {
            request-filters {
                filter kind="allow-cidr-range" addrs="127.0.0.0/8"
            }
        }
        "#,
    );

    assert_eq!(river.get("/").status, 200);
    assert_eq!(river.seen.len(), 1);
}

#[test]
fn an_untrusted_peer_cannot_forge_its_address() {
    let mut river = start(
        r#"
        client-ip {
            // Loopback is deliberately NOT trusted here, so the header below
            // must be ignored.
            trusted-proxies "10.0.0.0/8"
        }
        path-control {
            request-filters {
                filter kind="block-cidr-range" addrs="127.0.0.0/8"
            }
        }
        "#,
    );

    // A client claiming to be somewhere else must not escape the deny list.
    let response = river.raw(
        "GET / HTTP/1.1\r\nHost: example.com\r\nX-Forwarded-For: 10.1.2.3\r\nConnection: close\r\n\r\n",
    );

    assert_eq!(response.status, 403);
    assert!(river.seen.is_empty());
}

#[test]
fn path_control_a_trusted_peer_hands_over_the_forwarded_address() {
    let mut river = start(
        r#"
        client-ip {
            trusted-proxies "127.0.0.0/8"
        }
        path-control {
            request-filters {
                // The connection is from loopback, but the forwarded address
                // is what the filter must judge.
                filter kind="block-cidr-range" addrs="203.0.113.0/24"
            }
        }
        "#,
    );

    let blocked = river.raw(
        "GET / HTTP/1.1\r\nHost: example.com\r\nX-Forwarded-For: 203.0.113.9\r\nConnection: close\r\n\r\n",
    );
    assert_eq!(blocked.status, 403);

    let allowed = river.raw(
        "GET / HTTP/1.1\r\nHost: example.com\r\nX-Forwarded-For: 198.51.100.4\r\nConnection: close\r\n\r\n",
    );
    assert_eq!(allowed.status, 200);
    assert_eq!(river.seen.len(), 1);
}

#[test]
fn headers_are_added_and_removed_on_the_way_out() {
    let mut river = start(
        r#"
        path-control {
            upstream-request {
                filter kind="remove-header-key-glob" pattern="x-internal-*"
                filter kind="remove-header" key="x-drop-me"
                filter kind="upsert-header" key="x-proxy-friend" value="river"
            }
        }
        "#,
    );

    let response = river.raw(
        "GET / HTTP/1.1\r\nHost: example.com\r\nX-Internal-Trace: abc\r\n\
         X-Drop-Me: yes\r\nX-Keep: yes\r\nConnection: close\r\n\r\n",
    );
    assert_eq!(response.status, 200);

    let seen = river.only_request();
    assert!(
        seen.header("x-internal-trace").is_none(),
        "glob should have removed it"
    );
    assert!(
        seen.header("x-drop-me").is_none(),
        "exact removal should have taken it"
    );
    assert_eq!(seen.header("x-keep").as_deref(), Some("yes"));
    assert_eq!(seen.header("x-proxy-friend").as_deref(), Some("river"));
}

#[test]
fn response_headers_are_changed_on_the_way_back() {
    let mut river = start(
        r#"
        path-control {
            upstream-response {
                filter kind="remove-header-key-regex" pattern="(?i)^etag$"
            }
            response-filters {
                filter kind="upsert-header" key="x-served-by" value="river"
            }
        }
        "#,
    );

    let response = river.get("/");

    assert_eq!(response.status, 200);
    assert!(
        find(&response.headers, "etag").is_none(),
        "the upstream sent an ETag and it should have been removed"
    );
    assert_eq!(
        find(&response.headers, "x-served-by").as_deref(),
        Some("river")
    );
}

#[test]
fn a_declared_oversize_body_is_refused_before_it_is_read() {
    let mut river = start(
        r#"
        path-control {
            request-body {
                filter kind="max-size" max-bytes=16
            }
        }
        "#,
    );

    let response = river.raw(
        "POST / HTTP/1.1\r\nHost: example.com\r\nContent-Length: 100\r\nConnection: close\r\n\r\n",
    );

    assert_eq!(response.status, 413);
    assert!(river.seen.is_empty());
}

#[test]
fn a_body_within_the_limit_is_proxied() {
    let mut river = start(
        r#"
        path-control {
            request-body {
                filter kind="max-size" max-bytes=16
            }
        }
        "#,
    );

    let response = river.raw(
        "POST / HTTP/1.1\r\nHost: example.com\r\nContent-Length: 5\r\nConnection: close\r\n\r\nhello",
    );

    assert_eq!(response.status, 200);
    assert_eq!(river.only_request().head.method, "POST");
}

#[test]
fn a_body_that_declares_nothing_is_counted_as_it_comes() {
    let mut river = start(
        r#"
        path-control {
            request-body {
                filter kind="max-size" max-bytes=4
            }
        }
        "#,
    );
    let response =
        river.raw("POST / HTTP/1.1\r\nHost: example.com\r\nConnection: close\r\n\r\nhello");
    assert_eq!(response.status, 413);
}

const API: u16 = 9001;
const REST: u16 = 9002;

fn routed() -> River {
    let document = format!(
        r#"
system {{
    threads-per-service 2
}}

services {{
    Test {{
        listeners {{
            "127.0.0.1:8080"
        }}
        routes {{
            no-route status=404 body="no route\n"

            route "/healthz" match="exact" {{
                connectors {{
                    "127.0.0.1:{API}"
                }}
            }}
            route "/api" {{
                connectors {{
                    "127.0.0.1:{API}"
                }}
            }}
            route "/upload" methods="POST" {{
                connectors {{
                    "127.0.0.1:{REST}"
                }}
            }}
        }}
    }}
}}
"#
    );
    River::start_with(&document, "upstream\n")
}

#[test]
fn routes_send_requests_to_different_upstreams() {
    let mut river = routed();

    assert_eq!(river.get("/api/users").status, 200);
    assert_eq!(river.only_request().target(), "/api/users");
    assert_eq!(river.only_request().port, API);

    let posted = river.raw(
        "POST /upload HTTP/1.1\r\nHost: example.com\r\nContent-Length: 0\r\nConnection: close\r\n\r\n",
    );
    assert_eq!(posted.status, 200);
    assert_eq!(river.seen[1].target(), "/upload");
    assert_eq!(river.seen[1].port, REST);
}

#[test]
fn a_request_matching_no_route_gets_the_configured_answer() {
    let mut river = routed();

    let response = river.get("/nothing/here");

    assert_eq!(response.status, 404);
    assert_eq!(response.body, "no route\n");
    assert!(river.seen.is_empty());
}

#[test]
fn a_method_that_a_route_does_not_take_falls_through() {
    let mut river = routed();

    // /upload is POST-only, and no other route claims it, so a GET is a
    // no-route rather than a request sent to the wrong server.
    assert_eq!(river.get("/upload").status, 404);
    assert!(river.seen.is_empty());
}

#[test]
fn an_exact_route_wins_over_a_prefix() {
    let mut river = routed();

    assert_eq!(river.get("/healthz").status, 200);
    assert_eq!(river.only_request().target(), "/healthz");
    assert_eq!(river.only_request().port, API);
}

#[test]
fn a_request_header_over_the_limit_is_shed() {
    let mut river = start(
        r#"
        overload {
            max-headers 3
        }
        "#,
    );

    let response = river.raw(
        "GET / HTTP/1.1\r\nHost: example.com\r\nA: 1\r\nB: 2\r\nC: 3\r\nD: 4\r\n\
         Connection: close\r\n\r\n",
    );

    assert_eq!(response.status, 503);
    assert!(river.seen.is_empty());
}

#[test]
fn a_request_within_the_header_limit_is_proxied() {
    let mut river = start(
        r#"
        overload {
            max-headers 32
        }
        "#,
    );

    assert_eq!(river.get("/").status, 200);
    assert_eq!(river.seen.len(), 1);
}

#[test]
fn an_oversize_response_body_does_not_arrive_in_full() {
    let body = "x".repeat(8192);
    let mut river = River::start_with(
        &config(
            r#"
        path-control {
            response-body {
                filter kind="max-size" max-bytes=64
            }
        }
        "#,
        ),
        &body,
    );

    let response = river.get("/");

    assert!(
        response.body.len() < body.len(),
        "expected the body not to arrive in full, got {} of {} bytes",
        response.body.len(),
        body.len()
    );
    assert!(
        response.status == 502 || response.status == 200,
        "expected either the configured status or a truncated success, got {}",
        response.status
    );
}

#[test]
fn requests_past_the_concurrency_limit_are_shed_until_one_ends() {
    let mut river = start(
        r#"
        overload {
            max-concurrent-requests 1
        }
        "#,
    );
    let arrive = |river: &mut River, ctx: &mut RiverContext| {
        let (mut head, _) = read("GET / HTTP/1.1\r\nHost: example.com\r\n\r\n");
        let peer = Some(river.peer);
        river
            .service
            .request_arrival(ctx, &mut head, peer, None, &mut river.overload)
    };
    let mut first = RiverContext::new();
    let mut second = RiverContext::new();
    assert!(matches!(arrive(&mut river, &mut first), Admission::Go));
    assert!(first.holds_slot);
    match arrive(&mut river, &mut second) {
        Admission::Shed(r) => assert_eq!(r.status, 503),
        _ => panic!("expected the second request to be shed"),
    }
    assert!(!second.holds_slot);
    logging(&mut second, &mut river.overload);
    logging(&mut first, &mut river.overload);
    assert!(matches!(arrive(&mut river, &mut second), Admission::Go));
}

#[test]
fn a_challenge_is_answered_before_anything_can_turn_it_away() {
    let mut river = start(
        r#"
        overload {
            max-headers 0
        }
        path-control {
            request-filters {
                filter kind="block-cidr-range" addrs="0.0.0.0/0"
            }
        }
        "#,
    );
    let mut store = ChallengeStore::new();
    store.insert("tok".into(), "tok.thumb".into());
    let (mut head, _) = read(
        "GET /.well-known//acme-challenge/x/../tok HTTP/1.1\r\nHost: example.com\r\n\r\n",
    );
    let mut ctx = RiverContext::new();
    let peer = Some(river.peer);
    match river
        .service
        .request_arrival(&mut ctx, &mut head, peer, Some(&store), &mut river.overload)
    {
        Admission::Challenge(reply) => assert_eq!(reply.body, "tok.thumb"),
        _ => panic!("expected the challenge to be answered"),
    }
}

#[test]
fn each_stage_sees_only_what_the_ones_before_it_let_through() {
    let mut river = start(
        r#"
        overload {
            max-concurrent-requests 1
        }
        rate-limiting {
            rule kind="source-ip" \
                max-buckets=10 tokens-per-bucket=1 refill-qty=1 refill-rate-ms=60000
        }
        path-control {
            request-filters {
                filter kind="block-cidr-range" addrs="10.0.0.0/8"
            }
        }
        "#,
    );
    let mut store = ChallengeStore::new();
    store.insert("tok".into(), "tok.thumb".into());
    let handle = |river: &mut River, ctx: &mut RiverContext, target: &str, peer: &str| {
        let (mut head, _) = read(&format!("GET {target} HTTP/1.1\r\nHost: example.com\r\n\r\n"));
        let peer = parse_ip(peer);
        river.service.handle_request(
            ctx,
            &mut head,
            peer,
            Some(&store),
            &mut river.overload,
            &mut river.limiters,
            0,
        )
    };
    let statuses = |handling: Handling| match handling {
        Handling::Malformed(r) => ("malformed", r.status),
        Handling::Challenge(reply) => ("challenge", reply.head.status),
        Handling::Shed(r) => ("shed", r.status),
        Handling::Refused(r) => ("refused", r.status),
        Handling::Forward => ("forward", 0),
    };

    let mut first = RiverContext::new();
    assert_eq!(statuses(handle(&mut river, &mut first, "/a", "127.0.0.1")), ("forward", 0));
    assert!(first.holds_slot && first.route.is_some());

    // While that one is in flight: malformed and challenges come before the limit
    let mut other = RiverContext::new();
    assert_eq!(
        statuses(handle(&mut river, &mut other, "/../a", "127.0.0.1")),
        ("malformed", 400)
    );
    let challenge = "/.well-known/acme-challenge/tok";
    assert_eq!(
        statuses(handle(&mut river, &mut other, challenge, "10.0.0.1")),
        ("challenge", 200)
    );
    assert_eq!(statuses(handle(&mut river, &mut other, "/a", "127.0.0.1")), ("shed", 503));
    assert!(!other.holds_slot && other.route.is_none());

    // Being shed took no token from the second client
    logging(&mut first, &mut river.overload);
    let mut second = RiverContext::new();
    assert_eq!(statuses(handle(&mut river, &mut second, "/a", "10.0.0.1")), ("refused", 403));
    // What is refused holds a slot until it is done with
    assert!(second.holds_slot && second.route.is_none());
    logging(&mut second, &mut river.overload);
    // The limiters are asked before the filters
    assert_eq!(statuses(handle(&mut river, &mut second, "/a", "10.0.0.1")), ("refused", 429));
    logging(&mut second, &mut river.overload);
    assert_eq!(statuses(handle(&mut river, &mut first, "/a", "127.0.0.1")), ("refused", 429));
}

#[test]
fn a_source_ip_rate_limit_eventually_says_no() {
    let mut river = start(
        r#"
        rate-limiting {
            rule kind="source-ip" \
                max-buckets=10 tokens-per-bucket=3 refill-qty=1 refill-rate-ms=60000
        }
        "#,
    );

    // Three tokens, and a refill a minute away, so the fourth request has
    // nothing to take.
    for i in 0..3 {
        assert_eq!(river.get("/").status, 200, "request {i} should be allowed");
    }
    assert_eq!(river.get("/").status, 429);
}

#[test]
fn tokens_come_back_with_time_and_belong_to_one_client() {
    let mut river = start(
        r#"
        rate-limiting {
            rule kind="source-ip" \
                max-buckets=10 tokens-per-bucket=2 refill-qty=1 refill-rate-ms=1000
        }
        "#,
    );
    assert_eq!(river.get("/").status, 200);
    assert_eq!(river.get("/").status, 200);
    assert_eq!(river.get("/").status, 429);

    river.peer = parse_ip("127.0.0.2").unwrap();
    assert_eq!(river.get("/").status, 200);

    river.peer = parse_ip("127.0.0.1").unwrap();
    river.now = 999;
    assert_eq!(river.get("/").status, 429);
    river.now = 1000;
    assert_eq!(river.get("/").status, 200);
    assert_eq!(river.get("/").status, 429);

    // However long it takes, there are never more than two.
    river.now = 1_000_000;
    assert_eq!(river.get("/").status, 200);
    assert_eq!(river.get("/").status, 200);
    assert_eq!(river.get("/").status, 429);
}

#[test]
fn uri_rules_limit_only_what_they_match() {
    let mut river = start(
        r#"
        rate-limiting {
            rule kind="specific-uri" pattern="static/.*" \
                max-buckets=10 tokens-per-bucket=1 refill-qty=1 refill-rate-ms=1000
            rule kind="any-matching-uri" pattern=r".*\.mp4" \
                tokens-per-bucket=1 refill-qty=1 refill-rate-ms=1000
        }
        "#,
    );
    // One bucket for each path
    assert_eq!(river.get("/static/a").status, 200);
    assert_eq!(river.get("/static/b").status, 200);
    assert_eq!(river.get("/static/a").status, 429);
    // One bucket for all of them
    assert_eq!(river.get("/one.mp4").status, 200);
    assert_eq!(river.get("/two.mp4").status, 429);
    // None at all
    for _ in 0..5 {
        assert_eq!(river.get("/other").status, 200);
    }
}

#[test]
fn a_bucket_that_was_not_used_for_long_makes_room() {
    let mut river = start(
        r#"
        rate-limiting {
            rule kind="source-ip" \
                max-buckets=2 tokens-per-bucket=1 refill-qty=1 refill-rate-ms=60000
        }
        "#,
    );
    for (peer, status) in [
        ("10.0.0.1", 200),
        ("10.0.0.2", 200),
        ("10.0.0.1", 429),
        ("10.0.0.3", 200),
        // The second has been forgotten, and not the first
        ("10.0.0.1", 429),
        ("10.0.0.2", 200),
    ] {
        river.peer = parse_ip(peer).unwrap();
        assert_eq!(river.get("/").status, status, "{peer}");
    }
}

#[test]
fn a_token_that_was_taken_is_gone_though_the_request_is_declined() {
    let mut river = start(
        r#"
        rate-limiting {
            rule kind="any-matching-uri" pattern="/" \
                tokens-per-bucket=2 refill-qty=1 refill-rate-ms=60000
            rule kind="source-ip" \
                max-buckets=2 tokens-per-bucket=1 refill-qty=1 refill-rate-ms=60000
        }
        "#,
    );
    assert_eq!(river.get("/").status, 200);
    // Takes the second token of the shared bucket, and gets none of its own
    assert_eq!(river.get("/").status, 429);
    river.peer = parse_ip("10.0.0.2").unwrap();
    assert_eq!(river.get("/").status, 429);
}

#[test]
fn nothing_is_declined_where_tokens_come_back_at_once() {
    let mut bucket = Bucket::new(
        &Rate {
            max: 1,
            every: 0,
            qty: 1,
        },
        5,
    );
    let rate = Rate {
        max: 1,
        every: 0,
        qty: 1,
    };
    assert_eq!(bucket.take(&rate, 5), Outcome::Approved);
    assert_eq!(bucket.take(&rate, 5), Outcome::Approved);
    assert_eq!(bucket.tokens, 0);
}

#[test]
fn the_selection_key_follows_the_selector() {
    let (head, _) = read("GET /a?b HTTP/1.1\r\nHost: example.com\r\n\r\n");
    assert_eq!(
        selection_key(RequestSelector::Null, "10.0.0.1", &head),
        b"".to_vec()
    );
    assert_eq!(
        selection_key(RequestSelector::UriPath, "10.0.0.1", &head),
        b"/a".to_vec()
    );
    assert_eq!(
        selection_key(RequestSelector::SourceAddrAndUriPath, "10.0.0.1", &head),
        b"10.0.0.1/a".to_vec()
    );
}
