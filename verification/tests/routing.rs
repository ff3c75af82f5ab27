//! Which route claims a request.
use river::config::internal::{RequestSelector, RouteConfig, RouteMatch, UpstreamOptions};
use river::proxy::message::{RequestHead, RequestUri, Target};
use river::proxy::rate_limiting::RegexShim;
use river::proxy::routing::{route_name, Route, Routes};

fn prefix(path: &str) -> RouteMatch {
    RouteMatch::Prefix {
        path: path.to_string(),
    }
}

#[test]
fn a_prefix_stops_at_a_segment_boundary() {
    let m = prefix("/api");

    assert!(m.matches("/api"));
    assert!(m.matches("/api/"));
    assert!(m.matches("/api/users"));

    // The mistake this rules out: `/apiary` is not part of `/api`.
    assert!(!m.matches("/apiary"));
    assert!(!m.matches("/ap"));
    assert!(!m.matches("/"));
}

#[test]
fn a_prefix_that_already_ends_in_a_slash_still_matches() {
    let m = prefix("/api/");

    assert!(m.matches("/api/"));
    assert!(m.matches("/api/users"));
    assert!(!m.matches("/api"));
}

#[test]
fn an_exact_match_is_exact() {
    let m = RouteMatch::Exact {
        path: "/health".to_string(),
    };

    assert!(m.matches("/health"));
    assert!(!m.matches("/health/"));
    assert!(!m.matches("/health/live"));
}

#[test]
fn any_claims_everything() {
    assert!(RouteMatch::Any.matches("/"));
    assert!(RouteMatch::Any.matches("/anything/at/all"));
}

#[test]
fn a_regex_is_matched_against_the_path() {
    let m = RouteMatch::Regex {
        pattern: RegexShim::new(r"^/v\d+/").unwrap(),
    };

    assert!(m.matches("/v1/users"));
    assert!(m.matches("/v22/users"));
    assert!(!m.matches("/api/v1/users"));
}

/// The precedence order is the whole reason routing is predictable, so it
/// is worth pinning down rather than trusting the enum's declaration order.
#[test]
fn more_specific_routes_are_tried_first() {
    let mut matchers = vec![
        RouteMatch::Any,
        prefix("/api"),
        RouteMatch::Regex {
            pattern: RegexShim::new("^/r1").unwrap(),
        },
        RouteMatch::Exact {
            path: "/health".to_string(),
        },
        prefix("/api/v2"),
    ];

    matchers.sort_by_key(|m| m.precedence());

    assert_eq!(
        matchers,
        vec![
            RouteMatch::Exact {
                path: "/health".to_string()
            },
            // Longer prefix beats shorter
            prefix("/api/v2"),
            prefix("/api"),
            RouteMatch::Regex {
                pattern: RegexShim::new("^/r1").unwrap()
            },
            // The catch-all is always last
            RouteMatch::Any,
        ]
    );
}

fn route(matcher: RouteMatch, methods: &[&str], pool: usize) -> Route {
    Route::new(
        matcher,
        methods.iter().map(|m| m.to_string()).collect(),
        pool,
        RequestSelector::Null,
    )
}

fn asking(method: &str, path: &str) -> RequestHead {
    RequestHead {
        method: method.to_string(),
        uri: RequestUri {
            scheme: None,
            authority: None,
            target: Some(Target {
                path: path.to_string(),
                query: None,
            }),
        },
        headers: vec![],
    }
}

#[test]
fn routes_are_sorted_and_searched_in_order() {
    let routes = Routes::new(vec![
        route(RouteMatch::Any, &[], 0),
        route(prefix("/api"), &[], 1),
        route(
            RouteMatch::Regex {
                pattern: RegexShim::new("^/r").unwrap(),
            },
            &[],
            2,
        ),
        route(
            RouteMatch::Exact {
                path: "/api/v2".to_string(),
            },
            &["POST"],
            3,
        ),
        route(prefix("/api/v2"), &[], 4),
        route(
            RouteMatch::Regex {
                pattern: RegexShim::new("^/r1").unwrap(),
            },
            &[],
            5,
        ),
    ]);

    let order: Vec<usize> = routes.routes.iter().map(|r| r.pool).collect();
    assert_eq!(order, vec![3, 4, 1, 2, 5, 0]);

    assert_eq!(routes.find(&asking("POST", "/api/v2")).unwrap().pool, 3);
    assert_eq!(routes.find(&asking("GET", "/api/v2")).unwrap().pool, 4);
    assert_eq!(routes.find(&asking("GET", "/api/v1")).unwrap().pool, 1);
    // Both regular expressions match, and the one written first gets it
    assert_eq!(routes.find(&asking("GET", "/r1")).unwrap().pool, 2);
    assert_eq!(routes.find(&asking("GET", "/other")).unwrap().pool, 0);
}

#[test]
fn a_request_may_match_no_route() {
    let routes = Routes::new(vec![route(prefix("/api"), &["POST"], 0)]);
    assert!(routes.find(&asking("GET", "/api")).is_none());
    assert!(routes.find(&asking("POST", "/")).is_none());
}

#[test]
fn routes_are_named_after_what_they_match() {
    assert_eq!(route(RouteMatch::Any, &[], 0).name, "*");
    assert_eq!(route(prefix("/api"), &[], 0).name, "/api");
    assert_eq!(
        route(
            RouteMatch::Exact {
                path: "/health".to_string()
            },
            &[],
            0
        )
        .name,
        "=/health"
    );
    assert_eq!(
        route(
            RouteMatch::Regex {
                pattern: RegexShim::new("^/v").unwrap()
            },
            &[],
            0
        )
        .name,
        "~^/v"
    );
}

#[test]
fn the_name_of_a_route_says_how_it_matches() {
    let named = |matcher: RouteMatch| {
        route_name(&RouteConfig {
            matcher,
            methods: vec![],
            upstream_options: UpstreamOptions::default(),
            upstreams: vec![],
        })
    };
    assert_eq!(named(RouteMatch::Any), "*");
    assert_eq!(named(prefix("/api")), "/api");
    assert_eq!(
        named(RouteMatch::Exact {
            path: "/health".to_string()
        }),
        "=/health"
    );
    assert_eq!(
        named(RouteMatch::Regex {
            pattern: RegexShim::new("^/v[0-9]+/").unwrap()
        }),
        "~^/v[0-9]+/"
    );
}

#[test]
fn where_a_route_stands_does_not_matter() {
    let list = |order: &[usize]| {
        let all = [
            (prefix("/api"), 0),
            (prefix("/api/v2"), 1),
            (
                RouteMatch::Exact {
                    path: "/api/v2".to_string(),
                },
                2,
            ),
            (prefix("/"), 3),
        ];
        Routes::new(
            order
                .iter()
                .map(|i| route(all[*i].0.clone(), &[], all[*i].1))
                .collect(),
        )
    };
    let routes = [
        list(&[0, 1, 2, 3]),
        list(&[3, 2, 1, 0]),
        list(&[1, 3, 0, 2]),
    ];
    for (path, pool) in [
        ("/api/v2", 2),
        ("/api/v2/x", 1),
        ("/api/v20", 0),
        ("/apiary", 3),
    ] {
        for r in &routes {
            assert_eq!(r.find(&asking("GET", path)).unwrap().pool, pool, "{path}");
        }
    }
}
