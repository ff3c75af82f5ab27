//! What a TOML file comes to.
use river::config::internal::{self, PeerTemplate, RouteMatch, TlsName, UpstreamConfig};
use river::config::internal::{
    Normalization, OverloadConfig, RateLimitingConfig, Rejection, RequestModifierConfig,
    ResponseModifierConfig, RouteConfig, UpstreamKind, UpstreamOptions, ALPN,
};
use river::config::toml::{
    apply_toml, request_modifier_from_map, response_modifier_from_map, ConnectorConfig,
    FilterTable, ListenerConfig, ListenerKind, ListenerTlsConfig, PathControl, ProxyConfig,
    System, Toml,
};
use river::net::parse_socket_addr;
use river::proxy::rate_limiting::RegexShim;

fn table(entries: &[(&str, &str)]) -> FilterTable {
    entries
        .iter()
        .map(|(k, v)| (k.to_string(), v.to_string()))
        .collect()
}

#[test]
fn load_example() {
    let loaded = Toml {
        system: System {
            threads_per_service: 8,
        },
        basic_proxy: vec![],
    };
    assert_eq!(loaded.system, System::default());

    let def = internal::Config::default();
    let mut cfg = internal::Config::default();
    apply_toml(&mut cfg, loaded).unwrap();

    assert_eq!(format!("{def:?}"), format!("{cfg:?}"));
}

fn one_route(upstream: UpstreamConfig) -> Vec<RouteConfig> {
    vec![RouteConfig {
        matcher: RouteMatch::Any,
        methods: vec![],
        upstream_options: UpstreamOptions::default(),
        upstreams: vec![upstream],
    }]
}

const NO_ROUTE: Rejection = Rejection {
    status: 404,
    body: None,
};

#[test]
fn toml_load_test() {
    let loaded: Toml = Toml {
        system: System {
            threads_per_service: 8,
        },
        basic_proxy: vec![
            ProxyConfig {
                name: "Example1".into(),
                listeners: vec![
                    ListenerConfig {
                        source: ListenerKind::Tcp {
                            addr: "0.0.0.0:8080".into(),
                            tls: None,
                        },
                    },
                    ListenerConfig {
                        source: ListenerKind::Tcp {
                            addr: "0.0.0.0:4443".into(),
                            tls: Some(ListenerTlsConfig {
                                cert_path: "./assets/test.crt".into(),
                                key_path: "./assets/test.key".into(),
                            }),
                        },
                    },
                ],
                connector: ConnectorConfig {
                    proxy_addr: "91.107.223.4:443".into(),
                    tls_sni: Some(String::from("onevariable.com")),
                },
                path_control: PathControl {
                    upstream_request_filters: vec![
                        table(&[
                            ("kind", "remove-header-key-regex"),
                            ("pattern", ".*(secret|SECRET).*"),
                        ]),
                        table(&[
                            ("key", "x-proxy-friend"),
                            ("kind", "upsert-header"),
                            ("value", "river"),
                        ]),
                    ],
                    upstream_response_filters: vec![
                        table(&[
                            ("kind", "remove-header-key-regex"),
                            ("pattern", ".*ETag.*"),
                        ]),
                        table(&[
                            ("key", "x-with-love-from"),
                            ("kind", "upsert-header"),
                            ("value", "river"),
                        ]),
                    ],
                },
            },
            ProxyConfig {
                name: "Example2".into(),
                listeners: vec![ListenerConfig {
                    source: ListenerKind::Tcp {
                        addr: "0.0.0.0:8000".into(),
                        tls: None,
                    },
                }],
                connector: ConnectorConfig {
                    proxy_addr: "91.107.223.4:80".into(),
                    tls_sni: None,
                },
                path_control: PathControl {
                    upstream_request_filters: vec![],
                    upstream_response_filters: vec![],
                },
            },
        ],
    };

    let sys_snapshot = internal::Config {
        validate_configs: false,
        threads_per_service: 8,
        acme: None,
        basic_proxies: vec![
            internal::ProxyConfig {
                name: "Example1".into(),
                listeners: vec![
                    internal::ListenerConfig {
                        source: internal::ListenerKind::Tcp {
                            addr: "0.0.0.0:8080".into(),
                            tls: None,
                            offer_h2: false,
                        },
                    },
                    internal::ListenerConfig {
                        source: internal::ListenerKind::Tcp {
                            addr: "0.0.0.0:4443".into(),
                            tls: Some(internal::TlsConfig {
                                cert: Some(internal::CertKeyPaths {
                                    cert_path: "./assets/test.crt".into(),
                                    key_path: "./assets/test.key".into(),
                                }),
                                acme_domains: vec![],
                            }),
                            offer_h2: false,
                        },
                    },
                ],
                routes: one_route(UpstreamConfig {
                    kind: UpstreamKind::Static {
                        addr: parse_socket_addr("91.107.223.4:443").unwrap(),
                    },
                    peer: PeerTemplate {
                        tls: TlsName::Fixed("onevariable.com".into()),
                        alpn: ALPN::H2H1,
                        ..PeerTemplate::default()
                    },
                }),
                no_route: NO_ROUTE,
                client_ip: None,
                normalization: Normalization::default(),
                overload: OverloadConfig::default(),
                path_control: internal::PathControl {
                    upstream_request_filters: vec![
                        RequestModifierConfig::RemoveHeaderKeyRegex {
                            pattern: RegexShim::new(".*(secret|SECRET).*").unwrap(),
                        },
                        RequestModifierConfig::UpsertHeader {
                            key: "x-proxy-friend".to_string(),
                            value: b"river".to_vec(),
                        },
                    ],
                    upstream_response_filters: vec![
                        ResponseModifierConfig::RemoveHeaderKeyRegex {
                            pattern: RegexShim::new(".*ETag.*").unwrap(),
                        },
                        ResponseModifierConfig::UpsertHeader {
                            key: "x-with-love-from".to_string(),
                            value: b"river".to_vec(),
                        },
                    ],
                    ..internal::PathControl::default()
                },
                rate_limiting: RateLimitingConfig::default(),
            },
            internal::ProxyConfig {
                name: "Example2".into(),
                listeners: vec![internal::ListenerConfig {
                    source: internal::ListenerKind::Tcp {
                        addr: "0.0.0.0:8000".into(),
                        tls: None,
                        offer_h2: false,
                    },
                }],
                routes: one_route(UpstreamConfig {
                    kind: UpstreamKind::Static {
                        addr: parse_socket_addr("91.107.223.4:80").unwrap(),
                    },
                    peer: PeerTemplate::default(),
                }),
                no_route: NO_ROUTE,
                client_ip: None,
                normalization: Normalization::default(),
                overload: OverloadConfig::default(),
                path_control: internal::PathControl::default(),
                rate_limiting: RateLimitingConfig::default(),
            },
        ],
        file_servers: Vec::new(),
        daemonize: false,
        pid_file: None,
        upgrade_socket: None,
        upgrade: false,
    };

    let mut cfg = internal::Config::default();
    apply_toml(&mut cfg, loaded).unwrap();

    assert_eq!(format!("{sys_snapshot:?}"), format!("{cfg:?}"));
}

#[test]
fn a_filter_that_makes_no_sense_is_named() {
    let cases: &[(&[(&str, &str)], &str)] = &[
        (&[("key", "a")], "a path control filter must have a 'kind'"),
        (
            &[("kind", "remove-header-key-regex")],
            "'remove-header-key-regex' needs a 'pattern'",
        ),
        (
            &[("kind", "remove-header-key-regex"), ("pattern", "([")],
            "'([' is not a valid regular expression",
        ),
        (
            &[
                ("kind", "remove-header-key-regex"),
                ("paterns", "x"),
                ("pattern", "x"),
                ("zeal", "x"),
            ],
            "Unknown path control filter setting(s): paterns, zeal",
        ),
        (&[("kind", "upsert-header")], "'upsert-header' needs a 'key'"),
        (
            &[("key", "a"), ("kind", "upsert-header")],
            "'upsert-header' needs a 'value'",
        ),
        (
            &[("key", "a b"), ("kind", "upsert-header"), ("value", "x")],
            "'a b' is not a valid HTTP header name",
        ),
        (
            &[("key", "a"), ("kind", "upsert-header"), ("value", "x\n")],
            "'x\n' is not a valid HTTP header value",
        ),
        (
            &[("kind", "drop-it")],
            "'drop-it' is not an upstream request filter. Use 'remove-header-key-regex' or 'upsert-header'.",
        ),
    ];
    for (entries, words) in cases {
        assert_eq!(
            request_modifier_from_map(&table(entries)).unwrap_err(),
            *words
        );
    }
    assert_eq!(
        response_modifier_from_map(&table(&[("kind", "drop-it")])).unwrap_err(),
        "'drop-it' is not an upstream response filter. Use 'remove-header-key-regex' or 'upsert-header'."
    );
}

#[test]
fn a_connector_must_be_an_address() {
    let bad = ConnectorConfig {
        proxy_addr: "example.com:80".into(),
        tls_sni: None,
    };
    assert_eq!(
        bad.upstream().unwrap_err(),
        "'example.com:80' is not an 'IP:port' socket address. To name upstream servers by \
         hostname, use the KDL configuration format."
    );
}

#[test]
fn what_the_format_has_no_words_for_is_at_its_default() {
    let proxy = ProxyConfig {
        name: "one".into(),
        listeners: vec![],
        connector: ConnectorConfig {
            proxy_addr: "10.0.0.1:80".into(),
            tls_sni: None,
        },
        path_control: PathControl::default(),
    }
    .proxy()
    .unwrap();
    assert!(proxy.overload.is_noop());
    assert_eq!(
        proxy.overload.rejection,
        Rejection {
            status: 503,
            body: None
        }
    );
    assert_eq!(proxy.no_route, NO_ROUTE);
    assert_eq!(proxy.normalization.rejection.status, 400);
    assert!(proxy.client_ip.is_none());
}
