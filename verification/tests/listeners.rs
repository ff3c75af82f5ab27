//! What listeners are set up as.
use river::config::internal::{CertKeyPaths, ListenerConfig, ListenerKind, TlsConfig};
use river::listeners::{populate_listners, Setup, SetupError};

fn tcp(addr: &str, tls: Option<TlsConfig>, offer_h2: bool) -> ListenerConfig {
    ListenerConfig {
        source: ListenerKind::Tcp {
            addr: addr.to_string(),
            tls,
            offer_h2,
        },
    }
}

fn tls(cert: bool, domains: &[&str]) -> Option<TlsConfig> {
    Some(TlsConfig {
        cert: cert.then_some(paths()),
        acme_domains: domains.iter().map(|d| d.to_string()).collect(),
    })
}

fn paths() -> CertKeyPaths {
    CertKeyPaths {
        cert_path: "/a.crt".to_string(),
        key_path: "/a.key".to_string(),
    }
}

#[test]
fn each_listener_is_set_up_by_what_it_is_given() {
    let listeners = vec![
        tcp("0.0.0.0:80", None, false),
        tcp("0.0.0.0:443", tls(true, &[]), true),
        tcp("0.0.0.0:444", tls(false, &["example.com"]), false),
        tcp("0.0.0.0:445", tls(true, &["example.com"]), true),
        ListenerConfig {
            source: ListenerKind::Uds("/run/river.sock".to_string()),
        },
    ];
    assert_eq!(
        populate_listners(listeners).unwrap(),
        vec![
            Setup::Tcp {
                addr: "0.0.0.0:80".to_string()
            },
            Setup::FixedTls {
                addr: "0.0.0.0:443".to_string(),
                cert: paths(),
                offer_h2: true
            },
            Setup::ManagedTls {
                addr: "0.0.0.0:444".to_string(),
                fallback: None,
                offer_h2: false
            },
            Setup::ManagedTls {
                addr: "0.0.0.0:445".to_string(),
                fallback: Some(paths()),
                offer_h2: true
            },
            Setup::Uds {
                path: "/run/river.sock".to_string()
            },
        ]
    );
}

#[test]
fn the_first_listener_that_makes_no_sense_is_told_of() {
    let listeners = vec![
        tcp("0.0.0.0:80", None, false),
        tcp("0.0.0.0:443", tls(false, &[]), false),
        tcp("0.0.0.0:81", None, true),
    ];
    assert_eq!(
        populate_listners(listeners).unwrap_err(),
        SetupError::NoCertificate("0.0.0.0:443".to_string())
    );

    let error = populate_listners(vec![tcp("0.0.0.0:81", None, true)]).unwrap_err();
    assert_eq!(
        error.to_text(),
        "Unsupported configuration: \"0.0.0.0:81\" configured without TLS, but H2 enabled which requires TLS"
    );
    assert_eq!(
        SetupError::NoCertificate("x".to_string()).to_text(),
        "a TLS listener has a certificate or ACME domains"
    );
}
