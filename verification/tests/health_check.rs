//! What a health check does.
use river::config::internal::{Duration, HealthCheckKind, HealthCheckSettings};
use river::proxy::health_check::{build, Probe};

fn settings() -> HealthCheckSettings {
    HealthCheckSettings {
        frequency: Duration::from_secs(5),
        timeout: Duration::from_millis(250),
        consecutive_success: 2,
        consecutive_failure: 3,
        parallel: false,
    }
}

#[test]
fn no_health_check_builds_nothing() {
    assert!(build(HealthCheckKind::Off).is_none());
}

#[test]
fn thresholds_reach_the_check() {
    let check = build(HealthCheckKind::Tcp {
        settings: settings(),
        sni: None,
    })
    .unwrap();

    assert_eq!(check.health_threshold(true), 2);
    assert_eq!(check.health_threshold(false), 3);
    assert_eq!(check.connection_timeout, Duration::from_millis(250));
}

#[test]
fn an_http_check_builds_without_panicking() {
    let check = build(HealthCheckKind::Http {
        settings: settings(),
        host: "app.example.com".into(),
        path: "/healthz?full=1".into(),
        tls: true,
        expect_status: 204,
        port: Some(9000),
        reuse_connection: true,
    });

    assert!(check.is_some());
    let check = check.unwrap();
    assert!(check.accepts(204));
    assert!(!check.accepts(200));
    match check.probe {
        Probe::Http { path, port, .. } => {
            assert_eq!(path, "/healthz?full=1");
            assert_eq!(port, Some(9000));
        }
        _ => panic!("expected an HTTP probe"),
    }
}
