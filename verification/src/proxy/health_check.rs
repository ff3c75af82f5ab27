//! What a health check does, worked out from the configuration.
//!
//! A server that fails its check is left out of selection until it recovers.
use crate::config::internal::{Duration, HealthCheckKind, HealthCheckSettings};
use vstd::prelude::*;

verus! {

/// What is tried on a server.
#[derive(Debug, PartialEq, Eq)]
#[allow(inconsistent_fields)]
pub enum Probe {
    /// Connect, and close again, after a TLS handshake where a name is given.
    Tcp { sni: Option<String> },
    /// Ask for `path` with `GET`, and look at the status.
    Http {
        host: String,
        path: String,
        tls: bool,
        expect_status: u16,
        port: Option<u16>,
        reuse_connection: bool,
        read_timeout: Duration,
    },
}

/// A health check, ready to be set up.
#[derive(Debug, PartialEq, Eq)]
pub struct Check {
    pub consecutive_success: usize,
    pub consecutive_failure: usize,
    /// Bounds the connection, and the connection with its TLS handshake.
    pub connection_timeout: Duration,
    pub total_connection_timeout: Duration,
    pub probe: Probe,
}

impl Check {
    /// The thresholds and timeouts are those of the settings.
    pub open spec fn follows(self, settings: HealthCheckSettings) -> bool {
        self.consecutive_success == settings.consecutive_success && self.consecutive_failure
            == settings.consecutive_failure && self.connection_timeout == settings.timeout
            && self.total_connection_timeout == settings.timeout && (
        self.probe matches Probe::Http { read_timeout, .. } ==> read_timeout == settings.timeout)
    }

    /// How many checks in a row must agree before a server changes sides.
    pub fn health_threshold(&self, success: bool) -> (r: usize)
        ensures
            r == (if success {
                self.consecutive_success
            } else {
                self.consecutive_failure
            }),
    {
        if success {
            self.consecutive_success
        } else {
            self.consecutive_failure
        }
    }

    /// Does a response of this status say that the server is well?
    pub fn accepts(&self, status: u16) -> (r: bool)
        ensures
            r == (match self.probe {
                Probe::Tcp { .. } => true,
                Probe::Http { expect_status, .. } => status == expect_status,
            }),
    {
        match &self.probe {
            Probe::Tcp { .. } => true,
            Probe::Http { expect_status, .. } => status == *expect_status,
        }
    }
}

/// Works out the check that a service is configured to use, if any.
pub fn build(kind: HealthCheckKind) -> (r: Option<Check>)
    ensures
        match kind {
            HealthCheckKind::Off => r is None,
            HealthCheckKind::Tcp { settings, sni } => r is Some && r->0.follows(settings)
                && r->0.probe == (Probe::Tcp { sni }),
            HealthCheckKind::Http {
                settings,
                host,
                path,
                tls,
                expect_status,
                port,
                reuse_connection,
            } => r is Some && r->0.follows(settings) && r->0.probe == (Probe::Http {
                host,
                path,
                tls,
                expect_status,
                port,
                reuse_connection,
                read_timeout: settings.timeout,
            }),
        },
{
    match kind {
        HealthCheckKind::Off => None,
        HealthCheckKind::Tcp { settings, sni } => Some(
            Check {
                consecutive_success: settings.consecutive_success,
                consecutive_failure: settings.consecutive_failure,
                connection_timeout: settings.timeout,
                total_connection_timeout: settings.timeout,
                probe: Probe::Tcp { sni },
            },
        ),
        HealthCheckKind::Http {
            settings,
            host,
            path,
            tls,
            expect_status,
            port,
            reuse_connection,
        } => Some(
            Check {
                consecutive_success: settings.consecutive_success,
                consecutive_failure: settings.consecutive_failure,
                connection_timeout: settings.timeout,
                total_connection_timeout: settings.timeout,
                probe: Probe::Http {
                    host,
                    path,
                    tls,
                    expect_status,
                    port,
                    reuse_connection,
                    read_timeout: settings.timeout,
                },
            },
        ),
    }
}

/// A check that follows its settings takes from them how often it must agree, and bounds
/// each of its steps by their timeout.
pub proof fn a_check_keeps_to_its_settings(check: Check, settings: HealthCheckSettings)
    requires
        check.follows(settings),
    ensures
        check.consecutive_success == settings.consecutive_success,
        check.consecutive_failure == settings.consecutive_failure,
        check.connection_timeout == settings.timeout,
        check.total_connection_timeout == settings.timeout,
        check.probe matches Probe::Http { read_timeout, .. } ==> read_timeout == settings.timeout,
{
}

} // verus!
