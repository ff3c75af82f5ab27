//! Finding upstream servers.
use std::collections::HashMap;

use river::config::internal::{
    Duration, PeerTemplate, RefreshKind, RefreshPolicy, TlsName, UpstreamConfig, UpstreamKind,
};
use river::net::{parse_ip, parse_socket_addr};
use river::proxy::discovery::dns::DnsJob;
use river::proxy::discovery::resolver::{Addresses, Moment, ResolveError, SrvRecord, SrvRecords};
use river::proxy::discovery::service::{needs_attention, render, PoolState, Schedule};
use river::proxy::discovery::srv::{gcd, lowest_tier, normalize_weights, SrvJob, MAX_WEIGHT};
use river::proxy::discovery::{
    Backend, PollingSource, ResolveJob, RiverDiscovery, UpstreamSource, MAX_BACKENDS,
};

/// A resolver that answers from a script. A name with no entry fails the
/// lookup.
#[derive(Default)]
struct Fake {
    addresses: HashMap<String, (Vec<String>, u64)>,
    srv: HashMap<String, (Vec<SrvRecord>, u64)>,
    address_lookups: usize,
    srv_lookups: usize,
}

impl Fake {
    fn new() -> Self {
        Self::default()
    }

    /// Answer `host` with `addrs`, valid for `ttl` seconds
    fn set_addresses(&mut self, host: &str, addrs: &[&str], ttl: u64) {
        let addrs = addrs.iter().map(|a| a.to_string()).collect();
        self.addresses.insert(host.to_string(), (addrs, ttl));
    }

    /// Stop answering for `host`, so lookups fail
    fn clear_addresses(&mut self, host: &str) {
        self.addresses.remove(host);
    }

    fn set_srv(&mut self, name: &str, records: &[SrvRecord], ttl: u64) {
        self.srv.insert(name.to_string(), (records.to_vec(), ttl));
    }

    fn lookup_ip(&mut self, host: &str, now: Moment) -> Result<Addresses, ResolveError> {
        self.address_lookups += 1;
        match self.addresses.get(host) {
            Some((addrs, ttl)) => Ok(Addresses {
                addrs: addrs.iter().map(|a| parse_ip(a).unwrap()).collect(),
                valid_until: now + u128::from(*ttl) * 1000,
            }),
            None => Err(ResolveError::new(format!("no such name '{host}'"))),
        }
    }

    fn lookup_srv(&mut self, name: &str, now: Moment) -> Result<SrvRecords, ResolveError> {
        self.srv_lookups += 1;
        match self.srv.get(name) {
            Some((records, ttl)) => Ok(SrvRecords {
                records: records.clone(),
                valid_until: now + u128::from(*ttl) * 1000,
            }),
            None => Err(ResolveError::new(format!("no such service '{name}'"))),
        }
    }

    fn resolve(
        &mut self,
        job: &ResolveJob,
        now: Moment,
    ) -> Result<(Vec<Backend>, Duration), ResolveError> {
        match job {
            ResolveJob::Dns(job) => {
                let answer = self.lookup_ip(&job.host, now);
                job.resolve(answer, now)
            }
            ResolveJob::Srv(job) => {
                let answer = self.lookup_srv(&job.name, now)?;
                let mut lookups = Vec::new();
                for target in job.targets(&answer.records) {
                    lookups.push(self.lookup_ip(&target, now));
                }
                job.resolve(&answer, &lookups, now)
            }
        }
    }

    /// Resolves the source if it is due, and gives the servers it knows of
    fn poll(&mut self, source: &mut PollingSource, now: Moment) -> Vec<Backend> {
        if source.is_due(now) {
            let outcome = self.resolve(&source.job, now);
            source.finish(outcome, now);
        }
        source.state.backends.clone()
    }

    fn collect(&mut self, disco: &mut RiverDiscovery, now: Moment) -> Result<Vec<Backend>, String> {
        for source in disco.sources.iter_mut() {
            if let UpstreamSource::Polling(p) = source {
                self.poll(p, now);
            }
        }
        disco.collect()
    }
}

fn seconds(n: u64) -> Moment {
    u128::from(n) * 1000
}

fn policy() -> RefreshPolicy {
    RefreshPolicy {
        kind: RefreshKind::Ttl,
        min: Duration::from_secs(5),
        max: Duration::from_secs(300),
    }
}

fn dns(host: &str, port: u16, template: PeerTemplate) -> PollingSource {
    PollingSource::new(ResolveJob::Dns(DnsJob::new(host, port, template)), policy(), 0)
}

fn srv(name: &str, template: PeerTemplate) -> PollingSource {
    PollingSource::new(ResolveJob::Srv(SrvJob::new(name, template)), policy(), 0)
}

fn record(priority: u16, weight: u16, port: u16, target: &str) -> SrvRecord {
    SrvRecord {
        priority,
        weight,
        port,
        target: target.to_string(),
    }
}

fn fixed(addr: &str, peer: PeerTemplate) -> UpstreamConfig {
    UpstreamConfig {
        kind: UpstreamKind::Static {
            addr: parse_socket_addr(addr).unwrap(),
        },
        peer,
    }
}

fn named(host: &str) -> UpstreamConfig {
    UpstreamConfig {
        kind: UpstreamKind::Dns {
            host: host.into(),
            port: 80,
            refresh: RefreshPolicy::default(),
        },
        peer: PeerTemplate::default(),
    }
}

#[test]
fn ttl_is_clamped_into_the_configured_band() {
    let policy = RefreshPolicy {
        kind: RefreshKind::Ttl,
        min: Duration::from_secs(5),
        max: Duration::from_secs(300),
    };

    // A zero TTL is common in service meshes, and honouring it literally
    // would mean querying in a loop.
    assert_eq!(
        policy.interval(Duration::from_secs(0)),
        Duration::from_secs(5)
    );
    assert_eq!(
        policy.interval(Duration::from_secs(30)),
        Duration::from_secs(30)
    );
    // A day-long TTL should not mean never noticing a deployment.
    assert_eq!(
        policy.interval(Duration::from_secs(86400)),
        Duration::from_secs(300)
    );
}

#[test]
fn a_fixed_interval_ignores_the_ttl() {
    let policy = RefreshPolicy {
        kind: RefreshKind::Fixed(Duration::from_secs(30)),
        min: Duration::from_secs(5),
        max: Duration::from_secs(300),
    };

    assert_eq!(
        policy.interval(Duration::from_secs(0)),
        Duration::from_secs(30)
    );
    assert_eq!(
        policy.interval(Duration::from_secs(86400)),
        Duration::from_secs(30)
    );
}

#[test]
fn backoff_doubles_up_to_the_ceiling() {
    let policy = RefreshPolicy {
        kind: RefreshKind::Ttl,
        min: Duration::from_secs(5),
        max: Duration::from_secs(300),
    };

    assert_eq!(policy.backoff(1), Duration::from_secs(5));
    assert_eq!(policy.backoff(2), Duration::from_secs(10));
    assert_eq!(policy.backoff(3), Duration::from_secs(20));
    assert_eq!(policy.backoff(7), Duration::from_secs(300));
    // Enough failures to overflow a naive shift.
    assert_eq!(policy.backoff(1000), Duration::from_secs(300));
}

#[test]
fn backoff_reaches_a_ceiling_that_is_far_off() {
    let policy = RefreshPolicy {
        kind: RefreshKind::Ttl,
        min: Duration::from_millis(1),
        max: Duration::from_secs(1000),
    };

    assert_eq!(policy.backoff(17), Duration::from_millis(65_536));
    assert_eq!(policy.backoff(18), Duration::from_millis(131_072));
    assert_eq!(policy.backoff(20), Duration::from_millis(524_288));
    assert_eq!(policy.backoff(21), Duration::from_secs(1000));
    assert_eq!(policy.backoff(u32::MAX), Duration::from_secs(1000));
}

#[test]
fn a_static_only_service_never_asks_to_be_polled() {
    let upstreams = vec![fixed("10.0.0.1:80", PeerTemplate::default())];
    let mut disco = RiverDiscovery::from_config(upstreams, 0);

    assert!(!disco.is_dynamic());
    assert_eq!(disco.next_due(), None);

    let backends = Fake::new().collect(&mut disco, 0).unwrap();
    assert_eq!(backends.len(), 1);
    assert_eq!(disco.sources[0].describe(), "10.0.0.1:80");
}

#[test]
fn sources_sharing_an_address_collapse_to_one_backend() {
    let mut resolver = Fake::new();
    resolver.set_addresses("dupe.example.com", &["10.0.0.1"], 30);

    let upstreams = vec![
        fixed("10.0.0.1:80", PeerTemplate::default()),
        named("dupe.example.com"),
    ];

    let mut disco = RiverDiscovery::from_config(upstreams, 0);
    let backends = resolver.collect(&mut disco, 0).unwrap();
    assert_eq!(backends.len(), 1);
}

#[test]
fn the_source_that_comes_first_says_how_to_connect() {
    let mut resolver = Fake::new();
    resolver.set_addresses("dupe.example.com", &["10.0.0.1"], 30);
    let upstreams = vec![
        fixed(
            "10.0.0.1:80",
            PeerTemplate {
                tls: TlsName::Fixed("first".to_string()),
                ..PeerTemplate::default()
            },
        ),
        named("dupe.example.com"),
    ];
    let mut disco = RiverDiscovery::from_config(upstreams, 0);
    let backends = resolver.collect(&mut disco, 0).unwrap();
    assert_eq!(backends.len(), 1);
    assert_eq!(backends[0].peer.sni, "first");
}

#[test]
fn a_service_that_has_never_resolved_reports_an_error() {
    let upstreams = vec![named("missing.example.com")];
    let mut disco = RiverDiscovery::from_config(upstreams, 0);
    // An error, rather than an empty set, so that whoever asks keeps what it
    // had before.
    assert_eq!(
        Fake::new().collect(&mut disco, 0).unwrap_err(),
        "no upstream source has produced a result yet: dns missing.example.com:80"
    );
}

#[test]
fn the_error_names_every_source_in_order() {
    let service = UpstreamConfig {
        kind: UpstreamKind::Srv {
            name: "_http._tcp.example.com".into(),
            refresh: RefreshPolicy::default(),
        },
        peer: PeerTemplate::default(),
    };
    let mut disco = RiverDiscovery::from_config(vec![service, named("missing.example.com")], 0);
    assert_eq!(
        Fake::new().collect(&mut disco, 0).unwrap_err(),
        "no upstream source has produced a result yet: \
         srv _http._tcp.example.com, dns missing.example.com:80"
    );
}

#[test]
fn one_failing_source_does_not_remove_a_working_one() {
    let mut resolver = Fake::new();
    resolver.set_addresses("good.example.com", &["10.0.0.1"], 30);

    let upstreams = vec![named("good.example.com"), named("bad.example.com")];
    let mut disco = RiverDiscovery::from_config(upstreams, 0);
    let backends = resolver.collect(&mut disco, 0).unwrap();
    assert_eq!(backends.len(), 1);
}

#[test]
fn every_address_behind_a_name_becomes_a_backend() {
    let mut fake = Fake::new();
    fake.set_addresses("app.example.com", &["10.0.0.1", "10.0.0.2", "fd00::1"], 30);

    let mut source = dns("app.example.com", 8080, PeerTemplate::default());

    let backends = fake.poll(&mut source, 0);
    assert_eq!(backends.len(), 3);
    assert!(backends.iter().all(|b| b.addr.to_text().ends_with(":8080")));
    assert_eq!(backends[2].addr.to_text(), "[fd00::1]:8080");
}

#[test]
fn the_queried_name_becomes_the_sni() {
    let mut fake = Fake::new();
    fake.set_addresses("app.example.com", &["10.0.0.1"], 30);

    let template = PeerTemplate {
        tls: TlsName::Discovered,
        ..PeerTemplate::default()
    };
    let mut source = dns("app.example.com", 443, template);

    let backends = fake.poll(&mut source, 0);
    assert_eq!(backends[0].peer.sni, "app.example.com");
    assert!(backends[0].peer.tls);
}

#[test]
fn a_name_is_not_re_resolved_until_its_ttl_expires() {
    let mut fake = Fake::new();
    fake.set_addresses("app.example.com", &["10.0.0.1"], 30);

    let mut source = dns("app.example.com", 80, PeerTemplate::default());

    fake.poll(&mut source, 0);
    assert_eq!(fake.address_lookups, 1);

    // Well inside the 30 second TTL, so this is answered from the cache.
    fake.poll(&mut source, seconds(10));
    assert_eq!(fake.address_lookups, 1);

    fake.poll(&mut source, seconds(31));
    assert_eq!(fake.address_lookups, 2);
}

#[test]
fn a_failed_refresh_keeps_the_last_known_servers() {
    let mut fake = Fake::new();
    fake.set_addresses("app.example.com", &["10.0.0.1"], 30);

    let mut source = dns("app.example.com", 80, PeerTemplate::default());

    assert_eq!(fake.poll(&mut source, 0).len(), 1);

    fake.clear_addresses("app.example.com");
    let backends = fake.poll(&mut source, seconds(31));

    // The nameserver is unreachable, but the server behind it is probably
    // still fine - draining traffic off it would turn a DNS blip into an
    // outage.
    assert_eq!(backends.len(), 1);
    assert!(source.state.have_result);
    assert_eq!(source.state.failures, 1);
    assert_eq!(source.state.next_due(), seconds(36));
}

#[test]
fn the_last_answer_is_served_whatever_came_before_and_after_it() {
    let mut fake = Fake::new();
    let mut source = dns("app.example.com", 80, PeerTemplate::default());

    // No answer yet
    assert!(fake.poll(&mut source, 0).is_empty());
    assert!(!source.state.have_result);
    assert_eq!(source.state.failures, 1);

    fake.set_addresses("app.example.com", &["10.0.0.1"], 30);
    assert_eq!(fake.poll(&mut source, seconds(5)).len(), 1);
    assert_eq!(source.state.failures, 0);
    fake.set_addresses("app.example.com", &["10.0.0.2", "10.0.0.3"], 30);
    assert_eq!(fake.poll(&mut source, seconds(35)).len(), 2);

    fake.clear_addresses("app.example.com");
    for (at, failures) in [(64, 0), (65, 1), (69, 1), (70, 2), (79, 2), (80, 3)] {
        assert_eq!(fake.poll(&mut source, seconds(at)).len(), 2, "{at}");
        assert_eq!(source.state.failures, failures, "{at}");
    }
}

#[test]
fn a_failure_at_the_end_of_time_keeps_the_servers_too() {
    let mut fake = Fake::new();
    fake.set_addresses("app.example.com", &["10.0.0.1"], 30);
    let mut source = dns("app.example.com", 80, PeerTemplate::default());
    assert_eq!(fake.poll(&mut source, 0).len(), 1);

    fake.clear_addresses("app.example.com");
    for now in [u128::MAX - 1, u128::MAX] {
        assert_eq!(fake.poll(&mut source, now).len(), 1);
        assert!(source.state.have_result);
    }
    assert_eq!(source.state.failures, 1);
    assert_eq!(source.state.next_due(), u128::MAX);
    assert_eq!(source.state.wait, Duration::from_secs(5));
}

#[test]
fn a_name_without_addresses_is_a_failure() {
    let job = DnsJob::new("app.example.com", 80, PeerTemplate::default());
    let answer = Ok(Addresses {
        addrs: vec![],
        valid_until: 1000,
    });
    assert_eq!(
        job.resolve(answer, 0).unwrap_err().to_text(),
        "'app.example.com' resolved to no addresses"
    );
}

#[test]
fn weights_keep_their_ratio_when_they_can() {
    assert_eq!(normalize_weights(&[100, 200]), vec![1, 2]);
    assert_eq!(normalize_weights(&[3, 6, 9]), vec![1, 2, 3]);
}

#[test]
fn large_weights_are_scaled_down() {
    // Unscaled, this pair would allocate 65536 table entries per rebuild.
    let scaled = normalize_weights(&[65535, 1]);
    assert_eq!(scaled[0], MAX_WEIGHT as usize);
    assert_eq!(scaled[1], 1);
    assert!(scaled.iter().sum::<usize>() <= 2 * MAX_WEIGHT as usize);
}

#[test]
fn zero_weight_still_receives_traffic() {
    // A backend with weight 0 would never be selected, but RFC 2782 says a
    // zero-weight record is eligible.
    assert_eq!(normalize_weights(&[0, 100]), vec![1, 16]);
    // The "no selection to do" case: every record weight 0.
    assert_eq!(normalize_weights(&[0, 0, 0]), vec![1, 1, 1]);
}

#[test]
fn shares_are_rounded_up_and_ordered() {
    assert_eq!(normalize_weights(&[]), Vec::<usize>::new());
    assert_eq!(normalize_weights(&[7]), vec![1]);
    // 17 and 1 have nothing in common, and 17 is too much
    assert_eq!(normalize_weights(&[17, 1, 9]), vec![16, 1, 9]);
    assert_eq!(normalize_weights(&[0, 10, 20]), vec![1, 8, 16]);
}

#[test]
fn only_the_most_preferred_priority_is_used() {
    let records = vec![
        record(10, 1, 80, "backup.example.com."),
        record(0, 1, 80, "primary.example.com."),
        record(0, 1, 81, "primary2.example.com."),
    ];

    let tier = lowest_tier(&records);
    assert_eq!(tier.len(), 2);
    assert!(tier.iter().all(|r| r.priority == 0));
}

#[test]
fn ports_and_weights_come_from_the_records() {
    let mut fake = Fake::new();
    fake.set_srv(
        "_https._tcp.example.com",
        &[
            record(0, 100, 8443, "a.example.com."),
            record(0, 200, 9443, "b.example.com."),
        ],
        60,
    );
    fake.set_addresses("a.example.com.", &["10.0.0.1"], 60);
    fake.set_addresses("b.example.com.", &["10.0.0.2"], 60);

    let mut source = srv("_https._tcp.example.com", PeerTemplate::default());

    let mut backends = fake.poll(&mut source, 0);
    backends.sort_by_key(|b| b.addr.to_text());

    assert_eq!(backends.len(), 2);
    assert_eq!(backends[0].addr.to_text(), "10.0.0.1:8443");
    assert_eq!(backends[0].weight, 1);
    assert_eq!(backends[1].addr.to_text(), "10.0.0.2:9443");
    assert_eq!(backends[1].weight, 2);
}

#[test]
fn each_target_supplies_its_own_sni() {
    let mut fake = Fake::new();
    fake.set_srv(
        "_https._tcp.example.com",
        &[record(0, 1, 443, "a.example.com.")],
        60,
    );
    fake.set_addresses("a.example.com.", &["10.0.0.1"], 60);

    let template = PeerTemplate {
        tls: TlsName::Discovered,
        ..PeerTemplate::default()
    };
    let mut source = srv("_https._tcp.example.com", template);

    let backends = fake.poll(&mut source, 0);
    // Note the trailing dot of the DNS name is gone: SNI must not have one.
    assert_eq!(backends[0].peer.sni, "a.example.com");
}

#[test]
fn a_dot_target_means_no_servers() {
    let mut fake = Fake::new();
    fake.set_srv("_https._tcp.example.com", &[record(0, 0, 0, ".")], 60);

    let mut source = srv("_https._tcp.example.com", PeerTemplate::default());

    assert!(fake.poll(&mut source, 0).is_empty());
    // An answer, not a failure - so this counts as having a result.
    assert!(source.state.have_result);
}

#[test]
fn a_dot_target_counts_only_where_it_is_preferred() {
    let mut fake = Fake::new();
    fake.set_addresses("a.example.com", &["10.0.0.1"], 60);
    fake.set_srv(
        "_https._tcp.example.com",
        &[record(0, 0, 443, "a.example.com"), record(10, 0, 0, ".")],
        60,
    );

    let mut source = srv("_https._tcp.example.com", PeerTemplate::default());

    let backends = fake.poll(&mut source, 0);
    assert_eq!(backends.len(), 1);
    assert_eq!(backends[0].addr.to_text(), "10.0.0.1:443");
    assert_eq!(backends[0].weight, 1);
}

#[test]
fn an_unresolvable_target_is_skipped() {
    let mut fake = Fake::new();
    fake.set_srv(
        "_https._tcp.example.com",
        &[
            record(0, 1, 443, "here.example.com."),
            record(0, 1, 443, "gone.example.com."),
        ],
        60,
    );
    fake.set_addresses("here.example.com.", &["10.0.0.1"], 60);

    let mut source = srv("_https._tcp.example.com", PeerTemplate::default());

    assert_eq!(fake.poll(&mut source, 0).len(), 1);
}

#[test]
fn no_target_at_all_is_a_failure() {
    let mut fake = Fake::new();
    fake.set_srv(
        "_https._tcp.example.com",
        &[
            record(0, 1, 443, "gone.example.com."),
            record(0, 1, 443, "away.example.com."),
        ],
        60,
    );
    let job = ResolveJob::Srv(SrvJob::new(
        "_https._tcp.example.com",
        PeerTemplate::default(),
    ));
    assert_eq!(job.describe(), "srv _https._tcp.example.com");
    assert_eq!(
        fake.resolve(&job, 0).unwrap_err().to_text(),
        "none of the 2 target(s) of '_https._tcp.example.com' could be resolved"
    );

    fake.set_srv("_https._tcp.example.com", &[], 60);
    assert_eq!(
        fake.resolve(&job, 0).unwrap_err().to_text(),
        "'_https._tcp.example.com' returned no SRV records"
    );
}

#[test]
fn the_shortest_ttl_in_the_chain_sets_the_next_poll() {
    let mut fake = Fake::new();
    fake.set_srv(
        "_https._tcp.example.com",
        &[record(0, 1, 443, "a.example.com.")],
        300,
    );
    // The address record expires long before the SRV record does.
    fake.set_addresses("a.example.com.", &["10.0.0.1"], 10);

    let mut source = srv("_https._tcp.example.com", PeerTemplate::default());

    fake.poll(&mut source, 0);
    assert_eq!(fake.srv_lookups, 1);

    fake.poll(&mut source, seconds(11));
    assert_eq!(fake.srv_lookups, 2);
}

#[test]
fn servers_come_in_the_order_of_their_addresses() {
    let upstreams = vec![
        fixed("[::1]:80", PeerTemplate::default()),
        fixed("10.0.0.2:80", PeerTemplate::default()),
        fixed("10.0.0.1:81", PeerTemplate::default()),
        fixed("10.0.0.1:80", PeerTemplate::default()),
    ];
    let disco = RiverDiscovery::from_config(upstreams, 0);
    let order: Vec<String> = disco
        .collect()
        .unwrap()
        .iter()
        .map(|b| b.addr.to_text())
        .collect();
    assert_eq!(
        order,
        vec!["10.0.0.1:80", "10.0.0.1:81", "10.0.0.2:80", "[::1]:80"]
    );
    assert_eq!(MAX_BACKENDS, 65535);
}

#[test]
fn pools_are_visited_when_they_are_due() {
    let health = river::config::internal::HealthCheckSettings::default();
    let pools = vec![
        PoolState {
            next_due: Some(seconds(30)),
            health: None,
        },
        PoolState {
            next_due: None,
            health: Some(health),
        },
    ];
    let mut schedule = Schedule::new(2, 0);

    // Everything is visited once
    assert!(schedule.visit(0, &pools[0], 0));
    assert!(schedule.visit(1, &pools[1], 0));
    assert!(schedule.checks(1, &pools[1], false, 0));
    schedule.checked(1, &pools[1], 0);
    assert_eq!(schedule.next_health_check[1], health.frequency.millis);

    // The check comes round before the resolution does
    assert_eq!(schedule.next_wakeup(&pools), Some(health.frequency.millis));
    assert!(!schedule.visit(0, &pools[0], seconds(1)));
    assert!(!schedule.visit(1, &pools[1], seconds(1)));
    assert!(schedule.visit(0, &pools[0], seconds(30)));
    assert!(schedule.visit(1, &pools[1], health.frequency.millis));

    // A change is checked at once
    assert!(schedule.checks(1, &pools[1], true, seconds(1)));
    assert!(!schedule.checks(1, &pools[1], false, seconds(1)));
    assert!(!schedule.checks(0, &pools[0], true, seconds(1)));

    let idle = vec![PoolState {
        next_due: None,
        health: None,
    }];
    assert_eq!(Schedule::new(1, 0).next_wakeup(&idle), None);
}

#[test]
fn pools_that_never_change_are_left_alone() {
    let health = river::config::internal::HealthCheckSettings::default();
    assert!(!needs_attention(false, None));
    assert!(needs_attention(true, None));
    assert!(needs_attention(false, Some(&health)));
}

#[test]
fn changes_are_rendered_for_the_log() {
    assert_eq!(render(&[]), "-");
    assert_eq!(render(&["a".to_string(), "b".to_string()]), "a, b");
}

#[test]
fn weights_share_their_greatest_divisor() {
    assert_eq!(gcd(12, 18), 6);
    assert_eq!(gcd(18, 12), 6);
    assert_eq!(gcd(7, 13), 1);
    assert_eq!(gcd(0, 5), 5);
    assert_eq!(gcd(5, 0), 5);
    assert_eq!(gcd(0, 0), 0);
}
