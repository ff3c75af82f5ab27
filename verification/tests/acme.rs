//! Obtaining and renewing certificates.
use std::sync::Arc;

use openssl::asn1::Asn1Time;
use openssl::ec::{EcGroup, EcKey};
use openssl::hash::MessageDigest;
use openssl::nid::Nid;
use openssl::pkey::PKey;
use openssl::x509::extension::SubjectAlternativeName;
use openssl::x509::{X509NameBuilder, X509Req, X509};

use river::acme::csr::{generate, requested_names, KeyAndCsr};
use river::acme::dns01::{outcome, validation_domain, Dns01Solver, HookCall, HookEnd};
use river::acme::http01::{redirect, try_serve, AcmeChallengeService, ChallengeStore};
use river::acme::order::{
    check_ready, configured_challenge, identifiers, reuse, solve_authorization, Answering, AuthorizationState,
    AuthorizedName, Step,
};
use river::acme::service::{
    group, is_due, load_cached, may_wait, needs_renewal, solvers, usable, wait_after,
    ManagedCertificate, Readiness,
};
use river::acme::solver::{challenge_path, record_name, HTTP01_PREFIX};
use river::acme::store::{
    sanitize, AcmeStore, CertificateId, CertificateMeta, Reading, StoredCertificate, StoredFile,
};
use river::acme::{AcmeError, OrderStatus};
use river::config::internal::{
    AcmeConfig, AcmeDirectory, AcmeDomainConfig, ChallengeKind, Duration, ListenerConfig,
    ListenerKind, RenewalPolicy,
};
use river::proxy::message::{Header, RequestHead, RequestUri, Target};
use river::tls::store::{CertStore, Certificate, CertificateBundle, ServedName};
use river::tls::CertificateError;

fn names(names: &[&str]) -> Vec<ServedName> {
    names
        .iter()
        .map(|n| ServedName::parse(n).unwrap())
        .collect()
}

fn config(domains: Vec<AcmeDomainConfig>) -> AcmeConfig {
    AcmeConfig {
        directory: AcmeDirectory::LetsEncryptStaging,
        contacts: vec![],
        accept_terms_of_service: true,
        store_dir: "/tmp/river-acme-test".into(),
        renewal: RenewalPolicy::default(),
        default_challenge: ChallengeKind::Http01,
        challenge_listener: None,
        dns_propagation_seconds: 0,
        domains,
    }
}

fn self_signed(names: &[&str], days: u32) -> CertificateBundle {
    let group = EcGroup::from_curve_name(Nid::X9_62_PRIME256V1).unwrap();
    let key = PKey::from_ec_key(EcKey::generate(&group).unwrap()).unwrap();

    let mut name = X509NameBuilder::new().unwrap();
    name.append_entry_by_text("CN", names[0]).unwrap();
    let name = name.build();

    let mut builder = X509::builder().unwrap();
    builder.set_version(2).unwrap();
    builder.set_subject_name(&name).unwrap();
    builder.set_issuer_name(&name).unwrap();
    builder.set_pubkey(&key).unwrap();
    builder
        .set_not_before(&Asn1Time::days_from_now(0).unwrap())
        .unwrap();
    builder
        .set_not_after(&Asn1Time::days_from_now(days).unwrap())
        .unwrap();
    let mut san = SubjectAlternativeName::new();
    for n in names {
        san.dns(n);
    }
    let san = san.build(&builder.x509v3_context(None, None)).unwrap();
    builder.append_extension(san).unwrap();
    builder.sign(&key, MessageDigest::sha256()).unwrap();

    CertificateBundle {
        chain_pem: builder.build().to_pem().unwrap(),
        key_pem: key.private_key_to_pem_pkcs8().unwrap(),
    }
}

//
// Signing requests
//

#[test]
fn produces_a_verifiable_request() {
    let KeyAndCsr { key_pem, csr_der } = generate(&names(&["example.com"])).unwrap();

    let req = X509Req::from_der(&csr_der).unwrap();

    // The CA checks this signature, so a CSR that does not verify against
    // its own public key would be rejected with a confusing error.
    let public = req.public_key().unwrap();
    assert!(req.verify(&public).unwrap());

    // The key we keep is the one the CSR commits to
    let key = PKey::private_key_from_pem(&key_pem).unwrap();
    assert!(public.public_eq(&key));
}

#[test]
fn a_certificate_for_the_request_goes_with_its_key() {
    let KeyAndCsr { key_pem, csr_der } = generate(&names(&["example.com"])).unwrap();
    let req = X509Req::from_der(&csr_der).unwrap();

    // A certificate for the key that was asked for, issued by another
    let issuer = self_signed(&["ca.example.com"], 90);
    let issuer_key = PKey::private_key_from_pem(&issuer.key_pem).unwrap();
    let mut builder = X509::builder().unwrap();
    builder.set_version(2).unwrap();
    builder.set_pubkey(&req.public_key().unwrap()).unwrap();
    builder
        .set_not_before(&Asn1Time::days_from_now(0).unwrap())
        .unwrap();
    builder
        .set_not_after(&Asn1Time::days_from_now(90).unwrap())
        .unwrap();
    builder.sign(&issuer_key, MessageDigest::sha256()).unwrap();
    let chain_pem = builder.build().to_pem().unwrap();

    assert!(Certificate::new(CertificateBundle {
        chain_pem: chain_pem.clone(),
        key_pem,
    })
    .is_ok());
    assert!(Certificate::new(CertificateBundle {
        chain_pem,
        key_pem: issuer.key_pem,
    })
    .is_err());
}

#[test]
fn requests_every_domain_as_a_san() {
    let domains = ["example.com", "www.example.com", "*.api.example.com"];
    assert_eq!(requested_names(&names(&domains)), domains);
    let KeyAndCsr { csr_der, .. } = generate(&names(&domains)).unwrap();

    let req = X509Req::from_der(&csr_der).unwrap();
    assert_eq!(
        req.extensions().unwrap().len(),
        1,
        "expected exactly one extension, the SAN list"
    );

    // DNS names are carried as plain ASCII inside the SAN extension, so
    // this is enough to show each one made it into the request the CA
    // will see.
    for domain in domains {
        assert!(
            csr_der
                .windows(domain.len())
                .any(|w| w == domain.as_bytes()),
            "'{domain}' is missing from the request"
        );
    }
}

#[test]
fn rejects_an_empty_domain_list() {
    assert_eq!(
        generate(&[]).unwrap_err(),
        AcmeError::Csr("no domains to request".into())
    );
}

//
// DNS
//

#[test]
fn wildcards_are_validated_against_their_parent() {
    // This is the detail that is easy to get wrong: the TXT record for
    // `*.example.com` goes at `_acme-challenge.example.com`, with no `*.`
    // anywhere in it.
    assert_eq!(
        validation_domain(&ServedName::parse("*.example.com").unwrap()),
        "example.com"
    );
    assert_eq!(
        validation_domain(&ServedName::parse("example.com").unwrap()),
        "example.com"
    );
}

#[test]
fn builds_a_hook_map_for_dns01_domains_only() {
    let cfg = config(vec![
        AcmeDomainConfig {
            domain: "*.example.com".into(),
            challenge: ChallengeKind::Dns01,
            dns_hook: Some("/usr/local/bin/hook".into()),
        },
        AcmeDomainConfig {
            domain: "www.example.com".into(),
            challenge: ChallengeKind::Http01,
            dns_hook: None,
        },
    ]);

    let solver = Dns01Solver::from_config(&cfg, &names(&["*.example.com", "www.example.com"]))
        .expect("a dns-01 domain is configured");

    // Keyed by the validation domain, not the configured name
    assert!(solver.hook_for("example.com").is_ok());
    // The http-01 domain is not this solver's business
    assert!(solver.hook_for("www.example.com").is_err());
}

#[test]
fn no_solver_when_nothing_uses_dns01() {
    let cfg = config(vec![]);
    assert!(Dns01Solver::from_config(&cfg, &names(&["example.com"])).is_none());
}

#[test]
fn reports_a_failing_hook() {
    let cfg = config(vec![AcmeDomainConfig {
        domain: "example.com".into(),
        challenge: ChallengeKind::Dns01,
        dns_hook: Some("/nonexistent/river-dns-hook".into()),
    }]);

    let solver = Dns01Solver::from_config(&cfg, &names(&["example.com"])).unwrap();
    let hook = solver.hook_for("example.com").unwrap();
    assert_eq!(hook, "/nonexistent/river-dns-hook");
}

#[test]
fn a_dns_solver_knows_how_long_records_take_to_settle() {
    let mut cfg = config(vec![AcmeDomainConfig {
        domain: "example.com".into(),
        challenge: ChallengeKind::Dns01,
        dns_hook: Some("/bin/hook".into()),
    }]);
    cfg.dns_propagation_seconds = 7;
    let solver = Dns01Solver::from_config(&cfg, &names(&["example.com"])).unwrap();
    assert_eq!(solver.settle(), Duration::from_secs(7));
    assert_eq!(
        solver.hook_for("other.test").unwrap_err(),
        AcmeError::Solver {
            domain: "other.test".into(),
            reason: "no 'dns-01' hook is configured for this domain".into(),
        }
    );
}

#[test]
fn a_hook_is_judged_by_how_it_ended() {
    let call = HookCall {
        hook: "/bin/hook".into(),
        action: "set".into(),
        record: record_name("example.com"),
        value: "v".into(),
    };
    let ended = |end| {
        outcome("example.com", &call, &end).map_err(|e| match e {
            AcmeError::Solver { domain, reason } => (domain, reason),
            _ => unreachable!(),
        })
    };
    assert_eq!(
        ended(HookEnd::Exited {
            success: true,
            status: "exit status: 0".into()
        }),
        Ok(())
    );
    let failed = |reason: &str| Err(("example.com".to_string(), reason.to_string()));
    assert_eq!(
        ended(HookEnd::Exited {
            success: false,
            status: "exit status: 1".into()
        }),
        failed("/bin/hook set exited with exit status: 1")
    );
    assert_eq!(
        ended(HookEnd::NotRun("no such file".into())),
        failed("could not run /bin/hook: no such file")
    );
    assert_eq!(
        ended(HookEnd::TimedOut),
        failed("/bin/hook did not finish within 120 seconds")
    );
}

//
// HTTP
//

#[test]
fn stores_and_retrieves_responses() {
    let mut store = ChallengeStore::new();
    assert!(store.is_idle());

    store.insert("token-a".into(), "token-a.thumbprint".into());
    assert!(!store.is_idle());
    assert_eq!(store.get("token-a").as_deref(), Some("token-a.thumbprint"));
    assert!(store.get("token-b").is_none());

    store.remove("token-a");
    assert!(store.is_idle());
    assert!(store.get("token-a").is_none());
}

#[test]
fn the_challenge_prefix_matches_the_rfc() {
    // The CA builds this URL itself, so getting it wrong means every
    // validation fails with a 404 that is awkward to trace back.
    assert_eq!(HTTP01_PREFIX, "/.well-known/acme-challenge/");

    let path = format!("{HTTP01_PREFIX}sometoken");
    assert_eq!(path.strip_prefix(HTTP01_PREFIX), Some("sometoken"));
}

#[test]
fn builds_challenge_locations() {
    let prefix = HTTP01_PREFIX;
    assert_eq!(prefix, "/.well-known/acme-challenge/");
    assert!(prefix.ends_with('/'));
    assert_eq!(
        challenge_path("sometoken"),
        "/.well-known/acme-challenge/sometoken"
    );
    assert_eq!(record_name("example.com"), "_acme-challenge.example.com");
}

fn request(method: &str, path: &str) -> RequestHead {
    RequestHead {
        method: method.into(),
        uri: RequestUri {
            scheme: None,
            authority: None,
            target: Some(Target {
                path: path.into(),
                query: None,
            }),
        },
        headers: vec![],
    }
}

fn lines(headers: &[Header]) -> Vec<(String, String)> {
    headers
        .iter()
        .map(|h| (h.name.clone(), String::from_utf8(h.value.clone()).unwrap()))
        .collect()
}

fn pair(name: &str, value: &str) -> (String, String) {
    (name.to_string(), value.to_string())
}

#[test]
fn a_published_challenge_is_answered() {
    let mut store = ChallengeStore::new();
    store.insert("tok".into(), "tok.thumb".into());
    let path = challenge_path("tok");

    let reply = try_serve(&store, &request("GET", &path)).unwrap();
    assert_eq!(reply.head.status, 200);
    assert_eq!(reply.body, "tok.thumb");
    assert_eq!(
        lines(&reply.head.headers),
        vec![
            pair("content-type", "application/octet-stream"),
            pair("content-length", "9"),
        ]
    );

    // Anything else is passed through
    assert!(try_serve(&store, &request("POST", &path)).is_none());
    assert!(try_serve(&store, &request("GET", &challenge_path("other"))).is_none());
    assert!(try_serve(&store, &request("GET", "/tok")).is_none());
    store.remove("tok");
    assert!(try_serve(&store, &request("GET", &path)).is_none());
}

#[test]
fn the_dedicated_listener_redirects_to_https() {
    let mut head = request("GET", "/a");
    head.uri.target.as_mut().unwrap().query = Some("b=1".into());
    assert_eq!(redirect(&head).status, 400);
    assert_eq!(lines(&redirect(&head).headers), vec![pair("content-length", "0")]);

    head.headers.push(Header {
        name: "host".into(),
        value: b"example.com".to_vec(),
    });
    let by_host = redirect(&head);
    assert_eq!(by_host.status, 301);
    assert_eq!(
        lines(&by_host.headers),
        vec![
            pair("location", "https://example.com/a?b=1"),
            pair("content-length", "0"),
        ]
    );

    // A challenge is answered there as well
    let mut store = ChallengeStore::new();
    store.insert("tok".into(), "tok.thumb".into());
    let service = AcmeChallengeService { store: &store };
    assert_eq!(service.request_filter(&head).head.status, 301);
    let challenge = request("GET", &challenge_path("tok"));
    let reply = service.request_filter(&challenge);
    assert_eq!((reply.head.status, reply.body.as_str()), (200, "tok.thumb"));

    head.uri.authority = Some("other.test".into());
    head.uri.target = None;
    assert_eq!(
        lines(&redirect(&head).headers)[0],
        pair("location", "https://other.test/")
    );
}

//
// Orders
//

#[test]
fn wildcards_are_ordered_with_their_prefix() {
    // RFC 8555 asks for the `*.` prefix on the order's identifier, and
    // hands back an authorization for the parent domain. Getting this
    // backwards produces a certificate for the wrong name.
    assert_eq!(
        identifiers(&names(&["*.example.com", "example.com"])),
        vec!["*.example.com".to_string(), "example.com".to_string()]
    );
}

#[test]
fn an_authorization_is_answered_by_the_first_solver_it_offers() {
    let both = [ChallengeKind::Dns01, ChallengeKind::Http01];
    let http = ChallengeKind::Http01;
    let dns_01 = ChallengeKind::Dns01;
    let dns = AuthorizedName::Dns("example.com".into());
    let pending = AuthorizationState::Pending;
    let answer = |solver| {
        Ok(Step::Answer {
            solver,
            domain: "example.com".into(),
        })
    };

    assert_eq!(
        solve_authorization(&AuthorizationState::Valid, &dns, http, &[], &both),
        Ok(Step::Skip)
    );
    assert_eq!(
        solve_authorization(&pending, &dns, dns_01, &[http], &both),
        answer(1)
    );
    assert_eq!(
        solve_authorization(&pending, &dns, dns_01, &[http, dns_01], &both),
        answer(0)
    );
    assert_eq!(
        solve_authorization(&pending, &dns, http, &[], &both)
            .unwrap_err()
            .to_text(),
        "the CA offered no 'Dns01 or Http01' challenge for 'example.com'"
    );
    assert_eq!(
        solve_authorization(&AuthorizationState::Other("Revoked".into()), &dns, http, &[], &both)
            .unwrap_err()
            .to_text(),
        "the CA could not validate 'example.com': authorization is Revoked"
    );
    assert_eq!(
        solve_authorization(
            &pending,
            &AuthorizedName::Other("Ip(1.2.3.4)".into()),
            http,
            &[],
            &both
        )
        .unwrap_err()
        .to_text(),
        "the CA could not validate 'Ip(1.2.3.4)': River only manages DNS identifiers"
    );
}

#[test]
fn a_name_is_answered_with_the_challenge_it_is_configured_for() {
    // Only the wildcard is validated over DNS; the plain name has no hook.
    let cfg = config(vec![AcmeDomainConfig {
        domain: "*.example.com".into(),
        challenge: ChallengeKind::Dns01,
        dns_hook: Some("/usr/local/bin/hook".into()),
    }]);
    let domains = names(&["*.example.com", "www.example.com"]);
    let (_, kinds) = solvers(&cfg, &domains).ok().unwrap();
    assert_eq!(kinds, vec![ChallengeKind::Dns01, ChallengeKind::Http01]);

    let offered = [ChallengeKind::Dns01, ChallengeKind::Http01];
    let chosen = |domain: &str, wildcard: bool, offered: &[ChallengeKind]| {
        let configured = configured_challenge(&cfg, domain, wildcard);
        let name = AuthorizedName::Dns(domain.into());
        match solve_authorization(&AuthorizationState::Pending, &name, configured, offered, &kinds)
        {
            Ok(Step::Answer { solver, .. }) => solver,
            other => panic!("{other:?}"),
        }
    };
    assert_eq!(chosen("www.example.com", false, &offered), 1);
    assert_eq!(chosen("example.com", false, &offered), 1);
    // The same domain, ordered as a wildcard
    assert_eq!(chosen("example.com", true, &offered), 0);
    // What is not offered cannot be used
    assert_eq!(chosen("www.example.com", false, &[ChallengeKind::Dns01]), 0);
}

#[test]
fn only_a_ready_order_is_finished() {
    assert_eq!(check_ready(OrderStatus::Ready), Ok(()));
    for status in [
        OrderStatus::Pending,
        OrderStatus::Processing,
        OrderStatus::Valid,
        OrderStatus::Invalid,
    ] {
        assert_eq!(
            check_ready(status).unwrap_err().to_text(),
            format!("the order did not become ready (status: {status:?})")
        );
    }
}

#[test]
fn errors_are_put_in_words() {
    let cases = [
        (
            AcmeError::Protocol("x".into()),
            "ACME protocol error: x",
        ),
        (
            AcmeError::Io {
                action: "read".into(),
                path: "/a".into(),
                source: "denied".into(),
            },
            "could not read /a: denied",
        ),
        (
            AcmeError::Malformed {
                path: "/a".into(),
                source: "eof".into(),
            },
            "could not read /a: eof",
        ),
        (
            AcmeError::Csr("x".into()),
            "could not generate a certificate signing request: x",
        ),
        (
            AcmeError::Certificate(CertificateError::EmptyChain),
            "the certificate the CA issued is not usable: the certificate chain contained no certificates",
        ),
        (
            AcmeError::ValidationFailed {
                domain: "a".into(),
                reason: None,
            },
            "the CA could not validate 'a'",
        ),
        (
            AcmeError::Solver {
                domain: "a".into(),
                reason: "x".into(),
            },
            "could not publish the challenge response for 'a': x",
        ),
    ];
    for (error, words) in cases {
        assert_eq!(error.to_text(), words);
    }
}

#[test]
fn a_certificate_from_another_process_is_used_unless_it_is_due() {
    let stored = || StoredCertificate {
        bundle: CertificateBundle {
            chain_pem: vec![1],
            key_pem: vec![2],
        },
        meta: CertificateMeta::now(&[], 0, None),
    };
    assert_eq!(reuse(Some(stored()), false), Some(stored().bundle));
    assert_eq!(reuse(Some(stored()), true), None);
    assert_eq!(reuse(None, false), None);
}

//
// What is kept
//

#[test]
fn identifiers_depend_on_the_whole_domain_set() {
    let one = CertificateId::for_domains(&names(&["example.com", "www.example.com"]));

    // Order does not matter...
    let reordered = CertificateId::for_domains(&names(&["www.example.com", "example.com"]));
    assert_eq!(one, reordered);

    // ...but membership does
    let extra = CertificateId::for_domains(&names(&[
        "example.com",
        "www.example.com",
        "a.example.com",
    ]));
    assert_ne!(one, extra);

    // The label makes the directory recognisable
    assert!(one.as_str().starts_with("example.com-"));
}

#[test]
fn wildcard_identifiers_are_path_safe() {
    let id = CertificateId::for_domains(&names(&["*.example.com"]));
    assert!(id.as_str().starts_with("wildcard.example.com-"));
    assert!(!id.as_str().contains('*'));
    assert!(!id.as_str().contains('/'));
}

#[test]
fn identifiers_hold_the_start_of_the_digest() {
    let expected = openssl::sha::sha256(b"example.com,www.example.com");
    let hex: String = expected.iter().take(4).map(|b| format!("{b:02x}")).collect();
    assert_eq!(
        CertificateId::for_domains(&names(&["www.example.com", "example.com", "example.com"]))
            .as_str(),
        format!("example.com-{hex}")
    );
    let nothing = openssl::sha::sha256(b"");
    let hex: String = nothing.iter().take(4).map(|b| format!("{b:02x}")).collect();
    assert_eq!(CertificateId::for_domains(&[]).as_str(), format!("none-{hex}"));
}

#[test]
fn unusual_characters_are_made_safe() {
    assert_eq!(sanitize("*.Example.com"), "wildcard.example.com");
    assert_eq!(sanitize("a/b c"), "a_b_c");
}

fn store() -> AcmeStore {
    AcmeStore::new("/var/lib/river".to_string())
}

fn save(domains: &[ServedName], bundle: &CertificateBundle) -> Vec<StoredFile> {
    store().save_certificate(&CertificateId::for_domains(domains), bundle, b"{}".to_vec())
}

fn read_back(
    files: &[StoredFile],
    meta: CertificateMeta,
) -> Option<StoredCertificate> {
    let find = |name: &str| {
        files
            .iter()
            .find(|f| f.name == name)
            .map(|f| f.contents.clone())
    };
    store()
        .load_certificate(
            Ok(find("fullchain.pem")),
            Ok(find("key.pem")),
            Ok(find("meta.json").map(|_| meta)),
        )
        .unwrap()
}

#[test]
fn certificates_round_trip() {
    let domains = names(&["example.com", "www.example.com"]);
    let bundle = self_signed(&["example.com", "www.example.com"], 90);
    let meta = CertificateMeta::now(&domains, 1_000_000, Some("https://acme.test/order/1".into()));
    let files = save(&domains, &bundle);

    // Nothing stored yet
    assert!(read_back(&[], meta.clone()).is_none());

    let loaded = read_back(&files, meta.clone()).unwrap();
    assert_eq!(loaded.bundle, bundle);
    assert_eq!(loaded.meta, meta);
    assert_eq!(loaded.meta.days_since_issue(1_000_000), 0);
    assert_eq!(loaded.meta.days_since_issue(1_000_000 + 2 * 86_400), 2);
    assert_eq!(loaded.meta.days_since_issue(999), 0);
    assert_eq!(meta.domains, vec!["example.com", "www.example.com"]);
}

#[test]
fn private_keys_are_not_world_readable() {
    let files = save(&names(&["example.com"]), &self_signed(&["example.com"], 90));
    let mode = files.iter().find(|f| f.name == "key.pem").unwrap().mode;
    assert_eq!(mode, 0o600, "key.pem should be owner-only, got {mode:o}");
}

#[test]
fn a_partially_written_certificate_reads_as_absent() {
    let domains = names(&["example.com"]);
    let meta = CertificateMeta::now(&domains, 0, None);
    let files = save(&domains, &self_signed(&["example.com"], 90));

    // However far the writing got before the process died
    for written in 0..files.len() {
        assert!(read_back(&files[..written], meta.clone()).is_none());
    }
    // A chain with no key and no metadata
    assert!(store()
        .load_certificate(Ok(Some(b"not a real chain".to_vec())), Ok(None), Ok(None))
        .unwrap()
        .is_none());
}

#[test]
fn an_unreadable_certificate_reads_as_absent() {
    let meta = CertificateMeta::now(&names(&["example.com"]), 0, None);
    let pem = || Ok(Some(b"pem".to_vec()));
    let unreadable = || AcmeError::Protocol("x".into());

    let absent = |r: Reading<StoredCertificate>| matches!(r, Ok(None));
    assert!(absent(store().load_certificate(Err(unreadable()), pem(), Ok(Some(meta.clone())))));
    assert!(absent(store().load_certificate(pem(), Err(unreadable()), Ok(Some(meta.clone())))));
    assert!(absent(store().load_certificate(pem(), pem(), Err(unreadable()))));
    assert!(absent(store().load_certificate(Err(unreadable()), Ok(None), Ok(None))));
    assert!(store()
        .load_certificate(pem(), pem(), Ok(Some(meta)))
        .unwrap()
        .is_some());
}

//
// The service
//

#[test]
fn groups_identical_domain_sets_into_one_certificate() {
    // Three listeners: two asking for the same pair, one for something else
    let certificates: Vec<ManagedCertificate> = group(vec![
        names(&["example.com", "www.example.com"]),
        names(&["www.example.com", "example.com"]),
        names(&["other.test"]),
    ]);

    assert_eq!(
        certificates.len(),
        2,
        "identical domain sets should share one certificate"
    );
    // The first of the two sets is the one that is kept
    assert_eq!(
        certificates[0].domains,
        names(&["example.com", "www.example.com"])
    );
}

#[test]
fn a_listener_without_domains_asks_for_no_certificate() {
    assert!(group(vec![names(&[])]).is_empty());
}

#[test]
fn a_missing_certificate_needs_renewal() {
    assert!(needs_renewal(&RenewalPolicy::default(), Ok(None), 0));
    assert!(needs_renewal(
        &RenewalPolicy::default(),
        Err(AcmeError::Protocol("x".into())),
        0
    ));
}

fn unix_now() -> u64 {
    std::time::SystemTime::now()
        .duration_since(std::time::UNIX_EPOCH)
        .unwrap()
        .as_secs()
}

#[test]
fn renewal_respects_the_configured_window() {
    let domains = names(&["example.com"]);
    let now = unix_now();

    // A certificate with 60 days left
    let bundle = self_signed(&["example.com"], 60);
    let stored = || {
        Ok(Some(StoredCertificate {
            bundle: bundle.clone(),
            meta: CertificateMeta::now(&domains, now, None),
        }))
    };

    assert!(
        !needs_renewal(&RenewalPolicy::BeforeExpiry { days: 30 }, stored(), now),
        "60 days left is outside a 30 day window"
    );

    // The same certificate, with a wider window
    assert!(
        needs_renewal(&RenewalPolicy::BeforeExpiry { days: 75 }, stored(), now),
        "60 days left is inside a 75 day window"
    );

    // The window closes in as time goes by
    assert!(needs_renewal(
        &RenewalPolicy::BeforeExpiry { days: 30 },
        stored(),
        now + 31 * 86_400
    ));

    // Counting forward from issue instead: it was issued just now
    assert!(
        !needs_renewal(&RenewalPolicy::AfterIssue { days: 30 }, stored(), now),
        "just issued, so not yet due under an after-issue policy"
    );
    assert!(needs_renewal(
        &RenewalPolicy::AfterIssue { days: 30 },
        stored(),
        now + 30 * 86_400
    ));

    assert!(
        needs_renewal(&RenewalPolicy::AfterIssue { days: 0 }, stored(), now),
        "a zero day after-issue window is always due"
    );

    let unusable = Ok(Some(StoredCertificate {
        bundle: CertificateBundle {
            chain_pem: vec![],
            key_pem: vec![],
        },
        meta: CertificateMeta::now(&domains, now, None),
    }));
    assert!(needs_renewal(&RenewalPolicy::AfterIssue { days: 30 }, unusable, now));
}

#[test]
fn a_certificate_is_renewed_once_fewer_days_remain() {
    let policy = RenewalPolicy::BeforeExpiry { days: 30 };
    assert!(!is_due(&policy, Some(30), 0));
    assert!(is_due(&policy, Some(29), 0));
    assert!(is_due(&policy, Some(-5), 0));
    assert!(is_due(&policy, None, 0));
    // A window beyond what a day count can reach is no smaller for it
    assert!(is_due(
        &RenewalPolicy::BeforeExpiry { days: u32::MAX },
        Some(i32::MAX),
        0
    ));
}

#[test]
fn cached_certificates_are_served_on_startup() {
    let domains = names(&["example.com", "*.example.com"]);
    let bundle = self_signed(&["example.com", "*.example.com"], 90);
    let files = save(&domains, &bundle);
    let stored = read_back(&files, CertificateMeta::now(&domains, 0, None)).unwrap();

    let mut cert_store = CertStore::new();
    let managed = group(vec![domains]);
    let found = vec![usable(Ok(Some(stored)))];
    assert_eq!(load_cached(&managed, &found, &mut cert_store), 1);

    // Both the exact name and the wildcard resolve
    assert!(cert_store.get("example.com").is_some());
    assert!(cert_store.get("anything.example.com").is_some());
}

#[test]
fn picks_solvers_from_the_configured_challenges() {
    // Only HTTP-01 is configured
    let (dns, kinds) = solvers(&config(vec![]), &names(&["example.com"])).ok().unwrap();
    assert_eq!(kinds, vec![ChallengeKind::Http01]);
    assert!(dns.is_none());

    // A wildcard over DNS-01 alongside a plain name over HTTP-01 needs both
    let cfg = config(vec![AcmeDomainConfig {
        domain: "*.example.com".into(),
        challenge: ChallengeKind::Dns01,
        dns_hook: Some("/usr/local/bin/hook".into()),
    }]);
    let (dns, kinds) = solvers(&cfg, &names(&["example.com", "*.example.com"]))
        .ok()
        .unwrap();
    assert!(dns.is_some());
    assert!(kinds.contains(&ChallengeKind::Dns01));
    assert!(kinds.contains(&ChallengeKind::Http01));

    // Nothing to solve with
    let mut cfg = config(vec![]);
    cfg.default_challenge = ChallengeKind::Dns01;
    let refused = match solvers(&cfg, &names(&["a.test", "b.test"])) {
        Ok(_) => unreachable!(),
        Err(e) => e,
    };
    assert_eq!(
        refused,
        AcmeError::Solver {
            domain: "a.test, b.test".into(),
            reason: "no challenge solver is configured for these domains".into(),
        }
    );
}

#[test]
fn what_cannot_be_read_is_not_served() {
    let managed = group(vec![names(&["a.test"]), names(&["b.test"])]);
    let mut cert_store = CertStore::new();
    let broken = StoredCertificate {
        bundle: CertificateBundle {
            chain_pem: b"not a real chain".to_vec(),
            key_pem: vec![],
        },
        meta: CertificateMeta::now(&[], 0, None),
    };
    let found = vec![usable(Ok(None)), usable(Ok(Some(broken)))];
    assert_eq!(load_cached(&managed, &found, &mut cert_store), 0);
    assert!(cert_store.get("a.test").is_none());
    assert!(usable(Err(AcmeError::Protocol("x".into()))).is_none());
}

#[test]
fn the_listeners_are_let_go_exactly_once() {
    // Nothing to manage, so nothing to wait for
    let idle = Readiness::start(0);
    assert!(!idle.waiting && !idle.running);

    // No account, so the listeners serve what there is
    let mut stopped = Readiness::start(2);
    assert!(stopped.account(false));
    assert!(!stopped.waiting && !stopped.running);

    // The first pass lets them go even though it failed
    let mut service = Readiness::start(2);
    assert!(!service.account(true));
    assert!(service.waiting);
    assert_eq!(service.passed(1), (true, Duration::from_secs(900)));
    assert_eq!(service.passed(0), (false, Duration::from_secs(3600)));
    assert!(service.running);
}

#[test]
fn what_was_published_is_withdrawn_whatever_happens() {
    let kinds = [ChallengeKind::Http01];
    let http = ChallengeKind::Http01;
    let dns = |name: &str| AuthorizedName::Dns(name.into());

    let mut answering = Answering::new();
    let pending = AuthorizationState::Pending;
    assert_eq!(
        answering.authorization(&AuthorizationState::Valid, &dns("a.test"), http, &[], &kinds),
        None
    );
    for name in ["b.test", "c.test"] {
        assert_eq!(
            answering.authorization(&pending, &dns(name), http, &kinds, &kinds),
            Some((0, name.to_string()))
        );
        assert!(answering.published(Ok(())));
    }
    // One that could not be published is not withdrawn
    assert!(answering
        .authorization(&pending, &dns("d.test"), http, &kinds, &kinds)
        .is_some());
    assert!(!answering.published(Err(AcmeError::Protocol("x".into()))));
    assert!(!answering.open);
    assert_eq!(answering.withdraw(), Some(0));
    assert_eq!(answering.withdraw(), Some(1));
    assert_eq!(answering.withdraw(), None);
    assert_eq!(answering.outcome(), Err(AcmeError::Protocol("x".into())));

    let mut refused = Answering::new();
    assert_eq!(
        refused.authorization(&pending, &dns("a.test"), http, &[ChallengeKind::Dns01], &kinds),
        None
    );
    assert!(!refused.open);
    assert_eq!(refused.withdraw(), None);
    assert!(refused.outcome().is_err());

    let mut failed = Answering::new();
    failed.failed(AcmeError::Protocol("y".into()));
    assert_eq!(failed.withdraw(), None);
    assert_eq!(failed.outcome(), Err(AcmeError::Protocol("y".into())));

    let mut fine = Answering::new();
    fine.answered();
    assert!(!fine.settled);
    fine.verdict(Ok(OrderStatus::Ready));
    assert_eq!(fine.withdraw(), None);
    assert_eq!(fine.outcome(), Ok(()));
}

#[test]
fn every_failure_leaves_what_was_published_to_be_withdrawn() {
    let kinds = [ChallengeKind::Http01];
    let http = ChallengeKind::Http01;
    let pending = AuthorizationState::Pending;
    let name = AuthorizedName::Dns("a.test".into());
    let lost = || AcmeError::Protocol("connection reset".into());
    let after_publishing = |n: usize, end: &dyn Fn(&mut Answering)| {
        let mut answering = Answering::new();
        for _ in 0..n {
            assert!(answering
                .authorization(&pending, &name, http, &kinds, &kinds)
                .is_some());
            assert!(answering.published(Ok(())));
            assert_eq!(answering.withdrawn, 0);
        }
        end(&mut answering);
        assert!(answering.settled && !answering.open);
        assert_eq!((answering.presented, answering.withdrawn), (n, 0));
        let withdrawn: Vec<usize> = std::iter::from_fn(|| answering.withdraw()).collect();
        assert_eq!(answering.withdraw(), None);
        (withdrawn, answering.outcome())
    };

    for n in [0, 1, 3] {
        let all: Vec<usize> = (0..n).collect();
        // The certificate authority cannot be reached
        assert_eq!(
            after_publishing(n, &|a| a.failed(lost())),
            (all.clone(), Err(lost()))
        );
        // The next response cannot be published
        assert_eq!(
            after_publishing(n, &|a| assert!(!a.published(Err(lost())))),
            (all.clone(), Err(lost()))
        );
        // The next authorization cannot be answered
        let (withdrawn, outcome) = after_publishing(n, &|a| {
            assert_eq!(a.authorization(&pending, &name, http, &[], &kinds), None)
        });
        assert_eq!(withdrawn, all);
        assert!(matches!(outcome, Err(AcmeError::NoSuchChallenge { .. })));
        // The certificate authority says no, or says yes
        for (status, expected) in [
            (OrderStatus::Invalid, Err(AcmeError::OrderNotReady(OrderStatus::Invalid))),
            (OrderStatus::Ready, Ok(())),
        ] {
            let end = |a: &mut Answering| {
                a.answered();
                a.verdict(Ok(status));
            };
            assert_eq!(after_publishing(n, &end), (all.clone(), expected));
        }
    }
}

#[test]
fn what_was_published_stays_up_until_the_verdict() {
    let kinds = [ChallengeKind::Http01];
    let name = AuthorizedName::Dns("a.test".into());
    let run = |verdict| {
        let mut answering = Answering::new();
        let step = answering.authorization(
            &AuthorizationState::Pending,
            &name,
            ChallengeKind::Http01,
            &kinds,
            &kinds,
        );
        assert_eq!(step, Some((0, "a.test".to_string())));
        assert!(answering.published(Ok(())));
        answering.answered();
        // The authority has yet to look at what is published
        assert!(!answering.settled);
        assert_eq!(answering.withdrawn, 0);
        answering.verdict(verdict);
        assert!(answering.settled);
        assert_eq!(answering.withdraw(), Some(0));
        assert_eq!(answering.withdraw(), None);
        answering.outcome()
    };

    assert_eq!(run(Ok(OrderStatus::Ready)), Ok(()));
    assert_eq!(
        run(Ok(OrderStatus::Invalid)),
        Err(AcmeError::OrderNotReady(OrderStatus::Invalid))
    );
    assert_eq!(
        run(Err(AcmeError::Protocol("timed out".into()))),
        Err(AcmeError::Protocol("timed out".into()))
    );
}

#[test]
fn everything_is_kept_below_the_store_directory() {
    let id = CertificateId::for_domains(&names(&["*.example.com"]));
    let dir = format!("/var/lib/river/certs/{}", id.as_str());
    assert_eq!(store().account_path(), "/var/lib/river/account.json");
    assert_eq!(store().lock_path(), "/var/lib/river/.lock");
    assert_eq!(store().certs_dir(), "/var/lib/river/certs");
    assert_eq!(store().cert_dir(&id), dir);
    let slashed = AcmeStore::new("/var/lib/river/".to_string());
    assert_eq!(slashed.account_path(), "/var/lib/river/account.json");

    let files = save(&names(&["*.example.com"]), &self_signed(&["*.example.com"], 90));
    let written: Vec<(&str, u32)> = files.iter().map(|f| (f.path.as_str(), f.mode)).collect();
    assert_eq!(
        written,
        vec![
            (format!("{dir}/key.pem").as_str(), 0o600),
            (format!("{dir}/fullchain.pem").as_str(), 0o644),
            (format!("{dir}/meta.json").as_str(), 0o644),
        ]
    );
}

#[test]
fn the_wait_follows_the_last_pass() {
    assert_eq!(wait_after(0), Duration::from_secs(3600));
    assert_eq!(wait_after(1), Duration::from_secs(900));
}

#[test]
fn a_service_with_a_plain_listener_does_not_wait() {
    let listener = |addr: &str| ListenerConfig {
        source: ListenerKind::Tcp {
            addr: addr.into(),
            tls: None,
            offer_h2: false,
        },
    };
    assert!(may_wait(&[]));
    assert!(!may_wait(&[listener("0.0.0.0:80")]));
}

/// Credentials as they are kept, with the key in base64 without padding
const ACCOUNT: &[u8] = br#"{"id":"https://ca.test/acct/7","key_pkcs8":"AQID_-8","directory":"https://ca.test/dir"}"#;

#[test]
fn an_account_is_read_out_of_its_file() {
    let account = store().load_account(Ok(Some(ACCOUNT.to_vec()))).unwrap().unwrap();
    assert_eq!(account.private_key().secret_pkcs8_der(), &[1, 2, 3, 0xff, 0xef]);

    assert!(matches!(store().load_account(Ok(None)), Ok(None)));
    let unreadable = || AcmeError::Io {
        action: "read the ACME account".into(),
        path: "/var/lib/river/account.json".into(),
        source: "permission denied".into(),
    };
    match store().load_account(Err(unreadable())) {
        Err(e) => assert_eq!(e, unreadable()),
        Ok(_) => panic!("expected the error to be handed on"),
    }
}

#[test]
fn an_account_that_makes_no_sense_names_its_file() {
    for raw in ["", "{", "[]", r#"{"id":"a"}"#, r#"{"id":"a","key_pkcs8":"%"}"#] {
        match store().load_account(Ok(Some(raw.as_bytes().to_vec()))) {
            Err(AcmeError::Malformed { path, source }) => {
                assert_eq!(path, "/var/lib/river/account.json");
                assert!(!source.is_empty());
            }
            _ => panic!("expected {raw:?} to be refused"),
        }
    }
}

#[test]
fn an_account_reads_back_as_it_was_written() {
    let account = store().load_account(Ok(Some(ACCOUNT.to_vec()))).unwrap().unwrap();
    let file = store().save_account(&account).unwrap();
    assert_eq!(file.name, "account.json");
    assert_eq!(file.path, "/var/lib/river/account.json");
    assert_eq!(file.mode, 0o600);
    let written = String::from_utf8(file.contents.clone()).unwrap();
    assert!(written.contains("https://ca.test/acct/7") && written.contains("AQID_-8"));

    let again = store().load_account(Ok(Some(file.contents.clone()))).unwrap().unwrap();
    assert_eq!(
        again.private_key().secret_pkcs8_der(),
        account.private_key().secret_pkcs8_der()
    );
    assert_eq!(store().save_account(&again).unwrap().contents, file.contents);
}

#[test]
fn an_account_that_cannot_be_written_out_names_its_file() {
    assert_eq!(
        store().account_file(Err("no".into())).unwrap_err(),
        AcmeError::Malformed {
            path: "/var/lib/river/account.json".into(),
            source: "no".into(),
        }
    );
    let file = store().account_file(Ok(b"{}".to_vec())).unwrap();
    assert_eq!((file.contents.as_slice(), file.mode), (b"{}".as_slice(), 0o600));
}
