//! Certificates and the names they are served for.
use std::sync::Arc;

use openssl::asn1::Asn1Time;
use openssl::bn::{BigNum, MsbOption};
use openssl::ec::{EcGroup, EcKey};
use openssl::hash::MessageDigest;
use openssl::nid::Nid;
use openssl::pkey::PKey;
use openssl::x509::extension::SubjectAlternativeName;
use openssl::x509::{X509NameBuilder, X509};

use river::tls::backend::ParsedCertificate;
use river::tls::resolver::CertResolver;
use river::tls::store::{normalize, CertStore, Certificate, CertificateBundle, ServedName};
use river::tls::CertificateError;

/// A self signed certificate covering `names`, valid for `days`
fn self_signed(names: &[&str], days: u32) -> CertificateBundle {
    let group = EcGroup::from_curve_name(Nid::X9_62_PRIME256V1).unwrap();
    let key = PKey::from_ec_key(EcKey::generate(&group).unwrap()).unwrap();

    let mut name = X509NameBuilder::new().unwrap();
    name.append_entry_by_text("CN", names[0]).unwrap();
    let name = name.build();

    let mut builder = X509::builder().unwrap();
    builder.set_version(2).unwrap();

    let mut serial = BigNum::new().unwrap();
    serial.rand(159, MsbOption::MAYBE_ZERO, false).unwrap();
    builder
        .set_serial_number(&serial.to_asn1_integer().unwrap())
        .unwrap();

    builder.set_subject_name(&name).unwrap();
    builder.set_issuer_name(&name).unwrap();
    builder.set_pubkey(&key).unwrap();
    builder
        .set_not_before(&Asn1Time::days_from_now(0).unwrap())
        .unwrap();
    builder
        .set_not_after(&Asn1Time::days_from_now(days).unwrap())
        .unwrap();

    let mut san = SubjectAlternativeName::new();
    for n in names {
        san.dns(n);
    }
    let san = san.build(&builder.x509v3_context(None, None)).unwrap();
    builder.append_extension(san).unwrap();

    builder.sign(&key, MessageDigest::sha256()).unwrap();

    CertificateBundle {
        chain_pem: builder.build().to_pem().unwrap(),
        key_pem: key.private_key_to_pem_pkcs8().unwrap(),
    }
}

fn served(names: &[&str]) -> Vec<ServedName> {
    names
        .iter()
        .map(|n| ServedName::parse(n).unwrap())
        .collect()
}

fn store_with(names: &[&str]) -> CertStore {
    let mut store = CertStore::new();
    let cert = Arc::new(Certificate::new(self_signed(names, 30)).ok().unwrap());
    store.insert(&served(names), cert);
    store
}

fn parsed(bundle: &CertificateBundle) -> ParsedCertificate {
    ParsedCertificate::from_bundle(bundle).ok().unwrap()
}

#[test]
fn parses_a_valid_bundle() {
    let bundle = self_signed(&["example.com", "www.example.com"], 30);

    assert_eq!(
        parsed(&bundle).dns_names(),
        vec!["example.com".to_string(), "www.example.com".to_string()]
    );
}

fn unix_now() -> u64 {
    std::time::SystemTime::now()
        .duration_since(std::time::UNIX_EPOCH)
        .unwrap()
        .as_secs()
}

#[test]
fn reports_days_until_expiry() {
    let parsed = parsed(&self_signed(&["example.com"], 30));

    // Allow a day of slack, since the comparison is against the wall clock.
    let days = parsed.days_until_expiry(unix_now()).unwrap();
    assert!((29..=30).contains(&days), "unexpected days: {days}");

    // Ten days later there are ten fewer, and in the end there are none.
    let later = parsed.days_until_expiry(unix_now() + 10 * 86_400).unwrap();
    assert!((19..=20).contains(&later), "unexpected days: {later}");
    let past = parsed.days_until_expiry(unix_now() + 40 * 86_400).unwrap();
    assert!((-10..=-9).contains(&past), "unexpected days: {past}");
    // A time that no certificate can be written for
    assert!(matches!(
        parsed.days_until_expiry(i64::MAX as u64),
        Err(CertificateError::BadChain(_))
    ));
}

#[test]
fn rejects_a_mismatched_key() {
    let mixed = CertificateBundle {
        chain_pem: self_signed(&["example.com"], 30).chain_pem,
        key_pem: self_signed(&["other.example.com"], 30).key_pem,
    };

    assert!(matches!(
        ParsedCertificate::from_bundle(&mixed),
        Err(CertificateError::KeyMismatch)
    ));
}

#[test]
fn rejects_an_empty_chain() {
    let empty = CertificateBundle {
        chain_pem: Vec::new(),
        key_pem: self_signed(&["example.com"], 30).key_pem,
    };

    assert!(matches!(
        ParsedCertificate::from_bundle(&empty),
        Err(CertificateError::EmptyChain)
    ));
}

#[test]
fn rejects_what_is_no_certificate_and_no_key() {
    let good = self_signed(&["example.com"], 30);
    let chain = CertificateBundle {
        chain_pem: b"-----BEGIN CERTIFICATE-----\nAAAA\n-----END CERTIFICATE-----\n".to_vec(),
        key_pem: good.key_pem.clone(),
    };
    assert!(matches!(
        ParsedCertificate::from_bundle(&chain),
        Err(CertificateError::BadChain(_))
    ));

    let key = CertificateBundle {
        chain_pem: good.chain_pem.clone(),
        key_pem: b"not a key".to_vec(),
    };
    assert!(matches!(
        Certificate::new(key),
        Err(CertificateError::BadKey(_))
    ));
}

#[test]
fn a_chain_keeps_its_intermediates_in_order() {
    let leaf = self_signed(&["example.com"], 30);
    let first = self_signed(&["first.example"], 30);
    let second = self_signed(&["second.example"], 30);
    let mut chain_pem = leaf.chain_pem.clone();
    chain_pem.extend_from_slice(&first.chain_pem);
    chain_pem.extend_from_slice(&second.chain_pem);
    let whole = parsed(&CertificateBundle {
        chain_pem,
        key_pem: leaf.key_pem,
    });
    assert_eq!(whole.leaf.to_pem().unwrap(), leaf.chain_pem);
    assert_eq!(whole.intermediates.len(), 2);
    assert_eq!(whole.intermediates[0].to_pem().unwrap(), first.chain_pem);
    assert_eq!(whole.intermediates[1].to_pem().unwrap(), second.chain_pem);
}

#[test]
fn errors_say_what_went_wrong() {
    assert_eq!(
        CertificateError::BadChain("x".into()).to_text(),
        "could not parse the certificate chain: x"
    );
    assert_eq!(
        CertificateError::EmptyChain.to_text(),
        "the certificate chain contained no certificates"
    );
    assert_eq!(
        CertificateError::BadKey("x".into()).to_text(),
        "could not parse the private key: x"
    );
    assert_eq!(
        CertificateError::KeyMismatch.to_text(),
        "the private key does not match the leaf certificate"
    );
    assert_eq!(
        CertificateError::Install("x".into()).to_text(),
        "could not install the certificate into the TLS handshake: x"
    );
    assert_eq!(
        CertificateError::BadName("x y".into()).to_text(),
        "'x y' is not a valid DNS name"
    );
}

#[test]
fn resolves_exact_names() {
    let store = store_with(&["example.com", "www.example.com"]);

    assert!(store.get("example.com").is_some());
    assert!(store.get("www.example.com").is_some());
    // SNI comparison is case insensitive
    assert!(store.get("WWW.Example.com").is_some());
    assert!(store.get("other.example.com").is_none());
}

#[test]
fn resolves_wildcards() {
    let store = store_with(&["*.example.com"]);

    assert!(store.get("www.example.com").is_some());
    // A wildcard does not cover its own parent
    assert!(store.get("example.com").is_none());
    // Nor a deeper name
    assert!(store.get("a.b.example.com").is_none());
}

#[test]
fn exact_names_win_over_wildcards() {
    let mut store = CertStore::new();

    let wild = Arc::new(Certificate::new(self_signed(&["*.example.com"], 30)).ok().unwrap());
    store.insert(&[ServedName::parse("*.example.com").unwrap()], wild);

    let exact = Arc::new(Certificate::new(self_signed(&["www.example.com"], 90)).ok().unwrap());
    store.insert(&[ServedName::parse("www.example.com").unwrap()], exact);

    // Both could serve `www.example.com`; the exact match is the one with
    // the 90 day lifetime.
    let resolved = store.get("www.example.com").unwrap();
    assert_eq!(resolved.parsed().dns_names(), vec!["www.example.com"]);

    // The wildcard still covers everything else
    assert!(store.get("other.example.com").is_some());
}

#[test]
fn a_wildcard_needs_a_label_in_front_of_it() {
    let store = store_with(&["*.example.com"]);
    assert!(store.get("www.example.com").is_some());
    assert!(store.get(".example.com").is_none());
    assert!(store.get("example.com").is_none());
    assert!(store.get("a.b.example.com").is_none());
    let name = ServedName::parse("*.example.com").unwrap();
    assert!(!name.matches(".example.com"));
}

#[test]
fn replacing_a_certificate_takes_effect() {
    let mut store = store_with(&["example.com"]);
    let before = store.get("example.com").unwrap();
    assert!(before.parsed().days_until_expiry(unix_now()).unwrap() <= 30);

    // A renewal is just an insert over the same name
    let renewed = Arc::new(Certificate::new(self_signed(&["example.com"], 90)).ok().unwrap());
    store.insert(&[ServedName::parse("example.com").unwrap()], renewed);

    let after = store.get("example.com").unwrap();
    assert!(after.parsed().days_until_expiry(unix_now()).unwrap() > 30);
}

#[test]
fn reports_coverage() {
    let store = store_with(&["example.com", "*.example.com"]);

    assert!(store.covers_all(&served(&["example.com", "*.example.com"])));
    assert!(!store.covers_all(&served(&["example.com", "other.test"])));
}

#[test]
fn a_handshake_without_a_known_name_is_left_alone() {
    let resolver = CertResolver::new(store_with(&["example.com"]));
    assert!(resolver.certificate_for(Some("example.com")).is_some());
    assert!(resolver.certificate_for(Some("other.test")).is_none());
    assert!(resolver.certificate_for(None).is_none());
}

#[test]
fn parses_names() {
    assert_eq!(
        ServedName::parse("example.com").unwrap(),
        ServedName::Exact("example.com".into())
    );
    // Case and trailing dots are normalized away
    assert_eq!(
        ServedName::parse("  WWW.Example.COM. ").unwrap(),
        ServedName::Exact("www.example.com".into())
    );
    assert_eq!(
        ServedName::parse("*.example.com").unwrap(),
        ServedName::Wildcard("example.com".into())
    );
}

#[test]
fn rejects_implausible_names() {
    for bad in [
        "",
        " ",
        "example..com",
        "https://example.com",
        "example.com/path",
        "exa mple.com",
        "-example.com",
        "example-.com",
        // A wildcard needs a parent domain to be a wildcard of
        "*.com",
        "*",
        // Only a leading `*.` is a wildcard
        "www.*.example.com",
    ] {
        assert!(
            ServedName::parse(bad).is_err(),
            "expected '{bad}' to be rejected"
        );
    }
}

#[test]
fn wildcards_match_exactly_one_label() {
    let wild = ServedName::parse("*.example.com").unwrap();

    assert!(wild.matches("www.example.com"));
    assert!(wild.matches("anything.example.com"));

    // The parent itself is not covered by its own wildcard
    assert!(!wild.matches("example.com"));
    // Neither is a deeper name
    assert!(!wild.matches("a.b.example.com"));
    // Nor a name that merely ends with the same text
    assert!(!wild.matches("notexample.com"));
    assert!(!wild.matches("www.notexample.com"));
}

#[test]
fn exact_names_match_only_themselves() {
    let exact = ServedName::parse("example.com").unwrap();

    assert!(exact.matches("example.com"));
    assert!(!exact.matches("www.example.com"));
    assert!(!exact.matches("example.com.evil.test"));
}

#[test]
fn names_are_written_as_they_are_read() {
    for name in ["example.com", "*.example.com"] {
        let parsed = ServedName::parse(name).unwrap();
        assert_eq!(parsed.to_text(), name);
        assert_eq!(parsed.is_wildcard(), name.starts_with('*'));
    }
}

#[test]
fn case_blanks_and_final_dots_make_no_difference() {
    let plain = normalize("www.example.com");
    for other in ["WWW.Example.com", " www.example.com\t", "www.example.com..", "\n wWw.example.com. "] {
        assert_eq!(normalize(other), plain, "{other:?}");
    }
    // A blank in front of the dots is not around the name
    assert_ne!(normalize("www.example.com ."), plain);
    let store = store_with(&["www.example.com"]);
    assert!(store.get("WWW.EXAMPLE.COM.").is_some());
}
