//! Changes to headers.
use river::config::internal::HeaderModifier;
use river::proxy::glob::Glob;
use river::proxy::headers::{apply, Headers};
use river::proxy::message::{RequestHead, RequestUri, ResponseHead, Target};
use river::proxy::rate_limiting::RegexShim;

fn bare() -> RequestHead {
    RequestHead {
        method: "GET".to_string(),
        uri: RequestUri {
            scheme: None,
            authority: None,
            target: Some(Target {
                path: "/".to_string(),
                query: None,
            }),
        },
        headers: vec![],
    }
}

fn request() -> RequestHead {
    let mut h = bare();
    h.append("x-internal-trace", b"abc");
    h.append("x-internal-span", b"def");
    h.append("x-keep", b"yes");
    h.append("accept-encoding", b"gzip");
    h
}

fn names(h: &RequestHead) -> Vec<String> {
    let mut n = h.names();
    n.sort();
    n
}

fn values(h: &RequestHead, name: &str) -> Vec<String> {
    h.headers
        .iter()
        .filter(|x| x.name == name)
        .map(|x| String::from_utf8(x.value.clone()).unwrap())
        .collect()
}

#[test]
fn a_glob_removes_the_headers_it_matches() {
    let mut h = request();
    apply(
        &HeaderModifier::RemoveHeaderKeyGlob {
            pattern: Glob::new("x-internal-*"),
        },
        &mut h,
    );
    assert_eq!(names(&h), vec!["accept-encoding", "x-keep"]);
}

#[test]
fn a_regex_removes_the_headers_it_matches() {
    let mut h = request();
    apply(
        &HeaderModifier::RemoveHeaderKeyRegex {
            pattern: RegexShim::new("^x-internal-").unwrap(),
        },
        &mut h,
    );
    assert_eq!(names(&h), vec!["accept-encoding", "x-keep"]);
}

#[test]
fn an_exact_removal_takes_only_that_header() {
    let mut h = request();
    apply(
        &HeaderModifier::RemoveHeader {
            key: "x-internal-trace".to_string(),
        },
        &mut h,
    );
    assert_eq!(
        names(&h),
        vec!["accept-encoding", "x-internal-span", "x-keep"]
    );
}

#[test]
fn upsert_replaces_and_append_does_not() {
    let mut h = request();
    let key = "accept-encoding".to_string();

    apply(
        &HeaderModifier::AppendHeader {
            key: key.clone(),
            value: b"br".to_vec(),
        },
        &mut h,
    );
    assert_eq!(values(&h, &key).len(), 2);

    apply(
        &HeaderModifier::UpsertHeader {
            key: key.clone(),
            value: b"identity".to_vec(),
        },
        &mut h,
    );
    assert_eq!(values(&h, &key), vec!["identity"]);
}

/// Removing a header that appears more than once should take every copy,
/// not just the first.
#[test]
fn removal_takes_every_copy_of_a_repeated_header() {
    let mut h = request();
    h.append("x-internal-trace", b"second");
    assert_eq!(values(&h, "x-internal-trace").len(), 2);

    apply(
        &HeaderModifier::RemoveHeaderKeyGlob {
            pattern: Glob::new("x-internal-trace"),
        },
        &mut h,
    );
    assert_eq!(values(&h, "x-internal-trace").len(), 0);
}

#[test]
fn a_change_touches_nothing_but_headers() {
    let mut h = request();
    let before = request();
    apply(
        &HeaderModifier::UpsertHeader {
            key: "x-keep".to_string(),
            value: b"no".to_vec(),
        },
        &mut h,
    );
    assert_eq!(h.method, before.method);
    assert_eq!(h.uri, before.uri);
    assert_eq!(values(&h, "x-keep"), vec!["no"]);
    assert_eq!(values(&h, "x-internal-span"), vec!["def"]);

    let mut r = ResponseHead {
        status: 204,
        headers: vec![],
    };
    apply(
        &HeaderModifier::AppendHeader {
            key: "x-a".to_string(),
            value: b"b".to_vec(),
        },
        &mut r,
    );
    assert_eq!(r.status, 204);
    assert_eq!(r.names(), vec!["x-a"]);
}
