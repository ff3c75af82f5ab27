//! Checking and normalizing requests.
use river::config::internal::Normalization;
use river::proxy::message::{Header, RequestHead, RequestUri, Target};
use river::proxy::normalize::{apply, normalize_path, Rejected};


fn on() -> Normalization {
    Normalization::default()
}

fn norm(path: &str) -> Result<String, Rejected> {
    normalize_path(path, &on())
}

#[test]
fn a_canonical_path_is_left_alone() {
    assert_eq!(norm("/api/users").unwrap(), "/api/users");
    assert_eq!(norm("/").unwrap(), "/");
}

#[test]
fn dot_segments_are_resolved() {
    assert_eq!(norm("/static/../admin").unwrap(), "/admin");
    assert_eq!(norm("/a/./b").unwrap(), "/a/b");
    assert_eq!(norm("/a/b/..").unwrap(), "/a");
}

/// The reason normalization has to run before the filters: without it,
/// these three spellings reach different filters but the same file.
#[test]
fn every_spelling_of_a_traversal_lands_in_one_place() {
    assert_eq!(norm("/static/../admin").unwrap(), "/admin");
    assert_eq!(norm("/static/%2E%2E/admin").unwrap(), "/admin");
    assert_eq!(norm("/static//..///admin").unwrap(), "/admin");
}

#[test]
fn climbing_above_the_root_is_rejected_not_clamped() {
    // Clamping would make this identical to /etc/passwd, so a rule written
    // against one would not cover the other.
    assert_eq!(norm("/../etc/passwd"), Err(Rejected::PathEscapesRoot));
    assert_eq!(norm("/a/../../b"), Err(Rejected::PathEscapesRoot));
}

#[test]
fn normalize_duplicate_slashes_are_collapsed() {
    assert_eq!(norm("/a//b///c").unwrap(), "/a/b/c");
}

#[test]
fn a_trailing_slash_is_preserved() {
    assert_eq!(norm("/a/b/").unwrap(), "/a/b/");
    assert_eq!(norm("/a/b").unwrap(), "/a/b");
}

#[test]
fn unreserved_characters_are_decoded() {
    assert_eq!(norm("/%61%62%63").unwrap(), "/abc");
    assert_eq!(norm("/a%2Db").unwrap(), "/a-b");
}

#[test]
fn reserved_characters_stay_encoded_in_canonical_case() {
    // A literal space must stay encoded, but `%20` and `%20` should not be
    // two different paths just because of the hex case.
    assert_eq!(norm("/a%20b").unwrap(), "/a%20b");
    assert_eq!(norm("/a%3fb").unwrap(), "/a%3Fb");
}

#[test]
fn an_encoded_separator_is_rejected() {
    // `%2F` means "not a separator". If River treats it as one and the
    // upstream server does not - or the other way round - they disagree
    // about what was requested.
    assert_eq!(norm("/a%2Fb"), Err(Rejected::EncodedSeparator));
    assert_eq!(norm("/a%2fb"), Err(Rejected::EncodedSeparator));
    assert_eq!(norm("/a%5Cb"), Err(Rejected::EncodedSeparator));
}

#[test]
fn control_characters_are_rejected_encoded_or_not() {
    assert_eq!(norm("/a%00b"), Err(Rejected::ControlCharacter));
    assert_eq!(norm("/a%0Ab"), Err(Rejected::ControlCharacter));
    assert_eq!(norm("/a\u{1}b"), Err(Rejected::ControlCharacter));
}

#[test]
fn a_malformed_percent_encoding_is_rejected() {
    assert_eq!(norm("/a%zzb"), Err(Rejected::BadPercentEncoding));
    assert_eq!(norm("/a%2"), Err(Rejected::BadPercentEncoding));
    assert_eq!(norm("/a%"), Err(Rejected::BadPercentEncoding));
}

#[test]
fn empty_segments_stay_where_slashes_are_not_collapsed() {
    let config = Normalization {
        duplicate_slashes: false,
        ..on()
    };
    let norm = |path: &str| normalize_path(path, &config);
    for path in ["/a//b", "//", "/a//", "//a///b/", "/"] {
        assert_eq!(norm(path).unwrap(), path);
    }
    assert_eq!(norm("/a//./b").unwrap(), "/a//b");
    // An empty segment is one that `..` can climb out of
    assert_eq!(norm("/a//../b").unwrap(), "/a/b");
    assert_eq!(norm("/a/..//b").unwrap(), "//b");
    assert_eq!(norm("/.."), Err(Rejected::PathEscapesRoot));
}

#[test]
fn other_characters_are_left_alone() {
    assert_eq!(norm("/é").unwrap(), "/é");
    assert_eq!(norm("/日本/./語").unwrap(), "/日本/語");
    assert_eq!(norm("/caf%c3%a9").unwrap(), "/caf%C3%A9");
    assert_eq!(norm("/%é1"), Err(Rejected::BadPercentEncoding));
}

#[test]
fn each_check_can_be_turned_off_on_its_own() {
    let mut config = on();
    config.encoded_separators = false;
    config.percent_encoding = false;
    // With decoding off, the encoded separator is passed through as-is.
    assert_eq!(normalize_path("/a%2Fb", &config).unwrap(), "/a%2Fb");

    let mut config = on();
    config.dot_segments = false;
    assert_eq!(normalize_path("/a/../b", &config).unwrap(), "/a/../b");

    let mut config = on();
    config.duplicate_slashes = false;
    config.dot_segments = false;
    assert_eq!(normalize_path("/a//b", &config).unwrap(), "/a//b");
}

//
// Header and Host checks
//

fn target(path: &str) -> Target {
    match path.split_once('?') {
        Some((p, q)) => Target {
            path: p.to_string(),
            query: Some(q.to_string()),
        },
        None => Target {
            path: path.to_string(),
            query: None,
        },
    }
}

fn append(h: &mut RequestHead, name: &str, value: &[u8]) {
    h.headers.push(Header {
        name: name.to_string(),
        value: value.to_vec(),
    });
}

fn bare_request(path: &str) -> RequestHead {
    RequestHead {
        method: "GET".to_string(),
        uri: RequestUri {
            scheme: None,
            authority: None,
            target: Some(target(path)),
        },
        headers: vec![],
    }
}

fn request(path: &str) -> RequestHead {
    let mut h = bare_request(path);
    append(&mut h, "host", b"example.com");
    h
}

#[test]
fn a_normal_request_passes() {
    let mut h = request("/api/users");
    assert!(apply(&mut h, &on()).is_ok());
    assert_eq!(h.path(), "/api/users");
}

#[test]
fn the_uri_is_rewritten_in_place() {
    let mut h = request("/static/../admin?a=1");
    assert!(apply(&mut h, &on()).is_ok());
    assert_eq!(h.path(), "/admin");
    // The query is not the path, and is left exactly as it arrived.
    assert_eq!(h.uri.target.unwrap().query.as_deref(), Some("a=1"));
}

#[test]
fn two_host_headers_are_rejected() {
    let mut h = request("/");
    append(&mut h, "host", b"evil.example");
    assert_eq!(apply(&mut h, &on()), Err(Rejected::DuplicateHost));
}

#[test]
fn a_missing_host_is_rejected() {
    let mut h = bare_request("/");
    assert_eq!(apply(&mut h, &on()), Err(Rejected::MissingHost));
}

/// An HTTP/2 request carries `:authority`, which arrives as the authority of
/// the URI.
fn h2_request(authority: &str, path: &str, host: Option<&str>) -> RequestHead {
    let mut h = bare_request(path);
    h.uri.scheme = Some("http".to_string());
    h.uri.authority = Some(authority.to_string());
    if let Some(host) = host {
        append(&mut h, "host", host.as_bytes());
    }
    h
}

#[test]
fn an_authority_without_a_host_header_is_fine() {
    let mut h = h2_request("a.example", "/", None);
    assert!(h.uri.authority.is_some(), "test needs an authority");
    assert!(apply(&mut h, &on()).is_ok());
}

#[test]
fn a_host_disagreeing_with_the_authority_is_rejected() {
    // The shape of a request smuggling attack: River routes on one name
    // while the upstream server sees the other.
    let mut h = h2_request("a.example", "/", Some("b.example"));
    assert_eq!(apply(&mut h, &on()), Err(Rejected::HostMismatch));
}

#[test]
fn a_host_matching_the_authority_is_fine() {
    // Case and a trailing dot are not a disagreement.
    let mut h = h2_request("a.example", "/", Some("A.Example."));
    assert!(apply(&mut h, &on()).is_ok());
}

#[test]
fn the_host_check_can_be_turned_off() {
    let mut config = on();
    config.host = false;
    let mut h = h2_request("a.example", "/", Some("b.example"));
    assert!(apply(&mut h, &config).is_ok());
}

#[test]
fn obs_text_is_allowed_unless_asked_about() {
    let mut h = request("/");
    append(&mut h, "x-note", b"caf\xC3\xA9");

    // Off by default: real traffic carries UTF-8 in headers, and rejecting
    // it would break more than it protects.
    assert!(apply(&mut h, &on()).is_ok());

    let mut strict = on();
    strict.header_non_ascii = true;
    assert_eq!(apply(&mut h, &strict), Err(Rejected::NonAsciiHeader));
}

#[test]
fn what_is_normal_stays_as_it_is() {
    for path in ["/a/./b/../c", "//x//y/", "/%7euser/%2e%2e/z", "/a%2fb/../c", "/"] {
        let config = Normalization {
            encoded_separators: false,
            ..on()
        };
        let once = normalize_path(path, &config).unwrap();
        assert_eq!(normalize_path(&once, &config).unwrap(), once, "{path}");
    }
}

#[test]
fn what_a_path_becomes_is_a_target_again() {
    for (before, after) in [
        ("/static/../admin?a=1&b=/../c", "/admin?a=1&b=/../c"),
        ("//a//./b/%7e", "/a/b/~"),
        ("/a/../?", "/?"),
        ("/%c3%a9?q=%zz", "/%C3%A9?q=%zz"),
    ] {
        let mut h = request(before);
        assert_eq!(apply(&mut h, &on()), Ok(()), "{before}");
        assert_eq!(h.uri.target, Some(target(after)), "{before}");
    }
}

#[test]
fn a_target_that_cannot_be_written_is_rejected() {
    // Neither the path nor the query of a target has room for these
    for (path, query) in [("/./a b", None), ("/./a", Some("b c")), ("/./a", Some("b\u{7f}"))] {
        let mut h = request("/");
        h.uri.target = Some(Target {
            path: path.to_string(),
            query: query.map(str::to_string),
        });
        let before = h.clone();
        assert!(apply(&mut h, &on()).is_err(), "{path:?} {query:?}");
        assert_eq!(h, before);
    }
    // Nor is there room for one as long as this, unless it gets shorter on the way
    let long = |n: usize| format!("/./{}", "a".repeat(n));
    let mut fits = request(&long(65_533));
    assert_eq!(apply(&mut fits, &on()), Ok(()));
    assert_eq!(fits.path().len(), 65_534);
    assert!(apply(&mut request(&long(65_534)), &on()).is_err());
}
