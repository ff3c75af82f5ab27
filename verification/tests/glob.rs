//! Patterns with wildcards.
use river::proxy::glob::Glob;

#[test]
fn a_literal_pattern_matches_only_itself() {
    let g = Glob::new("x-secret");
    assert!(g.is_match("x-secret"));
    assert!(!g.is_match("x-secrets"));
    assert!(!g.is_match("y-secret"));
}

#[test]
fn header_names_match_case_insensitively() {
    let g = Glob::new("X-Internal-*");
    assert!(g.is_match("x-internal-trace"));
    assert!(g.is_match("X-INTERNAL-TRACE"));
}

#[test]
fn a_star_matches_any_run_including_nothing() {
    let g = Glob::new("x-*-id");
    assert!(g.is_match("x--id"));
    assert!(g.is_match("x-request-id"));
    assert!(g.is_match("x-a-b-c-id"));
    assert!(!g.is_match("x-request-idx"));
}

#[test]
fn a_question_mark_matches_exactly_one() {
    let g = Glob::new("x-?");
    assert!(g.is_match("x-a"));
    assert!(!g.is_match("x-"));
    assert!(!g.is_match("x-ab"));
}

#[test]
fn a_bare_star_matches_everything() {
    let g = Glob::new("*");
    assert!(g.is_match(""));
    assert!(g.is_match("anything"));
}

#[test]
fn trailing_stars_may_match_nothing() {
    assert!(Glob::new("abc*").is_match("abc"));
    assert!(Glob::new("abc***").is_match("abc"));
}

/// The case that makes the backtracking version blow up. It should return
/// promptly rather than taking exponential time in the number of stars.
#[test]
fn many_stars_against_a_long_name_stays_fast() {
    let g = Glob::new("*a*a*a*a*a*a*a*a*b");
    let text = "a".repeat(2048);
    assert!(!g.is_match(&text));
}

#[test]
fn case_is_ignored_in_ascii_and_beyond_it() {
    assert!(Glob::new("X-?").is_match("x-Z"));
    assert!(Glob::new("x-Ä*").is_match("X-äb"));
    assert!(!Glob::new("x-Ä*").is_match("x-ab"));
}
