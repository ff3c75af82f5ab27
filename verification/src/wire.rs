//! Names and values as HTTP allows them, read by the `http` crate.
use crate::proxy::message::Target;
use crate::text;
use vstd::prelude::*;

verus! {

/// A character that RFC 9110 allows in a token.
pub open spec fn is_token_char(c: char) -> bool {
    'a' <= c <= 'z' || 'A' <= c <= 'Z' || '0' <= c <= '9' || c == '!' || c == '#' || c == '$' || c
        == '%' || c == '&' || c == '\'' || c == '*' || c == '+' || c == '-' || c == '.' || c == '^'
        || c == '_' || c == '`' || c == '|' || c == '~'
}

/// A nonempty run of token characters.
pub open spec fn is_token(s: Seq<char>) -> bool {
    s.len() > 0 && forall|i: int| 0 <= i < s.len() ==> is_token_char(#[trigger] s[i])
}

/// A byte that a header value may hold.
pub open spec fn is_value_byte(b: u8) -> bool {
    b >= 0x20 && b != 0x7f || b == 0x09
}

/// A text whose bytes may all stand in a header value.
pub open spec fn is_header_value(s: Seq<char>) -> bool {
    forall|i: int| 0 <= i < text::utf8(s).len() ==> is_value_byte(#[trigger] text::utf8(s)[i])
}

/// A text that names a header.
pub open spec fn is_header_name(s: Seq<char>) -> bool {
    is_token(s) && s.len() <= 65535
}

/// `http::HeaderName::from_bytes` accepts a token of at most 65535 characters,
/// and gives it back in lower case.
#[verifier::external_body]
pub(crate) fn header_name(name: &str) -> (r: Option<String>)
    ensures
        match r {
            Some(n) => is_header_name(name@) && n@ == text::lower_text(name@),
            None => !is_header_name(name@),
        },
{
    match http::HeaderName::from_bytes(name.as_bytes()) {
        Ok(n) => Some(n.as_str().to_string()),
        Err(_) => None,
    }
}

/// `http::HeaderValue::from_str` accepts text without control characters other
/// than a tab, and keeps its bytes.
#[verifier::external_body]
pub(crate) fn header_value(value: &str) -> (r: Option<Vec<u8>>)
    ensures
        match r {
            Some(v) => is_header_value(value@) && v@ == text::utf8(value@),
            None => !is_header_value(value@),
        },
{
    match http::HeaderValue::from_str(value) {
        Ok(v) => Some(v.as_bytes().to_vec()),
        Err(_) => None,
    }
}

/// `http::Method::from_bytes` accepts any token, and keeps it as it is.
#[verifier::external_body]
pub(crate) fn method(name: &str) -> (r: Option<String>)
    ensures
        match r {
            Some(m) => is_token(name@) && m@ == name@,
            None => !is_token(name@),
        },
{
    match http::Method::from_bytes(name.as_bytes()) {
        Ok(m) => Some(m.as_str().to_string()),
        Err(_) => None,
    }
}

/// An optional text, as its characters.
pub open spec fn opt_text(s: Option<String>) -> Option<Seq<char>> {
    match s {
        Some(t) => Some(t@),
        None => None,
    }
}

/// A target as a pair of its path and its query.
pub open spec fn target_parts(t: Target) -> (Seq<char>, Option<Seq<char>>) {
    (t.path@, opt_text(t.query))
}

/// A path as it is read: one with nothing in it is `/`.
pub open spec fn path_read(path: Seq<char>) -> Seq<char> {
    if path.len() == 0 {
        "/"@
    } else {
        path
    }
}

/// Is `s` the two texts with a `?` between them, the first that there is?
pub open spec fn is_joint(s: Seq<char>, before: Seq<char>, query: Seq<char>) -> bool {
    !before.contains('?') && s == before + seq!['?'] + query
}

/// Are these the path and the query of a text, parted at its first `?`?
pub open spec fn parted(s: Seq<char>, parts: (Seq<char>, Option<Seq<char>>)) -> bool {
    match parts.1 {
        None => !s.contains('?') && parts.0 == s,
        Some(query) => exists|before: Seq<char>| #[trigger]
            is_joint(s, before, query) && parts.0 == path_read(before),
    }
}

/// The longest path and query that a URI has, in bytes.
pub const MAX_TARGET_BYTES: usize = 65534;

/// A character that may stand in a path as it is.
pub open spec fn is_path_char(c: char) -> bool {
    c == '!' || c == '"' || '$' <= c <= ';' || c == '=' || '@' <= c <= '_' || 'a' <= c <= '~' || c
        >= '\u{80}'
}

/// A character that may stand in a query as it is.
pub open spec fn is_query_char(c: char) -> bool {
    c == '!' || '$' <= c <= ';' || c == '=' || '?' <= c <= '~' || c >= '\u{80}'
}

/// `s` up to the first `mark`.
pub open spec fn up_to(s: Seq<char>, mark: char) -> Seq<char> {
    match s.index_of_first(mark) {
        Some(i) => s.take(i),
        None => s,
    }
}

/// What follows the first `mark`, if there is one.
pub open spec fn behind(s: Seq<char>, mark: char) -> Option<Seq<char>> {
    match s.index_of_first(mark) {
        Some(i) => Some(s.skip(i + 1)),
        None => None,
    }
}

/// May every character of a path and of a query stand there?
pub open spec fn is_written_out(path: Seq<char>, query: Option<Seq<char>>) -> bool {
    &&& forall|i: int| 0 <= i < path.len() ==> is_path_char(#[trigger] path[i])
    &&& query matches Some(q) ==> forall|i: int|
        0 <= i < q.len() ==> is_query_char(#[trigger] q[i])
}

/// The path and the query that a text spells, if it spells any: the path ends at the
/// first `?`, and both end at the first `#`.
pub open spec fn path_and_query(s: Seq<char>) -> Option<(Seq<char>, Option<Seq<char>>)> {
    let whole = up_to(s, '#');
    let path = up_to(whole, '?');
    let query = behind(whole, '?');
    if s.len() == 0 || text::utf8(s).len() > MAX_TARGET_BYTES {
        None
    } else if s == seq!['*'] {
        Some((s, None))
    } else if (s[0] == '/' || s[0] == '?' || s[0] == '#') && is_written_out(path, query) {
        Some((path_read(path), query))
    } else {
        None
    }
}

/// `http::uri::PathAndQuery::try_from` accepts `*`, and what begins with `/`, `?` or `#`
/// and is made of the characters that may stand in a path and a query. It takes no note
/// of what follows a `#`, but for the length.
#[verifier::external_body]
pub(crate) fn parse_path_and_query(s: &str) -> (r: Option<Target>)
    ensures
        match r {
            Some(t) => path_and_query(s@) == Some(target_parts(t)),
            None => path_and_query(s@) is None,
        },
{
    match http::uri::PathAndQuery::try_from(s) {
        Ok(pq) => Some(
            Target { path: pq.path().to_string(), query: pq.query().map(str::to_string) },
        ),
        Err(_) => None,
    }
}

/// A text without a fragment is taken apart at its first `?`.
pub proof fn a_target_is_parted(s: Seq<char>)
    requires
        !s.contains('#'),
    ensures
        path_and_query(s) matches Some(parts) ==> parted(s, parts),
{
    s.index_of_first_ensures('#');
    s.index_of_first_ensures('?');
    assert(up_to(s, '#') == s);
    if s == seq!['*'] {
        assert(!s.contains('?'));
        assert(parted(s, (s, None)));
    } else {
        match s.index_of_first('?') {
            Some(i) => {
                let before = s.take(i);
                let query = s.skip(i + 1);
                assert forall|k: int| 0 <= k < before.len() implies before[k] != '?' by {
                    assert(before[k] == s[k]);
                }
                assert(!before.contains('?'));
                assert(s =~= before + seq!['?'] + query);
                assert(is_joint(s, before, query));
                let parts = (path_read(before), Some(query));
                assert(parts.1 is Some && is_joint(s, before, parts.1->0) && parts.0 == path_read(
                    before,
                ));
                assert(exists|b: Seq<char>| #[trigger]
                    is_joint(s, b, query) && parts.0 == path_read(b));
                assert(parted(s, parts));
            },
            None => {
                if s.len() > 0 {
                    assert(parted(s, (s, None)));
                }
            },
        }
    }
}

/// A token is one character by character: it has at least one, and each is a letter, a
/// digit or one of the marks that are allowed. Two tokens written together are one.
pub proof fn a_token_is_one_character_by_character(a: Seq<char>, b: Seq<char>, c: char)
    requires
        a.len() > 0,
        b.len() > 0,
    ensures
        is_token(a + b) <==> is_token(a) && is_token(b),
        is_token(seq![c]) <==> is_token_char(c),
        !is_token(Seq::empty()),
        c == ' ' || c == ',' || c == '/' || c == ':' ==> !is_token_char(c),
        'a' <= c <= 'z' || 'A' <= c <= 'Z' || '0' <= c <= '9' || c == '-' ==> is_token_char(c),
{
    let both = a + b;
    if is_token(both) {
        assert forall|i: int| 0 <= i < a.len() implies is_token_char(#[trigger] a[i]) by {
            assert(both[i] == a[i]);
        }
        assert forall|i: int| 0 <= i < b.len() implies is_token_char(#[trigger] b[i]) by {
            assert(both[a.len() + i] == b[i]);
        }
    }
    if is_token(seq![c]) {
        assert(is_token_char(seq![c][0]));
    }
}

} // verus!
