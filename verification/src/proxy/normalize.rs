//! Normalizing and checking requests before anything else looks at them.
//!
//! Two jobs: putting a request into a canonical form, so that later filters
//! cannot be fooled by an unusual spelling of the same thing, and rejecting
//! requests that are malformed in ways that tend to mean an attack.
use crate::config::internal::Normalization;
use crate::proxy::message::{self, find_header, to_text, RequestHead};
use crate::proxy::query;
use crate::text;
use crate::wire;
use vstd::prelude::*;

verus! {

/// Why a request was turned away.
#[derive(Debug, Clone, Copy, PartialEq, Eq, Structural)]
pub enum Rejected {
    /// A control character or NUL appeared in the path.
    ControlCharacter,
    /// A `%` that was not followed by two hex digits.
    BadPercentEncoding,
    /// An encoded `/` or `\`, which hides a path segment boundary.
    EncodedSeparator,
    /// `..` climbed above the root of the path.
    PathEscapesRoot,
    /// More than one `Host` header.
    DuplicateHost,
    /// `Host` disagreed with the authority in the request line.
    HostMismatch,
    /// Neither a `Host` header nor an authority in the URI.
    MissingHost,
    /// A header value contained bytes outside US-ASCII.
    NonAsciiHeader,
}

/// The number a hex digit stands for.
pub open spec fn hex_value(b: u8) -> Option<u8> {
    if 0x30 <= b <= 0x39 {
        Some((b - 0x30) as u8)
    } else if 0x61 <= b <= 0x66 {
        Some((b - 0x61 + 10) as u8)
    } else if 0x41 <= b <= 0x46 {
        Some((b - 0x41 + 10) as u8)
    } else {
        None
    }
}

/// RFC 3986 unreserved: ALPHA / DIGIT / "-" / "." / "_" / "~".
pub open spec fn unreserved(b: u8) -> bool {
    0x30 <= b <= 0x39 || 0x41 <= b <= 0x5a || 0x61 <= b <= 0x7a || b == 0x2d || b == 0x2e || b
        == 0x5f || b == 0x7e
}

/// A C0 control character or DEL.
pub open spec fn control(b: u8) -> bool {
    b < 0x20 || b == 0x7f
}

/// The ASCII upper case of one byte.
pub open spec fn upper_byte(b: u8) -> u8 {
    if 0x61 <= b <= 0x7a {
        (b - 32) as u8
    } else {
        b
    }
}

/// A character that is a C0 control character or DEL.
pub open spec fn control_char(c: char) -> bool {
    c < '\u{20}' || c == '\u{7f}'
}

/// The number that a character stands for as a hex digit.
pub open spec fn digit_value(c: char) -> Option<u8> {
    if c <= '\u{7f}' {
        hex_value(c as u8)
    } else {
        None
    }
}

/// The upper case of a hex digit.
pub open spec fn upper_digit(c: char) -> char {
    upper_byte(c as u8) as char
}

/// One unit of a path: what a reader of percent-encodings takes in at once.
pub enum Unit {
    /// A character other than `%`.
    Literal(char),
    /// `%` and two hex digits.
    Encoded(char, char),
    /// A `%` that does not begin an encoding.
    Stray,
}

/// The unit that a nonempty path begins with.
pub open spec fn first_unit(s: Seq<char>) -> Unit {
    if s[0] != '%' {
        Unit::Literal(s[0])
    } else if s.len() >= 3 && digit_value(s[1]) is Some && digit_value(s[2]) is Some {
        Unit::Encoded(s[1], s[2])
    } else {
        Unit::Stray
    }
}

/// The byte that two hex digits stand for.
pub open spec fn encoded_byte(hi: char, lo: char) -> u8 {
    (digit_value(hi)->0 * 16 + digit_value(lo)->0) as u8
}

impl Unit {
    /// How many characters of the path the unit takes up.
    pub open spec fn width(self) -> int {
        match self {
            Unit::Encoded(_, _) => 3,
            _ => 1,
        }
    }

    /// Which check turns the unit away, if one does.
    pub open spec fn fault(self, config: Normalization) -> Option<Rejected> {
        match self {
            Unit::Literal(c) => if config.control_characters && control_char(c) {
                Some(Rejected::ControlCharacter)
            } else {
                None
            },
            Unit::Encoded(hi, lo) => {
                let value = encoded_byte(hi, lo);
                if config.control_characters && control(value) {
                    Some(Rejected::ControlCharacter)
                } else if config.encoded_separators && (value == 0x2f || value == 0x5c) {
                    Some(Rejected::EncodedSeparator)
                } else {
                    None
                }
            },
            Unit::Stray => if config.percent_encoding {
                Some(Rejected::BadPercentEncoding)
            } else {
                None
            },
        }
    }

    /// How the unit is written in the canonical form.
    pub open spec fn canonical(self, config: Normalization) -> Seq<char> {
        match self {
            Unit::Literal(c) => seq![c],
            Unit::Encoded(hi, lo) => if config.percent_encoding && unreserved(
                encoded_byte(hi, lo),
            ) {
                seq![encoded_byte(hi, lo) as char]
            } else {
                seq!['%', upper_digit(hi), upper_digit(lo)]
            },
            Unit::Stray => seq!['%'],
        }
    }
}

/// The canonical spelling of a path, or the first fault in it.
pub open spec fn decoded(s: Seq<char>, config: Normalization) -> Result<Seq<char>, Rejected>
    decreases s.len(),
{
    if s.len() == 0 {
        Ok(Seq::empty())
    } else {
        let unit = first_unit(s);
        match unit.fault(config) {
            Some(why) => Err(why),
            None => match decoded(s.skip(unit.width()), config) {
                Ok(rest) => Ok(unit.canonical(config) + rest),
                Err(why) => Err(why),
            },
        }
    }
}

/// `s` with every run of `/` written as one.
pub open spec fn collapsed(s: Seq<char>) -> Seq<char>
    decreases s.len(),
{
    if s.len() == 0 {
        Seq::empty()
    } else {
        let front = collapsed(s.drop_last());
        if s.last() == '/' && s.len() >= 2 && s[s.len() - 2] == '/' {
            front
        } else {
            front.push(s.last())
        }
    }
}

/// The segment that stays where it is: `.`.
pub open spec fn is_here(segment: Seq<char>) -> bool {
    segment == seq!['.']
}

/// The segment that climbs one level: `..`.
pub open spec fn is_climb(segment: Seq<char>) -> bool {
    segment == seq!['.', '.']
}

/// The segments left once `.` and `..` have been taken out, or `None` when a
/// `..` had nothing left to climb out of and climbing is an offence.
pub open spec fn resolved(segments: Seq<Seq<char>>, absolute: bool) -> Option<Seq<Seq<char>>>
    decreases segments.len(),
{
    if segments.len() == 0 {
        Some(Seq::empty())
    } else {
        match resolved(segments.drop_last(), absolute) {
            None => None,
            Some(kept) => {
                let next = segments.last();
                if is_here(next) {
                    Some(kept)
                } else if is_climb(next) {
                    if kept.len() > 0 {
                        Some(kept.drop_last())
                    } else if absolute {
                        None
                    } else {
                        Some(kept)
                    }
                } else {
                    Some(kept.push(next))
                }
            },
        }
    }
}

/// Does the path begin at the root?
pub open spec fn is_absolute(s: Seq<char>) -> bool {
    s.len() > 0 && s[0] == '/'
}

/// Does the path end with a slash, besides the one that it begins with?
pub open spec fn has_trailing(s: Seq<char>) -> bool {
    s.len() > 1 && s.last() == '/'
}

/// The segments of a path: what stands between its slashes. A slash at either end of
/// the path has no segment on the other side.
pub open spec fn segments_of(s: Seq<char>) -> Seq<Seq<char>> {
    let parts = text::split(s, '/');
    parts.subrange(
        if is_absolute(s) {
            1
        } else {
            0
        },
        if s.len() == 0 || s.last() == '/' {
            parts.len() - 1
        } else {
            parts.len() as int
        },
    )
}

/// Segments written out as a path again.
pub open spec fn rebuilt(kept: Seq<Seq<char>>, absolute: bool, trailing: bool) -> Seq<char> {
    let root = if absolute {
        seq!['/']
    } else {
        Seq::empty()
    };
    let path = root + text::join(kept, seq!['/']);
    if trailing && !(absolute && kept.len() == 0) {
        path.push('/')
    } else {
        path
    }
}

/// A path without `.` and `..` segments, or the reason there is none. Every other
/// segment stays, also one that is empty.
pub open spec fn without_dots(s: Seq<char>) -> Result<Seq<char>, Rejected> {
    match resolved(segments_of(s), is_absolute(s)) {
        Some(kept) => Ok(rebuilt(kept, is_absolute(s), has_trailing(s))),
        None => Err(Rejected::PathEscapesRoot),
    }
}

/// The canonical form of a path.
pub open spec fn normal_form(path: Seq<char>, config: Normalization) -> Result<
    Seq<char>,
    Rejected,
> {
    match decoded(path, config) {
        Err(why) => Err(why),
        Ok(text) => {
            let text = if config.duplicate_slashes {
                collapsed(text)
            } else {
                text
            };
            if config.dot_segments {
                without_dots(text)
            } else {
                Ok(text)
            }
        },
    }
}

/// Does any header value hold a byte outside US-ASCII?
pub open spec fn has_obs_text(headers: Seq<(Seq<char>, Seq<u8>)>) -> bool {
    exists|i: int, k: int|
        0 <= i < headers.len() && 0 <= k < headers[i].1.len() && #[trigger] headers[i].1[k] >= 0x80
}

/// The part of an authority that two spellings of one host have in common:
/// case and a trailing dot do not count.
pub open spec fn host_key(s: Seq<char>) -> Seq<char> {
    text::lower_text(text::trim_end(s, '.'))
}

/// What is wrong with the hosts that a request names, if anything.
pub open spec fn host_fault(
    headers: Seq<(Seq<char>, Seq<u8>)>,
    authority: Option<Seq<char>>,
) -> Option<Rejected> {
    let hosts = message::values_of(headers, "host"@);
    let host = if hosts.len() > 0 {
        message::value_text(hosts[0])
    } else {
        None
    };
    if hosts.len() > 1 {
        Some(Rejected::DuplicateHost)
    } else {
        match (host, authority) {
            (Some(h), Some(a)) => if host_key(h) != host_key(a) {
                Some(Rejected::HostMismatch)
            } else {
                None
            },
            (None, None) => Some(Rejected::MissingHost),
            _ => None,
        }
    }
}

/// A target written out as text.
pub open spec fn target_text(path: Seq<char>, query: Option<Seq<char>>) -> Seq<char> {
    match query {
        Some(q) => path + "?"@ + q,
        None => path,
    }
}

/// The target that a request has after its path has been normalized, or the
/// reason it is turned away. A target that was in canonical form stays as it
/// is; a rewritten one must be one that a URI can hold.
pub open spec fn normal_target(
    path: Seq<char>,
    query: Option<Seq<char>>,
    whole_uri: bool,
    config: Normalization,
) -> Result<(Seq<char>, Option<Seq<char>>), Rejected> {
    match normal_form(path, config) {
        Err(why) => Err(why),
        Ok(normal) => if normal == path {
            Ok((path, query))
        } else {
            match wire::path_and_query(target_text(normal, query)) {
                Some(target) => if whole_uri {
                    Ok(target)
                } else {
                    Err(Rejected::BadPercentEncoding)
                },
                None => Err(Rejected::BadPercentEncoding),
            }
        },
    }
}

/// The target of a request once the request has passed every check, or the
/// first check that it fails.
pub open spec fn normal_request(
    head: RequestHead,
    config: Normalization,
) -> Result<Option<(Seq<char>, Option<Seq<char>>)>, Rejected> {
    let headers = message::pairs(head.headers@);
    if config.header_non_ascii && has_obs_text(headers) {
        Err(Rejected::NonAsciiHeader)
    } else if config.host && host_fault(headers, wire::opt_text(head.uri.authority)) is Some {
        Err(host_fault(headers, wire::opt_text(head.uri.authority))->0)
    } else {
        match head.uri.target {
            None => Ok(None),
            Some(target) => match normal_target(
                target.path@,
                wire::opt_text(target.query),
                head.uri.scheme is Some == head.uri.authority is Some,
                config,
            ) {
                Ok(parts) => Ok(Some(parts)),
                Err(why) => Err(why),
            },
        }
    }
}

impl Rejected {
    /// The reason in words.
    pub open spec fn words(self) -> Seq<char> {
        match self {
            Rejected::ControlCharacter => "a control character in the request path"@,
            Rejected::BadPercentEncoding => "a malformed percent-encoding in the request path"@,
            Rejected::EncodedSeparator => "an encoded path separator in the request path"@,
            Rejected::PathEscapesRoot => "a request path that climbs above the root"@,
            Rejected::DuplicateHost => "more than one Host header"@,
            Rejected::HostMismatch => "a Host header that disagrees with the request line"@,
            Rejected::MissingHost => "no Host header"@,
            Rejected::NonAsciiHeader => "a non-ASCII header value"@,
        }
    }

    /// The reason in words.
    pub fn as_str(&self) -> (r: &'static str)
        ensures
            r@ == self.words(),
    {
        match self {
            Rejected::ControlCharacter => "a control character in the request path",
            Rejected::BadPercentEncoding => "a malformed percent-encoding in the request path",
            Rejected::EncodedSeparator => "an encoded path separator in the request path",
            Rejected::PathEscapesRoot => "a request path that climbs above the root",
            Rejected::DuplicateHost => "more than one Host header",
            Rejected::HostMismatch => "a Host header that disagrees with the request line",
            Rejected::MissingHost => "no Host header",
            Rejected::NonAsciiHeader => "a non-ASCII header value",
        }
    }
}

/// The number a hex digit stands for.
pub fn hex(b: u8) -> (r: Option<u8>)
    ensures
        r == hex_value(b),
        r matches Some(v) ==> v < 16,
{
    if 0x30 <= b && b <= 0x39 {
        Some(b - 0x30)
    } else if 0x61 <= b && b <= 0x66 {
        Some(b - 0x61 + 10)
    } else if 0x41 <= b && b <= 0x46 {
        Some(b - 0x41 + 10)
    } else {
        None
    }
}

/// Does the byte mean the same encoded or not?
pub fn is_unreserved(b: u8) -> (r: bool)
    ensures
        r == unreserved(b),
{
    (0x30 <= b && b <= 0x39) || (0x41 <= b && b <= 0x5a) || (0x61 <= b && b <= 0x7a) || b == 0x2d
        || b == 0x2e || b == 0x5f || b == 0x7e
}

fn to_upper_byte(b: u8) -> (r: u8)
    ensures
        r == upper_byte(b),
{
    if 0x61 <= b && b <= 0x7a {
        b - 32
    } else {
        b
    }
}

fn digit(c: char) -> (r: Option<u8>)
    ensures
        r == digit_value(c),
        r matches Some(v) ==> v < 16,
{
    if c <= '\u{7f}' {
        hex(c as u8)
    } else {
        None
    }
}

/// Percent-decodes the characters that are safe to decode, and checks the
/// rest.
///
/// Only unreserved characters are decoded: `%2F` is precisely *not* a segment
/// separator, and turning it into one is the classic way past a path-prefix
/// check.
pub fn decode(path: &str, config: &Normalization) -> (r: Result<String, Rejected>)
    ensures
        match r {
            Ok(text) => decoded(path@, *config) == Ok::<Seq<char>, Rejected>(text@),
            Err(why) => decoded(path@, *config) == Err::<Seq<char>, Rejected>(why),
        },
{
    let chars = text::chars_of(path);
    let mut out = String::new();
    let mut i: usize = 0;
    let ghost whole = decoded(path@, *config);
    assert(chars@.skip(0) == chars@);
    while i < chars.len()
        invariant
            i <= chars.len(),
            chars@ == path@,
            whole == decoded(path@, *config),
            match decoded(chars@.skip(i as int), *config) {
                Ok(rest) => whole == Ok::<Seq<char>, Rejected>(out@ + rest),
                Err(why) => whole == Err::<Seq<char>, Rejected>(why),
            },
        decreases chars.len() - i,
    {
        let c = chars[i];
        let ghost tail = chars@.skip(i as int);
        let ghost unit = first_unit(tail);
        let ghost before = out@;
        assert(tail.skip(unit.width()) == chars@.skip(i + unit.width()));
        if c != '%' {
            if config.control_characters && (c < '\u{20}' || c == '\u{7f}') {
                return Err(Rejected::ControlCharacter);
            }
            out.push(c);
            assert(out@ == before + unit.canonical(*config));
            i = i + 1;
        } else {
            let digits = if chars.len() - i >= 3 {
                match (digit(chars[i + 1]), digit(chars[i + 2])) {
                    (Some(hi), Some(lo)) => Some((hi, lo)),
                    _ => None,
                }
            } else {
                None
            };
            match digits {
                None => {
                    if config.percent_encoding {
                        return Err(Rejected::BadPercentEncoding);
                    }
                    out.push('%');
                    assert(out@ == before + unit.canonical(*config));
                    i = i + 1;
                },
                Some((hi, lo)) => {
                    let value: u8 = hi * 16 + lo;
                    assert(value == encoded_byte(tail[1], tail[2]));
                    if config.control_characters && (value < 0x20 || value == 0x7F) {
                        return Err(Rejected::ControlCharacter);
                    }
                    if config.encoded_separators && (value == 0x2f || value == 0x5c) {
                        return Err(Rejected::EncodedSeparator);
                    }
                    if config.percent_encoding && is_unreserved(value) {
                        out.push(value as char);
                    } else {
                        out.push('%');
                        out.push(to_upper_byte(chars[i + 1] as u8) as char);
                        out.push(to_upper_byte(chars[i + 2] as u8) as char);
                    }
                    assert(out@ == before + unit.canonical(*config));
                    i = i + 3;
                },
            }
        }
        proof {
            match decoded(chars@.skip(i as int), *config) {
                Ok(rest) => {
                    assert(before + (unit.canonical(*config) + rest) == out@ + rest);
                },
                Err(_) => {},
            }
        }
    }
    assert(out@ + Seq::<char>::empty() == out@);
    Ok(out)
}

/// Writes every run of `/` as one.
pub fn collapse_slashes(path: &str) -> (r: String)
    ensures
        r@ == collapsed(path@),
{
    let mut out = String::new();
    let mut last_was_slash = false;
    for c in it: path.chars()
        invariant
            out@ == collapsed(it.seq().take(it.index() as int)),
            last_was_slash == (it.index() > 0 && it.seq()[it.index() - 1] == '/'),
            it.seq() == path@,
    {
        let ghost next = it.seq().take(it.index() + 1);
        assert(next.drop_last() == it.seq().take(it.index() as int));
        assert(next.last() == c);
        if c == '/' {
            if !last_was_slash {
                out.push(c);
            }
            last_was_slash = true;
        } else {
            out.push(c);
            last_was_slash = false;
        }
    }
    assert(path@.take(path@.len() as int) == path@);
    out
}

/// Resolves `.` and `..`, and leaves every other segment as it is.
///
/// A `..` that would climb above the root is rejected rather than silently
/// clamped: clamping makes `/../../etc/passwd` and `/etc/passwd` the same
/// request, so a filter written against one does not cover the other.
pub fn resolve_dot_segments(path: &str) -> (r: Result<String, Rejected>)
    ensures
        match r {
            Ok(text) => without_dots(path@) == Ok::<Seq<char>, Rejected>(text@),
            Err(why) => without_dots(path@) == Err::<Seq<char>, Rejected>(why),
        },
{
    let chars = text::chars_of(path);
    let absolute = chars.len() > 0 && chars[0] == '/';
    let trailing = chars.len() > 1 && chars[chars.len() - 1] == '/';
    let parts = text::split_text(path, '/');
    proof {
        lemma_parts(path@);
    }
    let first: usize = if absolute {
        1
    } else {
        0
    };
    let end: usize = if chars.len() == 0 || chars[chars.len() - 1] == '/' {
        parts.len() - 1
    } else {
        parts.len()
    };
    let ghost all = segments_of(path@);
    let mut kept: Vec<String> = Vec::new();
    let mut i: usize = first;
    assert(text::texts(kept@) == Seq::<Seq<char>>::empty());
    while i < end
        invariant
            first <= i <= end <= parts.len(),
            text::texts(parts@) == text::split(path@, '/'),
            all == text::split(path@, '/').subrange(first as int, end as int),
            all == segments_of(path@),
            absolute == is_absolute(path@),
            resolved(all.take(i - first), absolute) == Some(text::texts(kept@)),
        decreases end - i,
    {
        let ghost next = all.take(i - first + 1);
        let ghost before = kept@;
        assert(next.drop_last() == all.take(i - first));
        assert(next.last() == parts@[i as int]@);
        proof {
            reveal_strlit(".");
            reveal_strlit("..");
            assert("."@ == seq!['.']);
            assert(".."@ == seq!['.', '.']);
        }
        let segment = parts[i].as_str();
        if text::same_text(segment, ".") {
        } else if text::same_text(segment, "..") {
            if kept.len() == 0 {
                if absolute {
                    proof {
                        lemma_escape_is_final(all, i - first + 1, absolute);
                    }
                    return Err(Rejected::PathEscapesRoot);
                }
            } else {
                kept.pop();
                assert(text::texts(kept@) == text::texts(before).drop_last());
            }
        } else {
            kept.push(parts[i].clone());
            assert(text::texts(kept@) == text::texts(before).push(segment@));
        }
        i = i + 1;
    }
    assert(all.take(all.len() as int) == all);
    let mut result = String::new();
    if absolute {
        result.push('/');
    }
    let joined = text::join_text(&kept, "/");
    result.append(joined.as_str());
    proof {
        reveal_strlit("/");
        assert("/"@ == seq!['/']);
        let root = if absolute {
            seq!['/']
        } else {
            Seq::empty()
        };
        assert(result@ == root + text::join(text::texts(kept@), seq!['/']));
    }
    if trailing && !(absolute && kept.len() == 0) {
        result.push('/');
    }
    Ok(result)
}

/// A path with a slash at both ends has more than one part, unless it is but one slash.
pub proof fn lemma_parts(s: Seq<char>)
    ensures
        text::split(s, '/').len() >= 1,
        is_absolute(s) ==> text::split(s, '/').len() >= 2,
    decreases s.len(),
{
    text::lemma_split_nonempty(s, '/');
    if s.len() > 0 {
        text::lemma_split_nonempty(s.drop_last(), '/');
        lemma_parts(s.drop_last());
    }
}

/// Once a `..` has climbed above the root, no later segment makes up for it.
proof fn lemma_escape_is_final(segments: Seq<Seq<char>>, n: int, absolute: bool)
    requires
        0 <= n <= segments.len(),
        resolved(segments.take(n), absolute) is None,
    ensures
        resolved(segments, absolute) is None,
    decreases segments.len() - n,
{
    if n < segments.len() {
        assert(segments.take(n + 1).drop_last() == segments.take(n));
        lemma_escape_is_final(segments, n + 1, absolute);
    } else {
        assert(segments.take(n) == segments);
    }
}

/// The canonical form of one path.
pub fn normalize_path(path: &str, config: &Normalization) -> (r: Result<String, Rejected>)
    ensures
        match r {
            Ok(text) => normal_form(path@, *config) == Ok::<Seq<char>, Rejected>(text@),
            Err(why) => normal_form(path@, *config) == Err::<Seq<char>, Rejected>(why),
        },
{
    let decoded_path = match decode(path, config) {
        Ok(text) => text,
        Err(why) => {
            return Err(why);
        },
    };
    let collapsed_path = if config.duplicate_slashes {
        collapse_slashes(decoded_path.as_str())
    } else {
        decoded_path
    };
    if config.dot_segments {
        resolve_dot_segments(collapsed_path.as_str())
    } else {
        Ok(collapsed_path)
    }
}

/// Looks for header values holding bytes outside US-ASCII.
pub fn check_headers(head: &RequestHead, config: &Normalization) -> (r: Result<(), Rejected>)
    ensures
        r == (if config.header_non_ascii && has_obs_text(message::pairs(head.headers@)) {
            Err::<(), Rejected>(Rejected::NonAsciiHeader)
        } else {
            Ok::<(), Rejected>(())
        }),
{
    if !config.header_non_ascii {
        return Ok(());
    }
    let ghost headers = message::pairs(head.headers@);
    let mut i: usize = 0;
    while i < head.headers.len()
        invariant
            i <= head.headers.len(),
            config.header_non_ascii,
            headers == message::pairs(head.headers@),
            forall|a: int, k: int|
                0 <= a < i && 0 <= k < headers[a].1.len() ==> #[trigger] headers[a].1[k] < 0x80,
        decreases head.headers.len() - i,
    {
        let value = &head.headers[i].value;
        assert(headers[i as int].1 == value@);
        let mut k: usize = 0;
        while k < value.len()
            invariant
                k <= value.len(),
                i < headers.len(),
                config.header_non_ascii,
                headers == message::pairs(head.headers@),
                headers[i as int].1 == value@,
                forall|j: int| 0 <= j < k ==> #[trigger] headers[i as int].1[j] < 0x80,
            decreases value.len() - k,
        {
            if value[k] >= 0x80 {
                assert(headers[i as int].1[k as int] >= 0x80);
                return Err(Rejected::NonAsciiHeader);
            }
            k = k + 1;
        }
        i = i + 1;
    }
    Ok(())
}

/// Compares two authorities, ignoring case and a trailing dot.
pub fn same_host(a: &str, b: &str) -> (r: bool)
    ensures
        r == (host_key(a@) == host_key(b@)),
{
    let left = text::to_lower_text(text::trim_end_matches(a, '.').as_str());
    let right = text::to_lower_text(text::trim_end_matches(b, '.').as_str());
    text::same_text(left.as_str(), right.as_str())
}

/// Requires that a request names one host, and the same one wherever it does.
///
/// Two `Host` headers let a proxy and its upstream server disagree about which
/// site a request was for, which is the whole shape of a request smuggling
/// attack.
pub fn check_host(head: &RequestHead, config: &Normalization) -> (r: Result<(), Rejected>)
    ensures
        r == (if config.host {
            match host_fault(message::pairs(head.headers@), wire::opt_text(head.uri.authority)) {
                Some(why) => Err::<(), Rejected>(why),
                None => Ok::<(), Rejected>(()),
            }
        } else {
            Ok::<(), Rejected>(())
        }),
{
    if !config.host {
        return Ok(());
    }
    let (count, first) = find_header(&head.headers, "host");
    if count > 1 {
        return Err(Rejected::DuplicateHost);
    }
    let host = match first {
        Some(i) => to_text(&head.headers[i].value),
        None => None,
    };
    match (&host, &head.uri.authority) {
        (Some(h), Some(a)) => {
            if !same_host(h.as_str(), a.as_str()) {
                return Err(Rejected::HostMismatch);
            }
        },
        (None, None) => {
            return Err(Rejected::MissingHost);
        },
        _ => {},
    }
    Ok(())
}

proof fn lemma_no_fragment(path: Seq<char>, query: Option<Seq<char>>)
    requires
        query::unmarked(path),
        query matches Some(q) ==> !q.contains('#'),
    ensures
        !target_text(path, query).contains('#'),
{
    reveal_strlit("?");
    let s = target_text(path, query);
    assert forall|i: int| 0 <= i < s.len() implies s[i] != '#' by {
        if i < path.len() {
            assert(path[i] != '#');
        } else if i > path.len() {
            assert(query->0[i - path.len() - 1] == s[i]);
            assert(query->0.contains(s[i]));
        }
    }
}

/// Rewrites the path into canonical form, rejecting what cannot be
/// canonicalized. The query is not a path, and stays as it arrived.
pub fn normalize_uri(head: &mut RequestHead, config: &Normalization) -> (r: Result<(), Rejected>)
    ensures
        final(head).method == old(head).method,
        final(head).headers == old(head).headers,
        final(head).uri.scheme == old(head).uri.scheme,
        final(head).uri.authority == old(head).uri.authority,
        match old(head).uri.target {
            None => r is Ok && final(head).uri.target is None,
            Some(target) => match normal_target(
                target.path@,
                wire::opt_text(target.query),
                old(head).uri.scheme is Some == old(head).uri.authority is Some,
                *config,
            ) {
                Ok(parts) => r is Ok && final(head).uri.target is Some && wire::target_parts(
                    final(head).uri.target->0,
                ) == parts,
                Err(why) => r == Err::<(), Rejected>(why) && *final(head) == *old(head),
            },
        },
        old(head).uri.target matches Some(target) ==> (query::is_target(target) && r is Ok
            ==> final(head).uri.target is Some && query::only_the_path_changed(
            target,
            final(head).uri.target->0,
            *config,
        )),
{
    let target = match &head.uri.target {
        Some(target) => target,
        None => {
            return Ok(());
        },
    };
    let normalized = match normalize_path(target.path.as_str(), config) {
        Ok(path) => path,
        Err(why) => {
            return Err(why);
        },
    };
    if text::same_text(normalized.as_str(), target.path.as_str()) {
        return Ok(());
    }
    let written = match &target.query {
        Some(q) => text::concat3(normalized.as_str(), "?", q.as_str()),
        None => normalized,
    };
    match wire::parse_path_and_query(written.as_str()) {
        Some(target) => {
            proof {
                let before = old(head).uri.target->0;
                if query::is_target(before) {
                    let query = wire::opt_text(before.query);
                    let normal = normal_form(before.path@, *config)->Ok_0;
                    query::no_mark_comes_out_of_a_path(before.path@, *config);
                    assert(written@ == target_text(normal, query));
                    lemma_no_fragment(normal, query);
                    wire::a_target_is_parted(target_text(normal, query));
                    query::a_target_reads_back(normal, query, wire::target_parts(target));
                }
            }
            if head.uri.scheme.is_some() != head.uri.authority.is_some() {
                return Err(Rejected::BadPercentEncoding);
            }
            head.uri.target = Some(target);
            Ok(())
        },
        None => Err(Rejected::BadPercentEncoding),
    }
}

/// Checks and normalizes a request in place.
///
/// On `Ok` the path may have been rewritten into canonical form, and nothing
/// else has been touched; on `Err` the request is as it was.
pub fn apply(head: &mut RequestHead, config: &Normalization) -> (r: Result<(), Rejected>)
    ensures
        final(head).method == old(head).method,
        final(head).headers == old(head).headers,
        final(head).uri.scheme == old(head).uri.scheme,
        final(head).uri.authority == old(head).uri.authority,
        match normal_request(*old(head), *config) {
            Ok(target) => r is Ok && target == (match final(head).uri.target {
                Some(t) => Some(wire::target_parts(t)),
                None => None,
            }),
            Err(why) => r == Err::<(), Rejected>(why) && *final(head) == *old(head),
        },
        old(head).uri.target matches Some(target) ==> (query::is_target(target) && r is Ok
            ==> final(head).uri.target is Some && query::only_the_path_changed(
            target,
            final(head).uri.target->0,
            *config,
        )),
{
    match check_headers(head, config) {
        Ok(()) => {},
        Err(why) => {
            return Err(why);
        },
    }
    match check_host(head, config) {
        Ok(()) => {},
        Err(why) => {
            return Err(why);
        },
    }
    normalize_uri(head, config)
}

/// A header value outside US-ASCII is found in whichever header and at whichever place it
/// stands.
pub proof fn any_byte_outside_ascii_is_found(
    headers: Seq<(Seq<char>, Seq<u8>)>,
    i: int,
    k: int,
)
    ensures
        0 <= i < headers.len() && 0 <= k < headers[i].1.len() && headers[i].1[k] >= 0x80
            ==> has_obs_text(headers),
        (forall|a: int, b: int|
            0 <= a < headers.len() && 0 <= b < headers[a].1.len() ==> #[trigger] headers[a].1[b]
                < 0x80) ==> !has_obs_text(headers),
{
}

/// A request names its host once: two `Host` headers are refused, and so is one that says
/// something else than the request line, or none where the request line has none either.
/// Case and a dot at the end make no difference.
pub proof fn a_request_names_one_host(
    headers: Seq<(Seq<char>, Seq<u8>)>,
    authority: Option<Seq<char>>,
    i: int,
    j: int,
)
    ensures
        0 <= i < j < headers.len() && headers[i].0 == "host"@ && headers[j].0 == "host"@
            ==> host_fault(headers, authority) == Some(Rejected::DuplicateHost),
        (forall|k: int| 0 <= k < headers.len() ==> (#[trigger] headers[k]).0 != "host"@)
            ==> host_fault(headers, authority) == (if authority is None {
            Some(Rejected::MissingHost)
        } else {
            None
        }),
        0 <= i < headers.len() && headers[i].0 == "host"@ && (forall|k: int|
            0 <= k < headers.len() && k != i ==> (#[trigger] headers[k]).0 != "host"@)
            ==> host_fault(headers, authority) == (match (
            message::value_text(headers[i].1),
            authority,
        ) {
            (Some(h), Some(a)) => if text::lower_text(text::trim_end(h, '.')) == text::lower_text(
                text::trim_end(a, '.'),
            ) {
                None
            } else {
                Some(Rejected::HostMismatch)
            },
            (None, None) => Some(Rejected::MissingHost),
            _ => None,
        }),
{
    if 0 <= i < j < headers.len() && headers[i].0 == "host"@ && headers[j].0 == "host"@ {
        lemma_two_values(headers, "host"@, i, j);
    }
    if forall|k: int| 0 <= k < headers.len() ==> (#[trigger] headers[k]).0 != "host"@ {
        lemma_without_values(headers, "host"@);
    }
    if 0 <= i < headers.len() && headers[i].0 == "host"@ && (forall|k: int|
        0 <= k < headers.len() && k != i ==> (#[trigger] headers[k]).0 != "host"@) {
        lemma_one_value(headers, "host"@, i);
    }
}

proof fn lemma_without_values(headers: Seq<(Seq<char>, Seq<u8>)>, name: Seq<char>)
    requires
        forall|k: int| 0 <= k < headers.len() ==> (#[trigger] headers[k]).0 != name,
    ensures
        message::values_of(headers, name).len() == 0,
    decreases headers.len(),
{
    if headers.len() > 0 {
        let front = headers.drop_last();
        assert forall|k: int| 0 <= k < front.len() implies (#[trigger] front[k]).0 != name by {
            assert(front[k] == headers[k]);
        }
        lemma_without_values(front, name);
        assert(headers[headers.len() - 1].0 != name);
    }
}

proof fn lemma_one_value(headers: Seq<(Seq<char>, Seq<u8>)>, name: Seq<char>, i: int)
    requires
        0 <= i < headers.len(),
        headers[i].0 == name,
        forall|k: int| 0 <= k < headers.len() && k != i ==> (#[trigger] headers[k]).0 != name,
    ensures
        message::values_of(headers, name) == seq![headers[i].1],
    decreases headers.len(),
{
    let front = headers.drop_last();
    assert forall|k: int| 0 <= k < front.len() implies #[trigger] front[k] == headers[k] by {}
    if i < front.len() {
        lemma_one_value(front, name, i);
        assert(headers[headers.len() - 1].0 != name);
    } else {
        lemma_without_values(front, name);
        assert(message::values_of(front, name) == Seq::<Seq<u8>>::empty());
    }
}

proof fn lemma_two_values(headers: Seq<(Seq<char>, Seq<u8>)>, name: Seq<char>, i: int, j: int)
    requires
        0 <= i < j < headers.len(),
        headers[i].0 == name,
        headers[j].0 == name,
    ensures
        message::values_of(headers, name).len() >= 2,
    decreases headers.len(),
{
    let front = headers.drop_last();
    assert(front[i] == headers[i]);
    if j < front.len() {
        assert(front[j] == headers[j]);
        lemma_two_values(front, name, i, j);
    } else {
        lemma_some_value(front, name, i);
    }
}

proof fn lemma_some_value(headers: Seq<(Seq<char>, Seq<u8>)>, name: Seq<char>, i: int)
    requires
        0 <= i < headers.len(),
        headers[i].0 == name,
    ensures
        message::values_of(headers, name).len() >= 1,
    decreases headers.len(),
{
    let front = headers.drop_last();
    if i < front.len() {
        assert(front[i] == headers[i]);
        lemma_some_value(front, name, i);
    }
}

/// A path goes through every step that is switched on, in this order: its escapes are
/// decoded, its runs of slashes become one, and its dot segments are resolved. A step that
/// refuses it ends it.
pub proof fn each_step_is_switched_on_its_own(path: Seq<char>, config: Normalization)
    ensures
        match decoded(path, config) {
            Err(why) => normal_form(path, config) == Err::<Seq<char>, Rejected>(why),
            Ok(t) => {
                &&& config.duplicate_slashes && config.dot_segments ==> normal_form(path, config)
                    == without_dots(collapsed(t))
                &&& !config.duplicate_slashes && config.dot_segments ==> normal_form(path, config)
                    == without_dots(t)
                &&& config.duplicate_slashes && !config.dot_segments ==> normal_form(path, config)
                    == Ok::<Seq<char>, Rejected>(collapsed(t))
                &&& !config.duplicate_slashes && !config.dot_segments ==> normal_form(path, config)
                    == Ok::<Seq<char>, Rejected>(t)
            },
        },
{
}

/// A request passes if and only if its headers pass, its hosts pass, and its target can be
/// put into canonical form, as far as each check is on; and the first of these that it
/// fails is what it is refused for.
pub proof fn checks_are_made_in_turn(head: RequestHead, config: Normalization)
    ensures
        ({
            let headers = message::pairs(head.headers@);
            let hosts = host_fault(headers, wire::opt_text(head.uri.authority));
            let result = normal_request(head, config);
            if config.header_non_ascii && has_obs_text(headers) {
                result matches Err(why) && why == Rejected::NonAsciiHeader
            } else if config.host && hosts is Some {
                result matches Err(why) && Some(why) == hosts
            } else {
                match head.uri.target {
                    None => result matches Ok(None),
                    Some(target) => match normal_form(target.path@, config) {
                        Err(e) => result matches Err(why) && why == e,
                        Ok(normal) => normal == target.path@ ==> (result matches Ok(Some(parts))
                            && parts.0 == target.path@ && parts.1 == wire::opt_text(target.query)),
                    },
                }
            }
        }),
{
}

} // verus!
