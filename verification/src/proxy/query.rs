//! What normalization leaves as it is: the query, and that a URI can hold the target.
use crate::config::internal::Normalization;
use crate::proxy::canonical;
use crate::proxy::message::Target;
use crate::proxy::normalize;
use crate::text;
use crate::wire;
use vstd::prelude::*;

verus! {

/// A text without the characters that end a path.
pub open spec fn unmarked(s: Seq<char>) -> bool {
    forall|i: int| 0 <= i < s.len() ==> #[trigger] s[i] != '?' && s[i] != '#'
}

/// A target that a URI can hold: the path ends where the query begins, and the
/// query ends where a fragment would begin.
pub open spec fn is_target(t: Target) -> bool {
    unmarked(t.path@) && (t.query matches Some(q) ==> !q@.contains('#'))
}

/// Has the target the path in canonical form, and the query that it had?
pub open spec fn only_the_path_changed(
    before: Target,
    after: Target,
    config: Normalization,
) -> bool {
    &&& wire::opt_text(after.query) == wire::opt_text(before.query)
    &&& normalize::normal_form(before.path@, config) matches Ok(normal) && (
    normal.len() > 0 ==> after.path@ == normal)
}

/// A text of characters of some kind only.
pub open spec fn made_of(s: Seq<char>, kind: spec_fn(char) -> bool) -> bool {
    forall|i: int| 0 <= i < s.len() ==> kind(#[trigger] s[i])
}

/// Are the characters of the kind that decoding writes?
spec fn is_kept(kind: spec_fn(char) -> bool) -> bool {
    &&& kind('%')
    &&& kind('/')
    &&& forall|b: u8| normalize::unreserved(b) ==> kind(#[trigger] (b as char))
    &&& forall|c: char|
        normalize::digit_value(c) is Some ==> kind(#[trigger] normalize::upper_digit(c))
}

proof fn lemma_decoded_made_of(
    path: Seq<char>,
    config: Normalization,
    kind: spec_fn(char) -> bool,
)
    requires
        made_of(path, kind),
        is_kept(kind),
    ensures
        normalize::decoded(path, config) matches Ok(t) ==> made_of(t, kind),
    decreases path.len(),
{
    if path.len() > 0 {
        let unit = normalize::first_unit(path);
        let rest = path.skip(unit.width());
        assert forall|i: int| 0 <= i < rest.len() implies kind(#[trigger] rest[i]) by {
            assert(rest[i] == path[i + unit.width()]);
        }
        lemma_decoded_made_of(rest, config, kind);
        assert(kind(path[0]));
        let head = unit.canonical(config);
        assert(made_of(head, kind));
        if normalize::decoded(path, config) is Ok {
            let tail = normalize::decoded(rest, config)->Ok_0;
            let t = head + tail;
            assert forall|i: int| 0 <= i < t.len() implies kind(#[trigger] t[i]) by {
                if i < head.len() {
                    assert(t[i] == head[i]);
                } else {
                    assert(t[i] == tail[i - head.len()]);
                }
            }
        }
    }
}

proof fn lemma_collapsed_made_of(s: Seq<char>, kind: spec_fn(char) -> bool)
    requires
        made_of(s, kind),
    ensures
        made_of(normalize::collapsed(s), kind),
    decreases s.len(),
{
    if s.len() > 0 {
        let front = s.drop_last();
        assert forall|i: int| 0 <= i < front.len() implies kind(#[trigger] front[i]) by {
            assert(front[i] == s[i]);
        }
        lemma_collapsed_made_of(front, kind);
        assert(kind(s[s.len() - 1]));
    }
}

spec fn all_made_of(parts: Seq<Seq<char>>, kind: spec_fn(char) -> bool) -> bool {
    forall|i: int| 0 <= i < parts.len() ==> made_of(#[trigger] parts[i], kind)
}

proof fn lemma_split_made_of(s: Seq<char>, kind: spec_fn(char) -> bool)
    requires
        made_of(s, kind),
    ensures
        all_made_of(text::split(s, '/'), kind),
    decreases s.len(),
{
    if s.len() > 0 {
        let front = s.drop_last();
        assert forall|i: int| 0 <= i < front.len() implies kind(#[trigger] front[i]) by {
            assert(front[i] == s[i]);
        }
        lemma_split_made_of(front, kind);
        text::lemma_split_nonempty(front, '/');
        let pieces = text::split(front, '/');
        assert(made_of(pieces[pieces.len() - 1], kind));
        assert(kind(s[s.len() - 1]));
    }
}

proof fn lemma_resolved_made_of(
    segments: Seq<Seq<char>>,
    absolute: bool,
    kind: spec_fn(char) -> bool,
)
    requires
        all_made_of(segments, kind),
    ensures
        normalize::resolved(segments, absolute) matches Some(kept) ==> all_made_of(kept, kind),
    decreases segments.len(),
{
    if segments.len() > 0 {
        let front = segments.drop_last();
        assert forall|i: int| 0 <= i < front.len() implies made_of(#[trigger] front[i], kind) by {
            assert(front[i] == segments[i]);
        }
        lemma_resolved_made_of(front, absolute, kind);
        assert(made_of(segments[segments.len() - 1], kind));
    }
}

proof fn lemma_join_made_of(parts: Seq<Seq<char>>, kind: spec_fn(char) -> bool)
    requires
        all_made_of(parts, kind),
        kind('/'),
    ensures
        made_of(text::join(parts, seq!['/']), kind),
    decreases parts.len(),
{
    if parts.len() == 1 {
        assert(made_of(parts[0], kind));
    } else if parts.len() > 1 {
        let front = parts.drop_last();
        assert forall|i: int| 0 <= i < front.len() implies made_of(#[trigger] front[i], kind) by {
            assert(front[i] == parts[i]);
        }
        lemma_join_made_of(front, kind);
        assert(made_of(parts[parts.len() - 1], kind));
        let head = text::join(front, seq!['/']);
        let t = head + seq!['/'] + parts.last();
        assert forall|i: int| 0 <= i < t.len() implies kind(#[trigger] t[i]) by {
            if i < head.len() {
                assert(t[i] == head[i]);
            } else if i > head.len() {
                assert(t[i] == parts.last()[i - head.len() - 1]);
            }
        }
    }
}

/// A path in canonical form is made of the characters that it was made of, and of those
/// that escapes are written with.
proof fn lemma_normal_made_of(
    path: Seq<char>,
    config: Normalization,
    kind: spec_fn(char) -> bool,
)
    requires
        made_of(path, kind),
        is_kept(kind),
    ensures
        normalize::normal_form(path, config) matches Ok(t) ==> made_of(t, kind),
{
    lemma_decoded_made_of(path, config, kind);
    match normalize::decoded(path, config) {
        Ok(t) => {
            let t = if config.duplicate_slashes {
                lemma_collapsed_made_of(t, kind);
                normalize::collapsed(t)
            } else {
                t
            };
            let segments = normalize::segments_of(t);
            let parts = text::split(t, '/');
            lemma_split_made_of(t, kind);
            normalize::lemma_parts(t);
            assert forall|i: int| 0 <= i < segments.len() implies made_of(
                #[trigger] segments[i],
                kind,
            ) by {
                let from = if normalize::is_absolute(t) {
                    1int
                } else {
                    0int
                };
                assert(segments[i] == parts[i + from]);
            }
            lemma_resolved_made_of(segments, normalize::is_absolute(t), kind);
            match normalize::resolved(segments, normalize::is_absolute(t)) {
                Some(kept) => {
                    lemma_join_made_of(kept, kind);
                    let body = text::join(kept, seq!['/']);
                    let r = normalize::rebuilt(
                        kept,
                        normalize::is_absolute(t),
                        normalize::has_trailing(t),
                    );
                    let from = if normalize::is_absolute(t) {
                        1int
                    } else {
                        0int
                    };
                    assert forall|i: int| 0 <= i < r.len() implies kind(#[trigger] r[i]) by {
                        if from <= i < from + body.len() {
                            assert(r[i] == body[i - from]);
                        } else {
                            assert(r[i] == '/');
                        }
                    }
                },
                None => {},
            }
        },
        Err(_) => {},
    }
}

proof fn lemma_digit_kept(c: char)
    requires
        normalize::digit_value(c) is Some,
    ensures
        normalize::upper_digit(c) != '?',
        normalize::upper_digit(c) != '#',
        wire::is_path_char(normalize::upper_digit(c)),
{
}

/// A path in canonical form still ends where it ended: no `?` and no `#` comes out
/// of it that was not in it.
pub proof fn no_mark_comes_out_of_a_path(path: Seq<char>, config: Normalization)
    requires
        unmarked(path),
    ensures
        normalize::normal_form(path, config) matches Ok(t) ==> unmarked(t),
{
    let kind = |c: char| c != '?' && c != '#';
    assert forall|c: char| normalize::digit_value(c) is Some implies kind(
        #[trigger] normalize::upper_digit(c),
    ) by {
        lemma_digit_kept(c);
    }
    assert(made_of(path, kind));
    lemma_normal_made_of(path, config, kind);
    match normalize::normal_form(path, config) {
        Ok(t) => {
            assert forall|i: int| 0 <= i < t.len() implies #[trigger] t[i] != '?' && t[i] != '#' by {
                assert(kind(t[i]));
            }
        },
        Err(_) => {},
    }
}

/// The bytes that a text takes up.
spec fn weight(s: Seq<char>) -> nat {
    text::utf8(s).len()
}

proof fn lemma_weight_cat(a: Seq<char>, b: Seq<char>)
    ensures
        weight(a + b) == weight(a) + weight(b),
    decreases a.len(),
{
    if a.len() == 0 {
        assert(a + b == b);
    } else {
        assert((a + b).drop_first() == a.drop_first() + b);
        lemma_weight_cat(a.drop_first(), b);
    }
}

proof fn lemma_weight_one(c: char)
    ensures
        weight(seq![c]) >= 1,
        c <= '\u{7f}' ==> weight(seq![c]) == 1,
{
    let s = seq![c];
    assert(s.drop_first() == Seq::<char>::empty());
    assert(weight(s) == vstd::utf8::encode_scalar(c as u32).len() + weight(s.drop_first()));
}

proof fn lemma_weight_three(a: char, b: char, c: char)
    requires
        a <= '\u{7f}',
        b <= '\u{7f}',
        c <= '\u{7f}',
    ensures
        weight(seq![a, b, c]) == 3,
{
    lemma_weight_one(a);
    lemma_weight_one(b);
    lemma_weight_one(c);
    lemma_weight_cat(seq![a], seq![b]);
    lemma_weight_cat(seq![a] + seq![b], seq![c]);
    assert(seq![a] + seq![b] + seq![c] == seq![a, b, c]);
}

proof fn lemma_upper_is_ascii(c: char)
    requires
        normalize::digit_value(c) is Some,
    ensures
        c <= '\u{7f}',
        normalize::upper_digit(c) <= '\u{7f}',
{
}

proof fn lemma_unreserved_is_ascii(b: u8)
    requires
        normalize::unreserved(b),
    ensures
        b as char <= '\u{7f}',
{
}

proof fn lemma_decoded_weight(path: Seq<char>, config: Normalization)
    ensures
        normalize::decoded(path, config) matches Ok(t) ==> weight(t) <= weight(path),
    decreases path.len(),
{
    if path.len() > 0 {
        let unit = normalize::first_unit(path);
        let head = path.take(unit.width());
        let rest = path.skip(unit.width());
        lemma_decoded_weight(rest, config);
        lemma_weight_cat(head, rest);
        assert(head + rest == path);
        match unit {
            normalize::Unit::Literal(c) => {
                assert(head == seq![c]);
            },
            normalize::Unit::Encoded(hi, lo) => {
                assert(head == seq!['%', hi, lo]);
                lemma_upper_is_ascii(hi);
                lemma_upper_is_ascii(lo);
                lemma_weight_three('%', hi, lo);
                lemma_weight_three(
                    '%',
                    normalize::upper_digit(hi),
                    normalize::upper_digit(lo),
                );
                let byte = normalize::encoded_byte(hi, lo);
                if normalize::unreserved(byte) {
                    lemma_unreserved_is_ascii(byte);
                    lemma_weight_one(byte as char);
                }
            },
            normalize::Unit::Stray => {
                assert(head == seq!['%']);
            },
        }
        if normalize::decoded(path, config) is Ok {
            lemma_weight_cat(unit.canonical(config), normalize::decoded(rest, config)->Ok_0);
        }
    }
}

proof fn lemma_weight_push(s: Seq<char>, c: char)
    ensures
        weight(s.push(c)) == weight(s) + weight(seq![c]),
{
    lemma_weight_cat(s, seq![c]);
    assert(s + seq![c] == s.push(c));
}

proof fn lemma_collapsed_weight(s: Seq<char>)
    ensures
        weight(normalize::collapsed(s)) <= weight(s),
    decreases s.len(),
{
    if s.len() > 0 {
        let front = s.drop_last();
        lemma_collapsed_weight(front);
        lemma_weight_push(front, s.last());
        assert(front.push(s.last()) == s);
        lemma_weight_push(normalize::collapsed(front), s.last());
    }
}

/// The bytes that segments take up, each with a slash.
spec fn cost(parts: Seq<Seq<char>>) -> nat
    decreases parts.len(),
{
    if parts.len() == 0 {
        0
    } else {
        cost(parts.drop_last()) + weight(parts.last()) + 1
    }
}

proof fn lemma_join_weight(parts: Seq<Seq<char>>)
    requires
        parts.len() > 0,
    ensures
        weight(text::join(parts, seq!['/'])) + 1 == cost(parts),
    decreases parts.len(),
{
    if parts.len() == 1 {
        assert(parts.drop_last() == Seq::<Seq<char>>::empty());
        assert(cost(parts.drop_last()) == 0);
    } else {
        let front = text::join(parts.drop_last(), seq!['/']);
        lemma_join_weight(parts.drop_last());
        lemma_weight_one('/');
        lemma_weight_cat(front, seq!['/']);
        lemma_weight_cat(front + seq!['/'], parts.last());
    }
}

proof fn lemma_resolved_cost(segments: Seq<Seq<char>>, absolute: bool)
    ensures
        normalize::resolved(segments, absolute) matches Some(kept) ==> cost(kept) <= cost(segments)
            && kept.len() <= segments.len(),
    decreases segments.len(),
{
    if segments.len() > 0 {
        lemma_resolved_cost(segments.drop_last(), absolute);
        match normalize::resolved(segments.drop_last(), absolute) {
            Some(kept) => {
                assert(kept.push(segments.last()).drop_last() == kept);
            },
            None => {},
        }
    }
}

proof fn lemma_rebuilt_weight(kept: Seq<Seq<char>>, absolute: bool, trailing: bool)
    ensures
        weight(normalize::rebuilt(kept, absolute, trailing)) == (if absolute {
            1int
        } else {
            0
        }) + (if kept.len() > 0 {
            cost(kept) - 1
        } else {
            0
        }) + (if trailing && !(absolute && kept.len() == 0) {
            1int
        } else {
            0
        }),
{
    let body = text::join(kept, seq!['/']);
    lemma_weight_one('/');
    if kept.len() > 0 {
        lemma_join_weight(kept);
    } else {
        assert(body == Seq::<char>::empty());
        assert(weight(body) == 0);
    }
    lemma_weight_cat(seq!['/'], body);
    assert(Seq::<char>::empty() + body == body);
    lemma_weight_push(seq!['/'] + body, '/');
    lemma_weight_push(body, '/');
}

proof fn lemma_without_dots_weight(s: Seq<char>)
    requires
        normalize::is_absolute(s),
    ensures
        normalize::without_dots(s) matches Ok(t) ==> weight(t) <= weight(s),
{
    let segments = normalize::segments_of(s);
    canonical::a_path_is_its_segments(s);
    lemma_resolved_cost(segments, true);
    lemma_rebuilt_weight(segments, true, normalize::has_trailing(s));
    match normalize::resolved(segments, true) {
        Some(kept) => {
            lemma_rebuilt_weight(kept, true, normalize::has_trailing(s));
        },
        None => {},
    }
}

/// A request whose path can be normalized is not turned away for what comes of it: where
/// the target was one that a URI can hold, from the root, the path in canonical form and
/// the query as it was make up another.
pub proof fn what_can_be_normalized_is_held(
    path: Seq<char>,
    query: Option<Seq<char>>,
    config: Normalization,
)
    requires
        normalize::is_absolute(path),
        wire::is_written_out(path, query),
        text::utf8(normalize::target_text(path, query)).len() <= wire::MAX_TARGET_BYTES,
    ensures
        normalize::normal_form(path, config) matches Ok(t) ==> normalize::normal_target(
            path,
            query,
            true,
            config,
        ) == Ok::<(Seq<char>, Option<Seq<char>>), normalize::Rejected>((t, query)),
{
    match normalize::normal_form(path, config) {
        Ok(t) => {
            let kind = |c: char| wire::is_path_char(c);
            assert forall|c: char| normalize::digit_value(c) is Some implies kind(
                #[trigger] normalize::upper_digit(c),
            ) by {
                lemma_digit_kept(c);
            }
            assert(made_of(path, kind));
            lemma_normal_made_of(path, config, kind);
            canonical::normal_form_is_clean(path, config);
            // It takes up no more room.
            lemma_decoded_weight(path, config);
            let t0 = normalize::decoded(path, config)->Ok_0;
            canonical::decoding_keeps_the_root(path, config);
            lemma_collapsed_weight(t0);
            canonical::collapsing_keeps_the_root(t0);
            let t1 = if config.duplicate_slashes {
                normalize::collapsed(t0)
            } else {
                t0
            };
            lemma_without_dots_weight(t1);
            lemma_target_weight(path, query);
            lemma_target_weight(t, query);
            lemma_target_is_held(t, query);
        },
        Err(_) => {},
    }
}

proof fn lemma_target_weight(path: Seq<char>, query: Option<Seq<char>>)
    ensures
        weight(normalize::target_text(path, query)) == weight(path) + (match query {
            Some(q) => 1 + weight(q),
            None => 0,
        }),
{
    reveal_strlit("?");
    lemma_weight_one('?');
    assert("?"@ == seq!['?']);
    match query {
        Some(q) => {
            lemma_weight_cat(path, seq!['?']);
            lemma_weight_cat(path + seq!['?'], q);
        },
        None => {},
    }
}

proof fn lemma_target_is_held(t: Seq<char>, query: Option<Seq<char>>)
    requires
        normalize::is_absolute(t),
        made_of(t, |c: char| wire::is_path_char(c)),
        wire::is_written_out(t, query),
        weight(normalize::target_text(t, query)) <= wire::MAX_TARGET_BYTES,
    ensures
        wire::path_and_query(normalize::target_text(t, query)) == Some((t, query)),
{
    reveal_strlit("?");
    let s = normalize::target_text(t, query);
    assert("?"@ == seq!['?']);
    s.index_of_first_ensures('#');
    s.index_of_first_ensures('?');
    assert forall|i: int| 0 <= i < s.len() implies s[i] != '#' by {
        if i < t.len() {
            assert(s[i] == t[i]);
            assert(wire::is_path_char(t[i]));
        } else if i > t.len() {
            let q = query->0;
            assert(s[i] == q[i - t.len() - 1]);
            assert(wire::is_query_char(q[i - t.len() - 1]));
        }
    }
    assert(wire::up_to(s, '#') == s);
    assert forall|i: int| 0 <= i < t.len() implies s[i] != '?' by {
        assert(s[i] == t[i]);
        assert(wire::is_path_char(t[i]));
    }
    match query {
        Some(q) => {
            assert(s[t.len() as int] == '?');
            assert(s.contains('?'));
            assert(s.index_of_first('?') == Some(t.len() as int));
            assert(s.take(t.len() as int) == t);
            assert(s.skip((t.len() + 1) as int) == q);
        },
        None => {
            assert(!s.contains('?'));
        },
    }
    assert(s[0] == '/');
}

/// What is read back of a path and a query that were written one behind the other.
pub proof fn a_target_reads_back(
    path: Seq<char>,
    query: Option<Seq<char>>,
    read: (Seq<char>, Option<Seq<char>>),
)
    requires
        unmarked(path),
        wire::parted(normalize::target_text(path, query), read),
    ensures
        read.1 == query,
        path.len() > 0 ==> read.0 == path,
        path.len() == 0 && query is Some ==> read.0 == "/"@,
{
    reveal_strlit("?");
    let s = normalize::target_text(path, query);
    match (query, read.1) {
        (Some(q), Some(r)) => {
            let before = choose|before: Seq<char>| #[trigger]
                wire::is_joint(s, before, r) && read.0 == wire::path_read(before);
            if before.len() < path.len() {
                assert(s[before.len() as int] == '?');
                assert(path[before.len() as int] == '?');
            }
            if path.len() < before.len() {
                assert(s[path.len() as int] == '?');
                assert(before[path.len() as int] == '?');
            }
            assert(s.skip((path.len() + 1) as int) == q);
            assert(s.skip((before.len() + 1) as int) == r);
            assert(s.take(path.len() as int) == path);
            assert(s.take(before.len() as int) == before);
        },
        (Some(q), None) => {
            assert(s[path.len() as int] == '?');
        },
        (None, Some(r)) => {
            let before = choose|before: Seq<char>| #[trigger]
                wire::is_joint(s, before, r) && read.0 == wire::path_read(before);
            assert(s[before.len() as int] == '?');
        },
        (None, None) => {},
    }
}

} // verus!
