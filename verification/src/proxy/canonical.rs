//! What the canonical form of a path promises.
use crate::config::internal::Normalization;
use crate::proxy::normalize;
use crate::proxy::normalize::{Rejected, Unit};
use crate::text;
use vstd::prelude::*;

verus! {

/// A text without `/`.
pub open spec fn no_slash(s: Seq<char>) -> bool {
    forall|i: int| 0 <= i < s.len() ==> s[i] != '/'
}

/// A text without two `/` in a row.
pub open spec fn no_double_slash(s: Seq<char>) -> bool {
    forall|i: int| 0 <= i < s.len() - 1 ==> !(#[trigger] s[i] == '/' && s[i + 1] == '/')
}

/// A path in which no segment is `.` or `..`.
pub open spec fn no_dot_segment(s: Seq<char>) -> bool {
    forall|i: int|
        0 <= i < text::split(s, '/').len() ==> (#[trigger] text::split(s, '/')[i]) != seq!['.']
            && text::split(s, '/')[i] != seq!['.', '.']
}

/// A segment that dot resolution keeps as it is.
spec fn is_plain(segment: Seq<char>) -> bool {
    no_slash(segment) && !normalize::is_here(segment) && !normalize::is_climb(segment)
}

spec fn all_plain(parts: Seq<Seq<char>>) -> bool {
    forall|i: int| 0 <= i < parts.len() ==> is_plain(#[trigger] parts[i])
}

proof fn lemma_split_single(s: Seq<char>)
    requires
        no_slash(s),
    ensures
        text::split(s, '/') == seq![s],
    decreases s.len(),
{
    if s.len() > 0 {
        lemma_split_single(s.drop_last());
        assert(s[s.len() - 1] != '/');
        assert(s.drop_last().push(s.last()) == s);
    } else {
        assert(s == Seq::<char>::empty());
    }
}

proof fn lemma_split_cat(a: Seq<char>, b: Seq<char>)
    ensures
        text::split(a + seq!['/'] + b, '/') == text::split(a, '/') + text::split(b, '/'),
    decreases b.len(),
{
    let s = a + seq!['/'] + b;
    if b.len() == 0 {
        assert(s.drop_last() == a);
        assert(text::split(b, '/') == seq![Seq::<char>::empty()]);
    } else {
        assert(s.drop_last() == a + seq!['/'] + b.drop_last());
        lemma_split_cat(a, b.drop_last());
        text::lemma_split_nonempty(b.drop_last(), '/');
        let front = text::split(b.drop_last(), '/');
        let whole = text::split(a, '/') + front;
        assert(whole.drop_last() == text::split(a, '/') + front.drop_last());
        assert(whole.last() == front.last());
    }
}

proof fn lemma_split_join(parts: Seq<Seq<char>>)
    requires
        parts.len() > 0,
        forall|i: int| 0 <= i < parts.len() ==> no_slash(#[trigger] parts[i]),
    ensures
        text::split(text::join(parts, seq!['/']), '/') == parts,
    decreases parts.len(),
{
    if parts.len() == 1 {
        lemma_split_single(parts[0]);
        assert(seq![parts[0]] == parts);
    } else {
        let front = parts.drop_last();
        assert forall|i: int| 0 <= i < front.len() implies no_slash(#[trigger] front[i]) by {
            assert(front[i] == parts[i]);
        }
        lemma_split_join(front);
        assert(no_slash(parts[parts.len() - 1]));
        lemma_split_single(parts.last());
        lemma_split_cat(text::join(front, seq!['/']), parts.last());
        assert(front + seq![parts.last()] == parts);
    }
}

/// The pieces of a split hold no separator.
proof fn lemma_split_pieces(s: Seq<char>)
    ensures
        forall|i: int|
            0 <= i < text::split(s, '/').len() ==> no_slash(#[trigger] text::split(s, '/')[i]),
    decreases s.len(),
{
    if s.len() > 0 {
        lemma_split_pieces(s.drop_last());
        text::lemma_split_nonempty(s.drop_last(), '/');
        let front = text::split(s.drop_last(), '/');
        assert(no_slash(front[front.len() - 1]));
    }
}

/// What dot resolution keeps is plain.
proof fn lemma_resolved_plain(segments: Seq<Seq<char>>, absolute: bool)
    requires
        forall|i: int| 0 <= i < segments.len() ==> no_slash(#[trigger] segments[i]),
    ensures
        normalize::resolved(segments, absolute) matches Some(kept) ==> all_plain(kept),
    decreases segments.len(),
{
    if segments.len() > 0 {
        let front = segments.drop_last();
        assert forall|i: int| 0 <= i < front.len() implies no_slash(#[trigger] front[i]) by {
            assert(front[i] == segments[i]);
        }
        lemma_resolved_plain(front, absolute);
        assert(no_slash(segments[segments.len() - 1]));
    }
}

/// Plain segments are kept as they are.
proof fn lemma_resolved_identity(segments: Seq<Seq<char>>, absolute: bool)
    requires
        all_plain(segments),
    ensures
        normalize::resolved(segments, absolute) == Some(segments),
    decreases segments.len(),
{
    if segments.len() > 0 {
        let front = segments.drop_last();
        assert forall|i: int| 0 <= i < front.len() implies is_plain(#[trigger] front[i]) by {
            assert(front[i] == segments[i]);
        }
        lemma_resolved_identity(front, absolute);
        assert(is_plain(segments[segments.len() - 1]));
        assert(front.push(segments.last()) == segments);
    } else {
        assert(segments == Seq::<Seq<char>>::empty());
    }
}

/// Joining pieces is joining the front ones, then the rest.
proof fn lemma_join_cat(a: Seq<Seq<char>>, b: Seq<Seq<char>>)
    requires
        a.len() > 0,
        b.len() > 0,
    ensures
        text::join(a + b, seq!['/']) == text::join(a, seq!['/']) + seq!['/'] + text::join(
            b,
            seq!['/'],
        ),
    decreases b.len(),
{
    let whole = a + b;
    if b.len() == 1 {
        assert(whole.drop_last() == a);
        assert(whole.last() == b[0]);
    } else {
        assert(whole.drop_last() == a + b.drop_last());
        assert(whole.last() == b.last());
        lemma_join_cat(a, b.drop_last());
        let front = text::join(a, seq!['/']) + seq!['/'] + text::join(b.drop_last(), seq!['/']);
        assert(front + seq!['/'] + b.last() == text::join(a, seq!['/']) + seq!['/'] + (text::join(
            b.drop_last(),
            seq!['/'],
        ) + seq!['/'] + b.last()));
    }
}

/// Joining the pieces of a split gives the text back.
proof fn lemma_join_split(s: Seq<char>)
    ensures
        text::join(text::split(s, '/'), seq!['/']) == s,
    decreases s.len(),
{
    let k = last_slash(s);
    lemma_last_slash(s);
    if k < 0 {
        lemma_split_single(s);
    } else {
        let a = s.take(k);
        let b = s.skip(k + 1);
        assert(no_slash(b));
        lemma_split_cat(a, b);
        lemma_split_single(b);
        lemma_join_split(a);
        text::lemma_split_nonempty(a, '/');
        lemma_join_cat(text::split(a, '/'), seq![b]);
        assert(text::join(seq![b], seq!['/']) == b);
    }
}

/// The first and the last piece of a text that begins or ends with a slash are empty.
proof fn lemma_split_ends(s: Seq<char>)
    ensures
        text::split(s, '/').len() >= 1,
        normalize::is_absolute(s) ==> text::split(s, '/').len() >= 2 && text::split(s, '/')[0].len()
            == 0,
        s.len() == 0 || s.last() == '/' ==> text::split(s, '/').last().len() == 0,
    decreases s.len(),
{
    normalize::lemma_parts(s);
    if s.len() > 1 {
        lemma_split_ends(s.drop_last());
        assert(s.drop_last()[0] == s[0]);
    } else if s.len() == 1 {
        assert(s.drop_last() == Seq::<char>::empty());
        assert(text::split(s.drop_last(), '/') == seq![Seq::<char>::empty()]);
    }
}

spec fn all_filled(parts: Seq<Seq<char>>) -> bool {
    forall|i: int| 0 <= i < parts.len() ==> (#[trigger] parts[i]).len() > 0 && no_slash(parts[i])
}

/// In a text without a run of slashes only the pieces at its ends can be empty, and
/// they are where it begins or ends with a slash.
proof fn lemma_split_filled(s: Seq<char>)
    requires
        no_double_slash(s),
    ensures
        forall|i: int|
            0 < i < text::split(s, '/').len() - 1 ==> (#[trigger] text::split(s, '/')[i]).len() > 0,
        s.len() > 0 && s[0] != '/' ==> text::split(s, '/')[0].len() > 0,
        s.len() > 0 && s.last() != '/' ==> text::split(s, '/').last().len() > 0,
    decreases s.len(),
{
    let k = last_slash(s);
    lemma_last_slash(s);
    if k < 0 {
        assert(no_slash(s));
        lemma_split_single(s);
    } else {
        let a = s.take(k);
        let b = s.skip(k + 1);
        assert(no_slash(b));
        lemma_split_cat(a, b);
        lemma_split_single(b);
        text::lemma_split_nonempty(a, '/');
        assert forall|i: int| 0 <= i < a.len() - 1 implies !(#[trigger] a[i] == '/' && a[i + 1]
            == '/') by {
            assert(s[i] == a[i]);
        }
        lemma_split_filled(a);
        let parts = text::split(a, '/');
        if a.len() > 0 {
            assert(!(s[k - 1] == '/' && s[k - 1 + 1] == '/'));
            assert(a.last() == s[k - 1]);
            assert(a[0] == s[0]);
        } else {
            assert(a == Seq::<char>::empty());
            assert(parts == seq![a]);
        }
        assert forall|i: int| 0 < i < text::split(s, '/').len() - 1 implies (
        #[trigger] text::split(s, '/')[i]).len() > 0 by {
            assert(text::split(s, '/')[i] == parts[i]);
        }
        if s.last() != '/' {
            assert(b.len() > 0);
        }
    }
}

/// What dot resolution keeps of pieces that are not empty is not empty.
proof fn lemma_resolved_filled(segments: Seq<Seq<char>>, absolute: bool)
    requires
        all_filled(segments),
    ensures
        normalize::resolved(segments, absolute) matches Some(kept) ==> all_filled(kept),
    decreases segments.len(),
{
    if segments.len() > 0 {
        let front = segments.drop_last();
        assert forall|i: int| 0 <= i < front.len() implies (#[trigger] front[i]).len() > 0
            && no_slash(front[i]) by {
            assert(front[i] == segments[i]);
        }
        lemma_resolved_filled(front, absolute);
        assert(segments[segments.len() - 1].len() > 0 && no_slash(segments[segments.len() - 1]));
    }
}

/// The ends of joined pieces that are not empty are not slashes.
proof fn lemma_join_ends(parts: Seq<Seq<char>>)
    requires
        parts.len() > 0,
        all_filled(parts),
    ensures
        text::join(parts, seq!['/']).len() > 0,
        text::join(parts, seq!['/'])[0] != '/',
        text::join(parts, seq!['/']).last() != '/',
    decreases parts.len(),
{
    assert(parts[0].len() > 0 && no_slash(parts[0]));
    assert(parts[parts.len() - 1].len() > 0 && no_slash(parts[parts.len() - 1]));
    if parts.len() > 1 {
        let front = parts.drop_last();
        assert forall|i: int| 0 <= i < front.len() implies (#[trigger] front[i]).len() > 0
            && no_slash(front[i]) by {
            assert(front[i] == parts[i]);
        }
        lemma_join_ends(front);
    }
}

proof fn lemma_join_no_double(parts: Seq<Seq<char>>)
    requires
        all_filled(parts),
    ensures
        no_double_slash(text::join(parts, seq!['/'])),
    decreases parts.len(),
{
    if parts.len() == 1 {
        assert(no_slash(parts[0]));
    } else if parts.len() > 1 {
        let front = parts.drop_last();
        assert forall|i: int| 0 <= i < front.len() implies (#[trigger] front[i]).len() > 0
            && no_slash(front[i]) by {
            assert(front[i] == parts[i]);
        }
        lemma_join_no_double(front);
        lemma_join_ends(front);
        lemma_join_ends(parts);
        assert(parts[parts.len() - 1].len() > 0 && no_slash(parts[parts.len() - 1]));
        let a = text::join(front, seq!['/']);
        let s = a + seq!['/'] + parts.last();
        assert forall|i: int| 0 <= i < s.len() - 1 implies !(#[trigger] s[i] == '/' && s[i + 1]
            == '/') by {
            if i + 1 < a.len() {
                assert(s[i] == a[i]);
            } else if i + 1 == a.len() {
                assert(s[i] == a.last());
            } else if i == a.len() {
                assert(s[i + 1] == parts.last()[0]);
            } else {
                assert(s[i] == parts.last()[i - a.len() - 1]);
            }
        }
    }
}

/// A path is what its segments are written out as.
#[verifier::spinoff_prover]
pub proof fn a_path_is_its_segments(t: Seq<char>)
    ensures
        normalize::rebuilt(
            normalize::segments_of(t),
            normalize::is_absolute(t),
            normalize::has_trailing(t),
        ) == t,
{
    let parts = text::split(t, '/');
    let segments = normalize::segments_of(t);
    let blank = Seq::<char>::empty();
    let slash = seq!['/'];
    let body = text::join(segments, slash);
    lemma_split_ends(t);
    lemma_join_split(t);
    assert(text::join(seq![blank], slash) == blank);
    if t.len() == 0 {
        assert(parts == seq![blank]);
        assert(segments == Seq::<Seq<char>>::empty());
        assert(blank + body == t);
    } else if t == slash {
        lemma_split_single(blank);
        lemma_split_cat(blank, blank);
        assert(blank + slash + blank == slash);
        assert(segments == Seq::<Seq<char>>::empty());
        assert(slash + body == t);
    } else {
        let inner = if t.last() == '/' {
            assert(parts.last() == blank);
            let front = parts.drop_last();
            assert(front.len() > 0) by {
                if parts.len() == 1 {
                    assert(parts == seq![blank]);
                }
            }
            assert(front + seq![blank] == parts);
            lemma_join_cat(front, seq![blank]);
            assert(t == text::join(front, slash).push('/'));
            front
        } else {
            parts
        };
        if normalize::is_absolute(t) {
            assert(inner.len() > 1) by {
                if inner.len() == 1 {
                    assert(inner == seq![blank]);
                    assert(t == slash || t == blank);
                }
            }
            assert(parts[0] == blank);
            assert(segments == inner.skip(1));
            assert(inner == seq![blank] + segments);
            lemma_join_cat(seq![blank], segments);
            assert(text::join(inner, slash) == slash + body);
        } else {
            assert(inner == segments);
            assert(blank + body == body);
        }
    }
}

/// A path without dot segments is what dot resolution makes of it.
proof fn lemma_no_dots_identity(t: Seq<char>)
    requires
        no_dot_segment(t),
    ensures
        normalize::without_dots(t) == Ok::<Seq<char>, Rejected>(t),
{
    let absolute = normalize::is_absolute(t);
    let parts = text::split(t, '/');
    let segments = normalize::segments_of(t);
    lemma_split_pieces(t);
    lemma_split_ends(t);
    let from = if absolute {
        1int
    } else {
        0int
    };
    assert forall|i: int| 0 <= i < segments.len() implies is_plain(#[trigger] segments[i]) by {
        assert(segments[i] == parts[i + from]);
        assert(no_slash(parts[i + from]));
    }
    lemma_resolved_identity(segments, absolute);
    a_path_is_its_segments(t);
}

/// A path that is built from plain segments has no dot segment.
proof fn lemma_rebuilt_plain(kept: Seq<Seq<char>>, absolute: bool, trailing: bool)
    requires
        all_plain(kept),
    ensures
        no_dot_segment(normalize::rebuilt(kept, absolute, trailing)),
{
    let t = normalize::rebuilt(kept, absolute, trailing);
    let blank = Seq::<char>::empty();
    let body = text::join(kept, seq!['/']);
    let slash = seq!['/'];
    lemma_split_single(blank);
    if kept.len() == 0 {
        assert(body == blank);
        lemma_split_cat(blank, blank);
        assert(blank + slash + blank == slash);
        assert(t == slash || t == blank);
    } else {
        assert forall|i: int| 0 <= i < kept.len() implies no_slash(#[trigger] kept[i]) by {
            assert(is_plain(kept[i]));
        }
        lemma_split_join(kept);
        lemma_split_cat(blank, body);
        assert(blank + slash + body == slash + body);
        lemma_split_cat(body, blank);
        assert(body + slash + blank == body.push('/'));
        lemma_split_cat(slash + body, blank);
        assert((slash + body) + slash + blank == (slash + body).push('/'));
        assert(blank + body == body);
        let segs = text::split(t, '/');
        assert(segs == (if absolute {
            seq![blank]
        } else {
            Seq::empty()
        }) + kept + (if trailing {
            seq![blank]
        } else {
            Seq::empty()
        }));
        assert forall|i: int| 0 <= i < segs.len() implies (#[trigger] segs[i]) != seq!['.']
            && segs[i] != seq!['.', '.'] by {
            let off = if absolute {
                1int
            } else {
                0int
            };
            if off <= i < off + kept.len() {
                assert(segs[i] == kept[i - off]);
                assert(is_plain(kept[i - off]));
            } else {
                assert(segs[i] == blank);
            }
        }
    }
}

/// A path that is built from pieces that are not empty has no run of slashes.
proof fn lemma_rebuilt_filled(kept: Seq<Seq<char>>, absolute: bool, trailing: bool)
    requires
        all_filled(kept),
    ensures
        no_double_slash(normalize::rebuilt(kept, absolute, trailing)),
{
    lemma_join_no_double(kept);
    if kept.len() > 0 {
        lemma_join_ends(kept);
    }
    let t = normalize::rebuilt(kept, absolute, trailing);
    let body = text::join(kept, seq!['/']);
    let from = if absolute {
        1int
    } else {
        0int
    };
    assert forall|i: int| 0 <= i < t.len() - 1 implies !(#[trigger] t[i] == '/' && t[i + 1]
        == '/') by {
        if from <= i < from + body.len() - 1 {
            assert(t[i] == body[i - from]);
            assert(t[i + 1] == body[i - from + 1]);
        }
    }
}

/// Resolving dot segments leaves no dot segment, and resolving again changes nothing.
/// It makes no run of slashes where there is none, and keeps the slash in front.
pub proof fn without_dots_is_stable(s: Seq<char>)
    ensures
        normalize::without_dots(s) matches Ok(t) ==> {
            &&& normalize::without_dots(t) == Ok::<Seq<char>, Rejected>(t)
            &&& no_dot_segment(t)
            &&& no_double_slash(s) ==> no_double_slash(t)
            &&& normalize::is_absolute(s) ==> normalize::is_absolute(t)
        },
{
    let absolute = normalize::is_absolute(s);
    let trailing = normalize::has_trailing(s);
    let segments = normalize::segments_of(s);
    let parts = text::split(s, '/');
    let from = if absolute {
        1int
    } else {
        0int
    };
    lemma_split_pieces(s);
    lemma_split_ends(s);
    assert forall|i: int| 0 <= i < segments.len() implies no_slash(#[trigger] segments[i]) by {
        assert(segments[i] == parts[i + from]);
    }
    lemma_resolved_plain(segments, absolute);
    match normalize::resolved(segments, absolute) {
        Some(kept) => {
            let t = normalize::rebuilt(kept, absolute, trailing);
            lemma_rebuilt_plain(kept, absolute, trailing);
            lemma_no_dots_identity(t);
            if no_double_slash(s) {
                lemma_split_filled(s);
                assert forall|i: int| 0 <= i < segments.len() implies (#[trigger] segments[i]).len()
                    > 0 && no_slash(segments[i]) by {
                    assert(segments[i] == parts[i + from]);
                }
                lemma_resolved_filled(segments, absolute);
                lemma_rebuilt_filled(kept, absolute, trailing);
            }
        },
        None => {},
    }
}

/// A path without a dot segment is left as it is, its empty segments too.
pub proof fn without_dots_keeps_the_rest(s: Seq<char>)
    requires
        no_dot_segment(s),
    ensures
        normalize::without_dots(s) == Ok::<Seq<char>, Rejected>(s),
{
    lemma_no_dots_identity(s);
}

/// Is the character at `i` a hex digit?
pub open spec fn hex_at(s: Seq<char>, i: int) -> bool {
    0 <= i < s.len() && normalize::digit_value(s[i]) is Some
}

/// Is the character at `i`, with the two after it, written the way that
/// decoding writes it?
spec fn settled_at(s: Seq<char>, i: int, config: Normalization) -> bool {
    if s[i] == '%' {
        if hex_at(s, i + 1) && hex_at(s, i + 2) {
            let unit = Unit::Encoded(s[i + 1], s[i + 2]);
            unit.fault(config) is None && unit.canonical(config) == seq!['%', s[i + 1], s[i + 2]]
        } else {
            !config.percent_encoding
        }
    } else {
        !(config.control_characters && normalize::control_char(s[i]))
    }
}

spec fn settled(s: Seq<char>, config: Normalization) -> bool {
    forall|i: int| 0 <= i < s.len() ==> #[trigger] settled_at(s, i, config)
}

proof fn lemma_settled_decodes(s: Seq<char>, config: Normalization)
    requires
        settled(s, config),
    ensures
        normalize::decoded(s, config) == Ok::<Seq<char>, Rejected>(s),
    decreases s.len(),
{
    if s.len() > 0 {
        let unit = normalize::first_unit(s);
        assert(settled_at(s, 0, config));
        let w = unit.width();
        let rest = s.skip(w);
        assert forall|i: int| 0 <= i < rest.len() implies #[trigger] settled_at(
            rest,
            i,
            config,
        ) by {
            assert(settled_at(s, i + w, config));
            assert(rest[i] == s[i + w]);
            assert(hex_at(rest, i + 1) == hex_at(s, i + 1 + w));
            assert(hex_at(rest, i + 2) == hex_at(s, i + 2 + w));
        }
        lemma_settled_decodes(rest, config);
        match unit {
            Unit::Literal(c) => {
                assert(unit.canonical(config) == seq![s[0]]);
            },
            Unit::Encoded(hi, lo) => {
                assert(hex_at(s, 1) && hex_at(s, 2));
            },
            Unit::Stray => {
                assert(!(hex_at(s, 1) && hex_at(s, 2)));
                assert(unit.canonical(config) == seq![s[0]]);
            },
        }
        assert(unit.canonical(config) + rest == s);
    } else {
        assert(s == Seq::<char>::empty());
    }
}

proof fn lemma_hex_digit(c: char)
    requires
        normalize::digit_value(c) is Some,
    ensures
        normalize::digit_value(normalize::upper_digit(c)) == normalize::digit_value(c),
        normalize::upper_digit(normalize::upper_digit(c)) == normalize::upper_digit(c),
        !normalize::control_char(normalize::upper_digit(c)),
        normalize::upper_digit(c) != '%',
{
}

/// An unreserved byte is a character that decoding leaves alone.
proof fn lemma_unreserved(b: u8)
    requires
        normalize::unreserved(b),
    ensures
        !normalize::control_char(b as char),
        b as char != '%',
{
}

proof fn lemma_decoded_settled(s: Seq<char>, config: Normalization)
    ensures
        normalize::decoded(s, config) matches Ok(t) ==> settled(t, config) && (s.len() == 0 ==> t
            == Seq::<char>::empty()) && (s.len() > 0 && s[0] != '%' ==> t.len() > 0 && t[0] == s[0])
            && (s.len() > 0 && s[0] == '%' && !config.percent_encoding ==> t.len() > 0 && t[0]
            == '%'),
    decreases s.len(),
{
    if s.len() > 0 {
        let unit = normalize::first_unit(s);
        let w = unit.width();
        let tail = s.skip(w);
        lemma_decoded_settled(tail, config);
        if normalize::decoded(s, config) is Ok {
            let rest = normalize::decoded(tail, config)->Ok_0;
            let head = unit.canonical(config);
            let t = head + rest;
            let n = head.len() as int;
            match unit {
                Unit::Encoded(hi, lo) => {
                    lemma_hex_digit(hi);
                    lemma_hex_digit(lo);
                    if n == 1 {
                        lemma_unreserved(normalize::encoded_byte(hi, lo));
                    }
                },
                Unit::Literal(c) => {},
                Unit::Stray => {
                    // What follows a stray `%` is still not two hex digits.
                    if tail.len() > 0 && tail[0] != '%' && normalize::digit_value(tail[0]) is Some {
                        let tail2 = tail.skip(1);
                        assert(normalize::first_unit(tail).width() == 1);
                        lemma_decoded_settled(tail2, config);
                        let rest2 = normalize::decoded(tail2, config)->Ok_0;
                        assert(rest == seq![tail[0]] + rest2);
                        if tail2.len() > 0 {
                            assert(tail2[0] == s[2]);
                            assert(rest[1] == rest2[0]);
                        }
                    }
                    assert(!(hex_at(t, 1) && hex_at(t, 2)));
                },
            }
            assert forall|i: int| 0 <= i < t.len() implies #[trigger] settled_at(t, i, config) by {
                if i >= n {
                    assert(settled_at(rest, i - n, config));
                    assert(t[i] == rest[i - n]);
                    assert(hex_at(t, i + 1) == hex_at(rest, i - n + 1));
                    assert(hex_at(t, i + 2) == hex_at(rest, i - n + 2));
                } else {
                    match unit {
                        Unit::Encoded(hi, lo) => {
                            if n == 3 {
                                assert(t[1] == normalize::upper_digit(hi));
                                assert(t[2] == normalize::upper_digit(lo));
                                let again = Unit::Encoded(t[1], t[2]);
                                assert(normalize::encoded_byte(t[1], t[2])
                                    == normalize::encoded_byte(hi, lo));
                                assert(again.canonical(config) == seq!['%', t[1], t[2]]);
                            } else {
                                assert(t[0] == normalize::encoded_byte(hi, lo) as char);
                            }
                        },
                        Unit::Literal(c) => {},
                        Unit::Stray => {},
                    }
                }
            }
        }
    }
}

proof fn lemma_settled_cat(a: Seq<char>, b: Seq<char>, config: Normalization)
    ensures
        settled(a + seq!['/'] + b, config) <==> settled(a, config) && settled(b, config),
{
    let s = a + seq!['/'] + b;
    let n = a.len() as int;
    assert(s[n] == '/');
    assert(!hex_at(s, n));
    assert forall|i: int| 0 <= i < n implies s[i] == a[i] && #[trigger] settled_at(s, i, config)
        == settled_at(a, i, config) && hex_at(s, i + 1) == hex_at(a, i + 1) by {
        assert(hex_at(s, i + 1) == hex_at(a, i + 1));
        if i + 1 < n {
            assert(hex_at(s, i + 2) == hex_at(a, i + 2));
        }
    }
    assert forall|i: int| 0 <= i < b.len() implies s[i + n + 1] == b[i] && settled_at(
        s,
        i + n + 1,
        config,
    ) == #[trigger] settled_at(b, i, config) by {
        assert(hex_at(s, i + n + 2) == hex_at(b, i + 1));
        assert(hex_at(s, i + n + 3) == hex_at(b, i + 2));
    }
    if settled(s, config) {
        assert forall|i: int| 0 <= i < n implies #[trigger] settled_at(a, i, config) by {
            assert(settled_at(s, i, config));
        }
        assert forall|i: int| 0 <= i < b.len() implies #[trigger] settled_at(b, i, config) by {
            assert(settled_at(s, i + n + 1, config));
        }
    }
    if settled(a, config) && settled(b, config) {
        assert forall|i: int| 0 <= i < s.len() implies #[trigger] settled_at(s, i, config) by {
            if i < n {
                assert(settled_at(a, i, config));
            } else if i > n {
                assert(settled_at(b, i - n - 1, config));
            }
        }
    }
}

/// The last `/` of a text that has one.
spec fn last_slash(s: Seq<char>) -> int
    decreases s.len(),
{
    if s.len() == 0 {
        -1
    } else if s.last() == '/' {
        s.len() - 1
    } else {
        last_slash(s.drop_last())
    }
}

proof fn lemma_last_slash(s: Seq<char>)
    ensures
        -1 <= last_slash(s) < s.len(),
        last_slash(s) >= 0 ==> s[last_slash(s)] == '/',
        forall|i: int| last_slash(s) < i < s.len() ==> s[i] != '/',
        last_slash(s) >= 0 ==> s == s.take(last_slash(s)) + seq!['/'] + s.skip(last_slash(s) + 1),
    decreases s.len(),
{
    if s.len() > 0 && s.last() != '/' {
        let front = s.drop_last();
        lemma_last_slash(front);
        assert forall|i: int| last_slash(s) < i < s.len() implies s[i] != '/' by {
            if i < front.len() {
                assert(s[i] == front[i]);
            }
        }
    }
}

proof fn lemma_split_settled(s: Seq<char>, config: Normalization)
    requires
        settled(s, config),
    ensures
        forall|i: int|
            0 <= i < text::split(s, '/').len() ==> settled(
                #[trigger] text::split(s, '/')[i],
                config,
            ),
    decreases s.len(),
{
    let k = last_slash(s);
    lemma_last_slash(s);
    if k < 0 {
        lemma_split_single(s);
    } else {
        let a = s.take(k);
        let b = s.skip(k + 1);
        lemma_settled_cat(a, b, config);
        lemma_split_cat(a, b);
        lemma_split_settled(a, config);
        assert(no_slash(b));
        lemma_split_single(b);
    }
}

proof fn lemma_join_settled(parts: Seq<Seq<char>>, config: Normalization)
    requires
        forall|i: int| 0 <= i < parts.len() ==> settled(#[trigger] parts[i], config),
    ensures
        settled(text::join(parts, seq!['/']), config),
    decreases parts.len(),
{
    if parts.len() == 1 {
        assert(settled(parts[0], config));
    } else if parts.len() > 1 {
        let front = parts.drop_last();
        assert forall|i: int| 0 <= i < front.len() implies settled(#[trigger] front[i], config) by {
            assert(front[i] == parts[i]);
        }
        lemma_join_settled(front, config);
        assert(settled(parts[parts.len() - 1], config));
        lemma_settled_cat(text::join(front, seq!['/']), parts.last(), config);
    }
}

proof fn lemma_resolved_settled(segments: Seq<Seq<char>>, absolute: bool, config: Normalization)
    requires
        forall|i: int| 0 <= i < segments.len() ==> settled(#[trigger] segments[i], config),
    ensures
        normalize::resolved(segments, absolute) matches Some(kept) ==> forall|i: int|
            0 <= i < kept.len() ==> settled(#[trigger] kept[i], config),
    decreases segments.len(),
{
    if segments.len() > 0 {
        let front = segments.drop_last();
        assert forall|i: int| 0 <= i < front.len() implies settled(#[trigger] front[i], config) by {
            assert(front[i] == segments[i]);
        }
        lemma_resolved_settled(front, absolute, config);
        assert(settled(segments[segments.len() - 1], config));
    }
}

proof fn lemma_without_dots_settled(s: Seq<char>, config: Normalization)
    requires
        settled(s, config),
    ensures
        normalize::without_dots(s) matches Ok(t) ==> settled(t, config),
{
    let absolute = normalize::is_absolute(s);
    let segments = normalize::segments_of(s);
    let parts = text::split(s, '/');
    let from = if absolute {
        1int
    } else {
        0int
    };
    lemma_split_settled(s, config);
    lemma_split_ends(s);
    assert forall|i: int| 0 <= i < segments.len() implies settled(
        #[trigger] segments[i],
        config,
    ) by {
        assert(segments[i] == parts[i + from]);
    }
    lemma_resolved_settled(segments, absolute, config);
    match normalize::resolved(segments, absolute) {
        Some(kept) => {
            lemma_join_settled(kept, config);
            let body = text::join(kept, seq!['/']);
            let blank = Seq::<char>::empty();
            lemma_settled_cat(blank, body, config);
            assert(blank + seq!['/'] + body == seq!['/'] + body);
            lemma_settled_cat(body, blank, config);
            assert(body + seq!['/'] + blank == body.push('/'));
            lemma_settled_cat(seq!['/'] + body, blank, config);
            assert((seq!['/'] + body) + seq!['/'] + blank == (seq!['/'] + body).push('/'));
            assert(blank + body == body);
        },
        None => {},
    }
}

proof fn lemma_collapsed_cat(a: Seq<char>, b: Seq<char>)
    requires
        no_slash(b),
    ensures
        normalize::collapsed(a + b) == normalize::collapsed(a) + b,
    decreases b.len(),
{
    if b.len() == 0 {
        assert(a + b == a);
        assert(normalize::collapsed(a) + b == normalize::collapsed(a));
    } else {
        let s = a + b;
        assert(s.drop_last() == a + b.drop_last());
        lemma_collapsed_cat(a, b.drop_last());
        assert(b[b.len() - 1] != '/');
        assert((normalize::collapsed(a) + b.drop_last()).push(b.last()) == normalize::collapsed(a)
            + b);
    }
}

proof fn lemma_collapsed_ends(s: Seq<char>)
    ensures
        s.len() > 0 ==> normalize::collapsed(s).len() > 0 && normalize::collapsed(s).last()
            == s.last() && normalize::collapsed(s)[0] == s[0],
        no_double_slash(normalize::collapsed(s)),
    decreases s.len(),
{
    if s.len() > 0 {
        lemma_collapsed_ends(s.drop_last());
        let front = normalize::collapsed(s.drop_last());
        if s.len() >= 2 {
            assert(s.drop_last().last() == s[s.len() - 2]);
        }
    }
}

proof fn lemma_collapsed_identity(s: Seq<char>)
    requires
        no_double_slash(s),
    ensures
        normalize::collapsed(s) == s,
    decreases s.len(),
{
    if s.len() > 0 {
        let front = s.drop_last();
        assert forall|i: int| 0 <= i < front.len() - 1 implies !(#[trigger] front[i] == '/'
            && front[i + 1] == '/') by {
            assert(s[i] == front[i]);
        }
        lemma_collapsed_identity(front);
        if s.len() >= 2 {
            assert(!(s[s.len() - 2] == '/' && s[s.len() - 2 + 1] == '/'));
        }
        assert(front.push(s.last()) == s);
    } else {
        assert(s == Seq::<char>::empty());
    }
}

proof fn lemma_collapsed_settled(s: Seq<char>, config: Normalization)
    requires
        settled(s, config),
    ensures
        settled(normalize::collapsed(s), config),
    decreases s.len(),
{
    let k = last_slash(s);
    lemma_last_slash(s);
    if k < 0 {
        lemma_collapsed_cat(Seq::<char>::empty(), s);
        assert(Seq::<char>::empty() + s == s);
        assert(normalize::collapsed(Seq::<char>::empty()) + s == s);
    } else {
        let a = s.take(k);
        let b = s.skip(k + 1);
        assert(no_slash(b));
        lemma_settled_cat(a, b, config);
        lemma_collapsed_settled(a, config);
        lemma_collapsed_cat(a.push('/'), b);
        assert(a.push('/') + b == s);
        assert(a.push('/').drop_last() == a);
        let c = normalize::collapsed(a);
        if a.len() > 0 && a.last() == '/' {
            lemma_collapsed_ends(a);
            let d = c.drop_last();
            let blank = Seq::<char>::empty();
            assert(c == d + seq!['/'] + blank);
            lemma_settled_cat(d, blank, config);
            lemma_settled_cat(d, b, config);
            assert(c + b == d + seq!['/'] + b);
        } else {
            lemma_settled_cat(c, b, config);
            assert(c.push('/') + b == c + seq!['/'] + b);
        }
    }
}

/// Decoding leaves a path from the root one.
pub proof fn decoding_keeps_the_root(path: Seq<char>, config: Normalization)
    requires
        normalize::is_absolute(path),
    ensures
        normalize::decoded(path, config) matches Ok(t) ==> normalize::is_absolute(t),
{
    lemma_decoded_settled(path, config);
}

/// Collapsing slashes leaves a path from the root one.
pub proof fn collapsing_keeps_the_root(path: Seq<char>)
    requires
        normalize::is_absolute(path),
    ensures
        normalize::is_absolute(normalize::collapsed(path)),
{
    lemma_collapsed_ends(path);
}

/// How an escape at `i` looks in canonical form: its hex digits are in upper case, and
/// the byte that it stands for is none that is decoded, no control character and no
/// separator, as far as each check is on. With the check on encodings every `%` begins
/// an escape.
pub open spec fn canonical_escape(t: Seq<char>, i: int, config: Normalization) -> bool {
    if hex_at(t, i + 1) && hex_at(t, i + 2) {
        let byte = normalize::encoded_byte(t[i + 1], t[i + 2]);
        &&& t[i + 1] == normalize::upper_digit(t[i + 1])
        &&& t[i + 2] == normalize::upper_digit(t[i + 2])
        &&& config.percent_encoding ==> !normalize::unreserved(byte)
        &&& config.control_characters ==> !normalize::control(byte)
        &&& config.encoded_separators ==> byte != 0x2f && byte != 0x5c
    } else {
        !config.percent_encoding
    }
}

/// What a path in canonical form looks like: it holds no control character, no
/// run of slashes, no dot segment and no escape out of its canonical form, as far as
/// each check is on; and a path from the root stays one.
pub proof fn normal_form_is_clean(path: Seq<char>, config: Normalization)
    ensures
        normalize::normal_form(path, config) matches Ok(t) ==> {
            &&& config.dot_segments ==> no_dot_segment(t)
            &&& config.duplicate_slashes ==> no_double_slash(t)
            &&& config.control_characters ==> forall|i: int|
                0 <= i < t.len() ==> !normalize::control_char(#[trigger] t[i])
            &&& forall|i: int|
                0 <= i < t.len() && #[trigger] t[i] == '%' ==> canonical_escape(t, i, config)
            &&& normalize::is_absolute(path) ==> normalize::is_absolute(t)
        },
{
    lemma_normal_form(path, config);
    match normalize::normal_form(path, config) {
        Ok(t) => {
            assert forall|i: int| 0 <= i < t.len() implies (config.control_characters
                ==> !normalize::control_char(#[trigger] t[i])) && (t[i] == '%' ==> canonical_escape(
                t,
                i,
                config,
            )) by {
                assert(settled_at(t, i, config));
                if t[i] == '%' && hex_at(t, i + 1) && hex_at(t, i + 2) {
                    let made = Unit::Encoded(t[i + 1], t[i + 2]).canonical(config);
                    assert(made.len() == 3);
                    assert(made[1] == t[i + 1]);
                    assert(made[2] == t[i + 2]);
                }
            }
        },
        Err(_) => {},
    }
}

/// Normalizing a path in canonical form changes nothing: one round settles it.
pub proof fn normalizing_twice_is_normalizing_once(path: Seq<char>, config: Normalization)
    ensures
        normalize::normal_form(path, config) matches Ok(t) ==> normalize::normal_form(t, config)
            == Ok::<Seq<char>, Rejected>(t),
{
    lemma_normal_form(path, config);
    match normalize::normal_form(path, config) {
        Ok(t) => {
            lemma_settled_decodes(t, config);
            if config.duplicate_slashes {
                lemma_collapsed_identity(t);
            }
        },
        Err(_) => {},
    }
}

/// Where there is no escape and no control character there is nothing to decode, whatever
/// characters the path is written in.
pub proof fn decoding_leaves_other_characters_alone(path: Seq<char>, config: Normalization)
    requires
        forall|i: int|
            0 <= i < path.len() ==> #[trigger] path[i] != '%' && !normalize::control_char(path[i]),
    ensures
        normalize::decoded(path, config) == Ok::<Seq<char>, Rejected>(path),
{
    assert forall|i: int| 0 <= i < path.len() implies #[trigger] settled_at(path, i, config) by {
        assert(path[i] != '%' && !normalize::control_char(path[i]));
    }
    lemma_settled_decodes(path, config);
}

/// A path without an escape, a control character, a run of slashes or a dot segment is
/// its own canonical form, whatever other characters it is written in.
pub proof fn a_plain_path_is_left_alone(path: Seq<char>, config: Normalization)
    requires
        forall|i: int|
            0 <= i < path.len() ==> #[trigger] path[i] != '%' && !normalize::control_char(path[i]),
        no_double_slash(path),
        no_dot_segment(path),
    ensures
        normalize::normal_form(path, config) == Ok::<Seq<char>, Rejected>(path),
{
    decoding_leaves_other_characters_alone(path, config);
    lemma_collapsed_identity(path);
    lemma_no_dots_identity(path);
}

proof fn lemma_normal_form(path: Seq<char>, config: Normalization)
    ensures
        normalize::normal_form(path, config) matches Ok(t) ==> {
            &&& settled(t, config)
            &&& config.dot_segments ==> no_dot_segment(t) && normalize::without_dots(t) == Ok::<
                Seq<char>,
                Rejected,
            >(t)
            &&& config.duplicate_slashes ==> no_double_slash(t)
            &&& normalize::is_absolute(path) ==> normalize::is_absolute(t)
        },
{
    lemma_decoded_settled(path, config);
    match normalize::decoded(path, config) {
        Ok(t0) => {
            let t1 = if config.duplicate_slashes {
                normalize::collapsed(t0)
            } else {
                t0
            };
            lemma_collapsed_settled(t0, config);
            lemma_collapsed_ends(t0);
            if config.dot_segments {
                without_dots_is_stable(t1);
                lemma_without_dots_settled(t1, config);
            }
        },
        Err(_) => {},
    }
}

/// A path is decoded from its front: a character that begins no escape is kept, unless it
/// is a control character and those are looked for.
pub proof fn a_character_is_kept(c: char, rest: Seq<char>, config: Normalization)
    requires
        c != '%',
    ensures
        normalize::decoded(seq![c] + rest, config) == (if config.control_characters && (c
            < '\u{20}' || c == '\u{7f}') {
            Err::<Seq<char>, Rejected>(Rejected::ControlCharacter)
        } else {
            match normalize::decoded(rest, config) {
                Ok(t) => Ok(seq![c] + t),
                Err(why) => Err(why),
            }
        }),
{
    let s = seq![c] + rest;
    assert(s[0] == c);
    assert(s.skip(1) == rest);
}

/// An escape stands for the byte of its two hex digits. A letter, a digit or one of the
/// other unreserved characters comes out as itself, and any other escape stays one, in
/// upper case. One of a control character or of a separator is refused where those are
/// looked for.
pub proof fn an_escape_stands_for_its_byte(
    hi: char,
    lo: char,
    rest: Seq<char>,
    config: Normalization,
)
    requires
        normalize::digit_value(hi) is Some,
        normalize::digit_value(lo) is Some,
    ensures
        ({
            let byte = normalize::digit_value(hi)->0 * 16 + normalize::digit_value(lo)->0;
            let after = normalize::decoded(rest, config);
            normalize::decoded(seq!['%', hi, lo] + rest, config) == (if config.control_characters
                && (byte < 0x20 || byte == 0x7f) {
                Err::<Seq<char>, Rejected>(Rejected::ControlCharacter)
            } else if config.encoded_separators && (byte == 0x2f || byte == 0x5c) {
                Err(Rejected::EncodedSeparator)
            } else {
                match after {
                    Ok(t) => Ok(
                        (if config.percent_encoding && (0x30 <= byte <= 0x39 || 0x41 <= byte
                            <= 0x5a || 0x61 <= byte <= 0x7a || byte == 0x2d || byte == 0x2e || byte
                            == 0x5f || byte == 0x7e) {
                            seq![byte as char]
                        } else {
                            seq!['%', normalize::upper_digit(hi), normalize::upper_digit(lo)]
                        }) + t,
                    ),
                    Err(why) => Err(why),
                }
            })
        }),
{
    let s = seq!['%', hi, lo] + rest;
    assert(s[0] == '%' && s[1] == hi && s[2] == lo);
    assert(s.skip(3) == rest);
    lemma_digit_is_small(hi);
    lemma_digit_is_small(lo);
    let byte = normalize::digit_value(hi)->0 * 16 + normalize::digit_value(lo)->0;
    assert(normalize::encoded_byte(hi, lo) == byte);
    lemma_byte_is_a_char(normalize::encoded_byte(hi, lo));
}

proof fn lemma_digit_is_small(c: char)
    ensures
        normalize::digit_value(c) matches Some(n) ==> n < 16,
{
}

proof fn lemma_byte_is_a_char(b: u8)
    ensures
        (b as int) as char == b as char,
{
}

/// The hex digits stand for the numbers from nothing to fifteen, in either case, and no
/// other character is one.
pub proof fn hex_digits_count_to_fifteen(c: char)
    ensures
        '0' <= c <= '9' ==> normalize::digit_value(c) == Some((c as u32 - '0' as u32) as u8),
        'a' <= c <= 'f' ==> normalize::digit_value(c) == Some((c as u32 - 'a' as u32 + 10) as u8),
        'A' <= c <= 'F' ==> normalize::digit_value(c) == Some((c as u32 - 'A' as u32 + 10) as u8),
        !('0' <= c <= '9' || 'a' <= c <= 'f' || 'A' <= c <= 'F') ==> normalize::digit_value(
            c,
        ) is None,
{
}

/// A `%` without two hex digits behind it is refused where encodings are checked, and is
/// kept where they are not.
pub proof fn a_stray_percent_is_no_escape(rest: Seq<char>, config: Normalization)
    requires
        !(hex_at(rest, 0) && hex_at(rest, 1)),
    ensures
        normalize::decoded(seq!['%'] + rest, config) == (if config.percent_encoding {
            Err::<Seq<char>, Rejected>(Rejected::BadPercentEncoding)
        } else {
            match normalize::decoded(rest, config) {
                Ok(t) => Ok(seq!['%'] + t),
                Err(why) => Err(why),
            }
        }),
{
    let s = seq!['%'] + rest;
    assert(s[0] == '%');
    assert(s.skip(1) == rest);
    if s.len() >= 3 {
        assert(s[1] == rest[0] && s[2] == rest[1]);
    }
}

/// However many slashes stand in a row, they come to one, and nothing else changes.
pub proof fn a_run_of_slashes_is_one(a: Seq<char>, b: Seq<char>)
    ensures
        normalize::collapsed(a + seq!['/', '/'] + b) == normalize::collapsed(a + seq!['/'] + b),
        no_double_slash(a) ==> normalize::collapsed(a) == a,
    decreases b.len(),
{
    if no_double_slash(a) {
        lemma_collapsed_identity(a);
    }
    let two = a + seq!['/', '/'] + b;
    let one = a + seq!['/'] + b;
    if b.len() > 0 {
        let front = b.drop_last();
        a_run_of_slashes_is_one(a, front);
        assert(two.drop_last() == a + seq!['/', '/'] + front);
        assert(one.drop_last() == a + seq!['/'] + front);
        assert(two.last() == one.last());
        assert(two[two.len() - 2] == one[one.len() - 2]);
        assert(one.len() >= 2 && two.len() >= 2);
    } else {
        assert(two.drop_last() == one);
        assert(two[two.len() - 2] == '/');
    }
}

/// `.` stays where it is: a path is the same without it.
pub proof fn a_dot_changes_nothing(a: Seq<Seq<char>>, b: Seq<Seq<char>>, absolute: bool)
    ensures
        normalize::resolved(a + seq![seq!['.']] + b, absolute) == normalize::resolved(
            a + b,
            absolute,
        ),
    decreases b.len(),
{
    let long = a + seq![seq!['.']] + b;
    let short = a + b;
    if b.len() > 0 {
        a_dot_changes_nothing(a, b.drop_last(), absolute);
        assert(long.drop_last() == a + seq![seq!['.']] + b.drop_last());
        assert(short.drop_last() == a + b.drop_last());
        assert(long.last() == short.last());
    } else {
        assert(long.drop_last() == a);
        assert(short == a);
        assert(long.last() == seq!['.']);
    }
}

/// `..` takes back the segment before it: a path is the same without the two.
pub proof fn a_climb_takes_back_a_segment(
    a: Seq<Seq<char>>,
    segment: Seq<char>,
    b: Seq<Seq<char>>,
    absolute: bool,
)
    requires
        segment != seq!['.'],
        segment != seq!['.', '.'],
    ensures
        normalize::resolved(a + seq![segment, seq!['.', '.']] + b, absolute)
            == normalize::resolved(a + b, absolute),
    decreases b.len(),
{
    let long = a + seq![segment, seq!['.', '.']] + b;
    let short = a + b;
    if b.len() > 0 {
        a_climb_takes_back_a_segment(a, segment, b.drop_last(), absolute);
        assert(long.drop_last() == a + seq![segment, seq!['.', '.']] + b.drop_last());
        assert(short.drop_last() == a + b.drop_last());
        assert(long.last() == short.last());
    } else {
        assert(short == a);
        assert(long.last() == seq!['.', '.']);
        assert(long.drop_last().last() == segment);
        assert(long.drop_last().drop_last() == a);
        match normalize::resolved(a, absolute) {
            Some(kept) => {
                assert(normalize::resolved(long.drop_last(), absolute) == Some(kept.push(segment)));
                assert(kept.push(segment).drop_last() == kept);
            },
            None => {
                assert(normalize::resolved(long.drop_last(), absolute) is None);
            },
        }
    }
}

/// Climbing above the root is refused, whatever comes after. A path that does not begin at
/// the root has no root to climb above, and stays where it is.
pub proof fn climbing_above_the_root_is_refused(b: Seq<Seq<char>>, absolute: bool)
    ensures
        absolute ==> normalize::resolved(seq![seq!['.', '.']] + b, absolute) is None,
        !absolute ==> normalize::resolved(seq![seq!['.', '.']] + b, absolute)
            == normalize::resolved(b, absolute),
    decreases b.len(),
{
    let s = seq![seq!['.', '.']] + b;
    if b.len() > 0 {
        climbing_above_the_root_is_refused(b.drop_last(), absolute);
        assert(s.drop_last() == seq![seq!['.', '.']] + b.drop_last());
        assert(s.last() == b.last());
    } else {
        assert(s.drop_last() == Seq::<Seq<char>>::empty());
        assert(normalize::resolved(s.drop_last(), absolute) == Some(Seq::<Seq<char>>::empty()));
        assert(s.last() == seq!['.', '.']);
        assert(b == Seq::<Seq<char>>::empty());
    }
}

} // verus!
