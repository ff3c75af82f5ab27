//! Glob matching for header names.
//!
//! `*` matches any run of characters, including none. `?` matches exactly one.
//! Matching is case-insensitive, because header names are.
use crate::text;
use vstd::prelude::*;

verus! {

/// A compiled glob pattern.
#[derive(Debug, Clone, PartialEq, Eq)]
pub struct Glob {
    /// Kept for equality and for error messages.
    pattern: String,
    /// Lowercased once, so matching does not have to.
    lowered: Vec<char>,
}

/// Does the pattern from position `p` on match the text from position `t` on?
pub open spec fn globs_from(pattern: Seq<char>, p: int, text: Seq<char>, t: int) -> bool
    decreases pattern.len() - p, text.len() - t,
{
    if p < 0 || t < 0 || t > text.len() {
        false
    } else if p >= pattern.len() {
        t == text.len()
    } else if pattern[p] == '*' {
        globs_from(pattern, p + 1, text, t) || t < text.len() && globs_from(
            pattern,
            p,
            text,
            t + 1,
        )
    } else {
        t < text.len() && (pattern[p] == '?' || pattern[p] == text[t]) && globs_from(
            pattern,
            p + 1,
            text,
            t + 1,
        )
    }
}

/// Does the pattern match the whole text?
pub open spec fn globs(pattern: Seq<char>, text: Seq<char>) -> bool {
    globs_from(pattern, 0, text, 0)
}

/// What follows a `*` at `q - 1` matches at `t` or further on.
pub open spec fn globs_beyond(pattern: Seq<char>, q: int, text: Seq<char>, t: int) -> bool {
    exists|n: int| t <= n <= text.len() && #[trigger] globs_from(pattern, q, text, n)
}

/// A `*` matches any run of characters, including none.
pub proof fn a_star_matches_any_run(pattern: Seq<char>, p: int, text: Seq<char>, t: int)
    requires
        0 <= p < pattern.len(),
        pattern[p] == '*',
        0 <= t <= text.len(),
    ensures
        globs_from(pattern, p, text, t) == globs_beyond(pattern, p + 1, text, t),
    decreases text.len() - t,
{
    let q = p + 1;
    if t < text.len() {
        a_star_matches_any_run(pattern, p, text, t + 1);
        if globs_beyond(pattern, q, text, t + 1) {
            let n = choose|n: int| t + 1 <= n <= text.len() && #[trigger] globs_from(
                pattern,
                q,
                text,
                n,
            );
            assert(globs_from(pattern, q, text, n));
        }
    }
    if globs_from(pattern, q, text, t) {
        assert(globs_beyond(pattern, q, text, t));
    }
    if globs_beyond(pattern, q, text, t) {
        let n = choose|n: int| t <= n <= text.len() && #[trigger] globs_from(pattern, q, text, n);
        if n > t {
            assert(globs_beyond(pattern, q, text, t + 1));
        }
    }
}

/// A stretch of the pattern without `*` takes up as many characters of the text
/// as it is long.
proof fn lemma_run(pattern: Seq<char>, p: int, q: int, text: Seq<char>, t: int)
    requires
        0 <= p <= q <= pattern.len(),
        forall|k: int| p <= k < q ==> pattern[k] != '*',
        globs_from(pattern, p, text, t),
    ensures
        t + (q - p) <= text.len(),
        globs_from(pattern, q, text, t + (q - p)),
    decreases q - p,
{
    if p < q {
        lemma_run(pattern, p + 1, q, text, t + 1);
    }
}

/// At the end of the text only a run of `*` still matches.
proof fn lemma_at_end(pattern: Seq<char>, p: int, text: Seq<char>)
    requires
        0 <= p <= pattern.len(),
    ensures
        globs_from(pattern, p, text, text.len() as int) == (forall|k: int|
            p <= k < pattern.len() ==> pattern[k] == '*'),
    decreases pattern.len() - p,
{
    if p < pattern.len() {
        lemma_at_end(pattern, p + 1, text);
        if forall|k: int| p <= k < pattern.len() ==> pattern[k] == '*' {
            assert(pattern[p] == '*');
            assert forall|k: int| p + 1 <= k < pattern.len() implies pattern[k] == '*' by {}
        }
        if globs_from(pattern, p, text, text.len() as int) {
            assert forall|k: int| p <= k < pattern.len() implies pattern[k] == '*' by {
                if k > p {
                    assert(p + 1 <= k);
                }
            }
        }
    }
}

/// A `*` at `star` can still be given more than `taken` characters of the text.
spec fn retries(pattern: Seq<char>, text: Seq<char>, star: Option<(usize, usize)>) -> bool {
    match star {
        Some((at, taken)) => globs_beyond(pattern, at + 1, text, taken + 1),
        None => false,
    }
}

spec fn on_track(
    pattern: Seq<char>,
    p: int,
    text: Seq<char>,
    t: int,
    star: Option<(usize, usize)>,
) -> bool {
    &&& 0 <= p <= pattern.len()
    &&& 0 <= t <= text.len()
    &&& match star {
        Some((at, taken)) => at < p && taken <= t && p - (at + 1) == t - taken && pattern[at as int]
            == '*' && forall|k: int| at < k < p ==> pattern[k] != '*',
        None => true,
    }
    &&& globs(pattern, text) == (globs_from(pattern, p, text, t) || retries(pattern, text, star))
}

/// Passing a `*` leaves nothing behind: what an earlier `*` could still do, this
/// one can do as well.
proof fn lemma_new_star(
    pattern: Seq<char>,
    p: int,
    text: Seq<char>,
    t: int,
    star: Option<(usize, usize)>,
    new_star: (usize, usize),
)
    requires
        on_track(pattern, p, text, t, star),
        p < pattern.len(),
        pattern[p] == '*',
        new_star.0 == p,
        new_star.1 == t,
    ensures
        on_track(pattern, p + 1, text, t, Some(new_star)),
{
    a_star_matches_any_run(pattern, p, text, t);
    let q = p + 1;
    if retries(pattern, text, star) {
        let (at, taken) = star->0;
        let q0 = at + 1;
        let n = choose|n: int| taken + 1 <= n <= text.len() && #[trigger] globs_from(
            pattern,
            q0,
            text,
            n,
        );
        lemma_run(pattern, q0, p, text, n);
        let m = n + (p - q0);
        a_star_matches_any_run(pattern, p, text, m);
        let k = choose|k: int| m <= k <= text.len() && #[trigger] globs_from(pattern, q, text, k);
        assert(t <= k);
        assert(globs_beyond(pattern, q, text, t));
    }
    if globs_beyond(pattern, q, text, t) {
        let k = choose|k: int| t <= k <= text.len() && #[trigger] globs_from(pattern, q, text, k);
        if k > t {
            assert(globs_beyond(pattern, q, text, t + 1));
        }
    }
    if globs_from(pattern, q, text, t) {
        assert(globs_beyond(pattern, q, text, t));
    }
    if globs_beyond(pattern, q, text, t + 1) {
        let k = choose|k: int| t + 1 <= k <= text.len() && #[trigger] globs_from(
            pattern,
            q,
            text,
            k,
        );
        assert(globs_beyond(pattern, q, text, t));
    }
}

/// Giving the last `*` one more character loses nothing, once the present
/// attempt has failed.
proof fn lemma_retry(
    pattern: Seq<char>,
    p: int,
    text: Seq<char>,
    t: int,
    at: usize,
    taken: usize,
    more: usize,
)
    requires
        on_track(pattern, p, text, t, Some((at, taken))),
        t < text.len(),
        !globs_from(pattern, p, text, t),
        more == taken + 1,
    ensures
        on_track(pattern, at + 1, text, more as int, Some((at, more))),
{
    let q = at + 1;
    if globs_beyond(pattern, q, text, taken + 1) {
        let n = choose|n: int| taken + 1 <= n <= text.len() && #[trigger] globs_from(
            pattern,
            q,
            text,
            n,
        );
        if n > more {
            assert(globs_beyond(pattern, q, text, more + 1));
        }
    }
    if globs_from(pattern, q, text, more as int) {
        assert(globs_beyond(pattern, q, text, taken + 1));
    }
    if globs_beyond(pattern, q, text, more + 1) {
        let n = choose|n: int| more + 1 <= n <= text.len() && #[trigger] globs_from(
            pattern,
            q,
            text,
            n,
        );
        assert(globs_beyond(pattern, q, text, taken + 1));
    }
}

impl Glob {
    /// The pattern as it was written.
    pub closed spec fn source(self) -> Seq<char> {
        self.pattern@
    }

    /// Is the lowered form that of the pattern?
    pub closed spec fn wf(self) -> bool {
        &&& self.lowered@ == text::unicode_lower(self.pattern@)
        &&& text::is_ascii_text(self.pattern@) ==> self.lowered@ == text::lower_text(self.pattern@)
    }

    /// Compiles a pattern.
    pub fn new(pattern: &str) -> (r: Self)
        ensures
            r.wf(),
            r.source() == pattern@,
    {
        let lowered = text::lowercase(pattern);
        Glob { pattern: pattern.to_owned(), lowered: text::chars_of(lowered.as_str()) }
    }

    /// The pattern as it was written.
    pub fn as_str(&self) -> (r: &str)
        ensures
            r@ == self.source(),
    {
        self.pattern.as_str()
    }

    /// Does `name` match this pattern?
    ///
    /// A two-pointer walk with a backtrack point at the most recent `*`. This
    /// runs in time proportional to the length of the input times that of the
    /// pattern rather than exponentially, and a header name is supplied by
    /// whoever sends it, so that difference matters.
    pub fn is_match(&self, name: &str) -> (r: bool)
        requires
            self.wf(),
        ensures
            r == globs(text::unicode_lower(self.source()), text::unicode_lower(name@)),
            text::is_ascii_text(self.source()) && text::is_ascii_text(name@) ==> r == globs(
                text::lower_text(self.source()),
                text::lower_text(name@),
            ),
    {
        let lowered = text::lowercase(name);
        let text = text::chars_of(lowered.as_str());
        let pattern = &self.lowered;
        let mut t: usize = 0;
        let mut p: usize = 0;
        // Where to resume if the current attempt fails: the `*` last passed,
        // and how much of the text it had consumed.
        let mut star: Option<(usize, usize)> = None;
        while t < text.len()
            invariant
                on_track(pattern@, p as int, text@, t as int, star),
                self.wf(),
                pattern@ == self.lowered@,
                text@ == text::unicode_lower(name@),
                text::is_ascii_text(name@) ==> text@ == text::lower_text(name@),
            decreases
                    text@.len() + 1 - (match star {
                        Some((at, taken)) => taken + 1,
                        None => 0,
                    }),
                    (pattern@.len() - p) + (text@.len() - t),
        {
            let fits = if p < pattern.len() {
                pattern[p] == '?' || pattern[p] == text[t]
            } else {
                false
            };
            if p < pattern.len() && pattern[p] == '*' {
                let ghost old_star = star;
                star = Some((p, t));
                proof {
                    lemma_new_star(pattern@, p as int, text@, t as int, old_star, (p, t));
                }
                p = p + 1;
            } else if fits {
                t = t + 1;
                p = p + 1;
            } else {
                match star {
                    Some((at, taken)) => {
                        proof {
                            lemma_retry(
                                pattern@,
                                p as int,
                                text@,
                                t as int,
                                at,
                                taken,
                                (taken + 1) as usize,
                            );
                        }
                        p = at + 1;
                        t = taken + 1;
                        star = Some((at, taken + 1));
                    },
                    None => {
                        return false;
                    },
                }
            }
        }
        proof {
            lemma_at_end(pattern@, p as int, text@);
            if retries(pattern@, text@, star) {
                let (at, taken) = star->0;
                let q = at + 1;
                let n = choose|n: int| taken + 1 <= n <= text@.len() && #[trigger] globs_from(
                    pattern@,
                    q,
                    text@,
                    n,
                );
                lemma_run(pattern@, q, p as int, text@, n);
            }
        }
        let mut k: usize = p;
        while k < pattern.len()
            invariant
                p <= k <= pattern@.len(),
                forall|j: int| p <= j < k ==> pattern@[j] == '*',
                globs(pattern@, text@) == (forall|j: int|
                    p <= j < pattern@.len() ==> pattern@[j] == '*'),
                self.wf(),
                pattern@ == self.lowered@,
                text@ == text::unicode_lower(name@),
                text::is_ascii_text(name@) ==> text@ == text::lower_text(name@),
            decreases pattern@.len() - k,
        {
            if pattern[k] != '*' {
                return false;
            }
            k = k + 1;
        }
        true
    }
}

/// A pattern without wildcards matches itself alone; `?` stands for any one character.
pub proof fn without_a_star_characters_match_one_by_one(pattern: Seq<char>, text: Seq<char>)
    requires
        forall|k: int| 0 <= k < pattern.len() ==> #[trigger] pattern[k] != '*',
    ensures
        globs(pattern, text) <==> pattern.len() == text.len() && forall|k: int|
            0 <= k < pattern.len() ==> #[trigger] pattern[k] == '?' || pattern[k] == text[k],
{
    lemma_one_by_one(pattern, 0, text);
    if globs(pattern, text) {
        assert forall|k: int| 0 <= k < pattern.len() implies #[trigger] pattern[k] == '?'
            || pattern[k] == text[k] by {}
    }
}

proof fn lemma_one_by_one(pattern: Seq<char>, p: int, text: Seq<char>)
    requires
        0 <= p <= pattern.len(),
        p <= text.len(),
        forall|k: int| 0 <= k < pattern.len() ==> #[trigger] pattern[k] != '*',
    ensures
        globs_from(pattern, p, text, p) <==> pattern.len() == text.len() && forall|k: int|
            p <= k < pattern.len() ==> #[trigger] pattern[k] == '?' || pattern[k] == text[k],
    decreases pattern.len() - p,
{
    if p < pattern.len() {
        assert(pattern[p] != '*');
        if p < text.len() {
            lemma_one_by_one(pattern, p + 1, text);
            if globs_from(pattern, p, text, p) {
                assert forall|k: int| p <= k < pattern.len() implies #[trigger] pattern[k] == '?'
                    || pattern[k] == text[k] by {}
            }
        }
    }
}

/// What two patterns match, one after the other, the two put together match.
pub proof fn patterns_match_one_after_the_other(
    first: Seq<char>,
    second: Seq<char>,
    a: Seq<char>,
    b: Seq<char>,
)
    requires
        globs(first, a),
        globs(second, b),
    ensures
        globs(first + second, a + b),
{
    lemma_first_part(first, second, a, b, 0, 0);
}

proof fn lemma_first_part(
    first: Seq<char>,
    second: Seq<char>,
    a: Seq<char>,
    b: Seq<char>,
    p: int,
    t: int,
)
    requires
        0 <= p <= first.len(),
        globs_from(first, p, a, t),
        globs(second, b),
    ensures
        globs_from(first + second, p, a + b, t),
    decreases first.len() - p, a.len() - t,
{
    let pattern = first + second;
    let text = a + b;
    if p == first.len() {
        lemma_second_part(first, second, a, b, 0, 0);
    } else {
        assert(pattern[p] == first[p]);
        if first[p] == '*' {
            if globs_from(first, p + 1, a, t) {
                lemma_first_part(first, second, a, b, p + 1, t);
            } else {
                lemma_first_part(first, second, a, b, p, t + 1);
            }
        } else {
            assert(text[t] == a[t]);
            lemma_first_part(first, second, a, b, p + 1, t + 1);
        }
    }
}

proof fn lemma_second_part(
    first: Seq<char>,
    second: Seq<char>,
    a: Seq<char>,
    b: Seq<char>,
    p: int,
    t: int,
)
    requires
        0 <= p <= second.len(),
        globs_from(second, p, b, t),
    ensures
        globs_from(first + second, first.len() + p, a + b, a.len() + t),
    decreases second.len() - p, b.len() - t,
{
    let pattern = first + second;
    let text = a + b;
    if p < second.len() {
        assert(pattern[first.len() + p] == second[p]);
        if second[p] == '*' {
            if globs_from(second, p + 1, b, t) {
                lemma_second_part(first, second, a, b, p + 1, t);
            } else {
                lemma_second_part(first, second, a, b, p, t + 1);
            }
        } else {
            assert(text[a.len() + t] == b[t]);
            lemma_second_part(first, second, a, b, p + 1, t + 1);
        }
    }
}

/// A lone `*` matches every text, and the pattern of nothing only the text of nothing.
pub proof fn a_lone_star_matches_everything(text: Seq<char>)
    ensures
        globs(seq!['*'], text),
        globs(Seq::empty(), text) <==> text.len() == 0,
{
    a_star_matches_any_run(seq!['*'], 0, text, 0);
    assert(globs_from(seq!['*'], 1, text, text.len() as int));
}

} // verus!
