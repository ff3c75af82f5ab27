//! Text as sequences of characters: the few operations on strings that the
//! rest of the library is stated and proved over.
use vstd::prelude::*;

verus! {

/// `String::push` appends one character.
pub assume_specification[ String::push ](s: &mut String, c: char)
    ensures
        final(s)@ == old(s)@.push(c),
;

/// The bytes that a text is stored as.
pub open spec fn utf8(s: Seq<char>) -> Seq<u8> {
    vstd::utf8::encode_utf8(s)
}

/// Are the two texts the same? They are where their bytes are.
pub(crate) fn same_text(a: &str, b: &str) -> (r: bool)
    ensures
        r == (a@ == b@),
{
    let left = a.as_bytes();
    let right = b.as_bytes();
    proof {
        vstd::utf8::encode_utf8_decode_utf8(a@);
        vstd::utf8::encode_utf8_decode_utf8(b@);
    }
    if left.len() != right.len() {
        return false;
    }
    let mut i: usize = 0;
    while i < left.len()
        invariant
            i <= left@.len(),
            left@.len() == right@.len(),
            left@ == utf8(a@),
            right@ == utf8(b@),
            forall|k: int| 0 <= k < i ==> left@[k] == right@[k],
        decreases left@.len() - i,
    {
        if left[i] != right[i] {
            return false;
        }
        i = i + 1;
    }
    assert(left@ == right@);
    true
}

/// The characters of a string, in order.
pub fn chars_of(s: &str) -> (r: Vec<char>)
    ensures
        r@ == s@,
{
    let mut out: Vec<char> = Vec::new();
    for c in it: s.chars()
        invariant
            out@ == it.seq().take(it.index() as int),
            it.seq() == s@,
    {
        out.push(c);
    }
    out
}

/// The string made of the given characters.
pub fn string_of(v: &[char]) -> (r: String)
    ensures
        r@ == v@,
{
    let mut out = String::new();
    let mut i: usize = 0;
    while i < v.len()
        invariant
            i <= v.len(),
            out@ == v@.take(i as int),
        decreases v.len() - i,
    {
        out.push(v[i]);
        i = i + 1;
    }
    out
}

/// A copy of the bytes.
pub fn owned_bytes(value: &[u8]) -> (r: Vec<u8>)
    ensures
        r@ == value@,
{
    let mut out: Vec<u8> = Vec::new();
    let mut i: usize = 0;
    while i < value.len()
        invariant
            i <= value@.len(),
            out@ == value@.take(i as int),
        decreases value@.len() - i,
    {
        out.push(value[i]);
        i = i + 1;
    }
    out
}

/// The bytes of a text.
pub fn bytes_of(s: &str) -> (r: Vec<u8>)
    ensures
        r@ == utf8(s@),
{
    owned_bytes(s.as_bytes())
}

/// The ASCII lower case of one character; other characters are kept.
pub open spec fn lower(c: char) -> char {
    if 'A' <= c <= 'Z' {
        ((c as u8) + 32) as char
    } else {
        c
    }
}

/// `s` with every ASCII letter in lower case.
pub open spec fn lower_text(s: Seq<char>) -> Seq<char> {
    s.map_values(|c: char| lower(c))
}

/// ASCII lower case of one character.
pub fn to_lower(c: char) -> (r: char)
    ensures
        r == lower(c),
{
    if 'A' <= c && c <= 'Z' {
        ((c as u8) + 32) as char
    } else {
        c
    }
}

/// ASCII lower case of a whole string.
pub fn to_lower_text(s: &str) -> (r: String)
    ensures
        r@ == lower_text(s@),
{
    let mut out = String::new();
    for c in it: s.chars()
        invariant
            out@ == lower_text(it.seq().take(it.index() as int)),
            it.seq() == s@,
    {
        out.push(to_lower(c));
    }
    assert(s@.take(s@.len() as int) == s@);
    out
}

/// A text of ASCII characters only.
pub open spec fn is_ascii_text(s: Seq<char>) -> bool {
    vstd::utf8::is_ascii_chars(s)
}

/// The lower case that `str::to_lowercase` gives a text.
pub uninterp spec fn unicode_lower(s: Seq<char>) -> Seq<char>;

/// `str::to_lowercase` is a function of the text alone; on ASCII text it lowers
/// the letters and keeps the rest.
#[verifier::external_body]
pub(crate) fn lowercase(s: &str) -> (r: String)
    ensures
        r@ == unicode_lower(s@),
        is_ascii_text(s@) ==> r@ == lower_text(s@),
{
    s.to_lowercase()
}

/// The views of a list of strings.
pub open spec fn texts(v: Seq<String>) -> Seq<Seq<char>> {
    v.map_values(|s: String| s@)
}

/// The pieces of `s` between occurrences of `sep`: always one more piece than
/// there are separators.
pub open spec fn split(s: Seq<char>, sep: char) -> Seq<Seq<char>>
    decreases s.len(),
{
    if s.len() == 0 {
        seq![Seq::empty()]
    } else {
        let front = split(s.drop_last(), sep);
        if s.last() == sep {
            front.push(Seq::empty())
        } else {
            front.drop_last().push(front.last().push(s.last()))
        }
    }
}

/// A split never comes out empty.
pub proof fn lemma_split_nonempty(s: Seq<char>, sep: char)
    ensures
        split(s, sep).len() >= 1,
    decreases s.len(),
{
    if s.len() > 0 {
        lemma_split_nonempty(s.drop_last(), sep);
    }
}

/// `parts` written one after another with `sep` between them.
pub open spec fn join(parts: Seq<Seq<char>>, sep: Seq<char>) -> Seq<char>
    decreases parts.len(),
{
    if parts.len() == 0 {
        Seq::empty()
    } else if parts.len() == 1 {
        parts[0]
    } else {
        join(parts.drop_last(), sep) + sep + parts.last()
    }
}

/// Splits a string at every `sep`.
pub fn split_text(s: &str, sep: char) -> (r: Vec<String>)
    ensures
        texts(r@) == split(s@, sep),
{
    let mut parts: Vec<String> = Vec::new();
    let mut current = String::new();
    assert(texts(parts@).push(current@) == split(s@.take(0), sep));
    for c in it: s.chars()
        invariant
            texts(parts@).push(current@) == split(it.seq().take(it.index() as int), sep),
            it.seq() == s@,
    {
        let ghost before = it.seq().take(it.index() as int);
        let ghost after = it.seq().take(it.index() + 1);
        proof {
            assert(after.drop_last() == before);
            assert(after.last() == c);
            lemma_split_nonempty(before, sep);
        }
        let ghost front = split(before, sep);
        assert(front.last() == current@);
        assert(front.drop_last() == texts(parts@));
        if c == sep {
            let ghost old_parts = parts@;
            let ghost piece = current@;
            parts.push(current);
            current = String::new();
            assert(texts(parts@) == texts(old_parts).push(piece));
        } else {
            current.push(c);
        }
    }
    assert(s@.take(s@.len() as int) == s@);
    let ghost old_parts = parts@;
    let ghost piece = current@;
    parts.push(current);
    assert(texts(parts@) == texts(old_parts).push(piece));
    parts
}

/// Joins strings with a separator between them.
pub fn join_text(parts: &[String], sep: &str) -> (r: String)
    ensures
        r@ == join(texts(parts@), sep@),
{
    let mut out = String::new();
    let mut i: usize = 0;
    while i < parts.len()
        invariant
            i <= parts.len(),
            out@ == join(texts(parts@).take(i as int), sep@),
        decreases parts.len() - i,
    {
        let ghost next = texts(parts@).take(i + 1);
        assert(next.drop_last() == texts(parts@).take(i as int));
        assert(next.last() == parts@[i as int]@);
        if i > 0 {
            out.append(sep);
        }
        out.append(parts[i].as_str());
        i = i + 1;
    }
    assert(texts(parts@).take(parts@.len() as int) == texts(parts@));
    out
}

/// Does `s` start with `prefix`?
pub open spec fn has_prefix(s: Seq<char>, prefix: Seq<char>) -> bool {
    prefix.len() <= s.len() && s.take(prefix.len() as int) == prefix
}

/// Are the characters of `part` found in `s` from position `at` on?
pub fn matches_at(s: &[char], at: usize, part: &[char]) -> (r: bool)
    ensures
        r == (at + part@.len() <= s@.len() && s@.subrange(at as int, at + part@.len()) == part@),
{
    if part.len() > s.len() || at > s.len() - part.len() {
        return false;
    }
    let mut i: usize = 0;
    while i < part.len()
        invariant
            i <= part.len(),
            at + part.len() <= s.len(),
            forall|k: int| 0 <= k < i ==> s@[at + k] == part@[k],
        decreases part.len() - i,
    {
        if s[at + i] != part[i] {
            assert(s@.subrange(at as int, at + part@.len())[i as int] == s@[at + i]);
            return false;
        }
        i = i + 1;
    }
    assert(s@.subrange(at as int, at + part@.len()) == part@);
    true
}

/// Does the string start with `prefix`?
pub fn starts_with(s: &str, prefix: &str) -> (r: bool)
    ensures
        r == has_prefix(s@, prefix@),
{
    let chars = chars_of(s);
    let want = chars_of(prefix);
    let r = matches_at(&chars, 0, &want);
    assert(prefix@.len() <= s@.len() ==> s@.subrange(0, 0 + prefix@.len() as int) == s@.take(
        prefix@.len() as int,
    ));
    r
}

/// `s` without the run of `c` at its end.
pub open spec fn trim_end(s: Seq<char>, c: char) -> Seq<char>
    decreases s.len(),
{
    if s.len() > 0 && s.last() == c {
        trim_end(s.drop_last(), c)
    } else {
        s
    }
}

/// Takes the run of `c` off the end of a string.
pub fn trim_end_matches(s: &str, c: char) -> (r: String)
    ensures
        r@ == trim_end(s@, c),
{
    let mut chars = chars_of(s);
    while chars.len() > 0 && chars[chars.len() - 1] == c
        invariant
            trim_end(chars@, c) == trim_end(s@, c),
        decreases chars.len(),
    {
        chars.pop();
    }
    string_of(&chars)
}

/// Concatenates two pieces of text.
pub fn concat2(a: &str, b: &str) -> (r: String)
    ensures
        r@ == a@ + b@,
{
    let mut out = a.to_owned();
    out.append(b);
    out
}

/// Concatenates three pieces of text.
pub fn concat3(a: &str, b: &str, c: &str) -> (r: String)
    ensures
        r@ == a@ + b@ + c@,
{
    let mut out = a.to_owned();
    out.append(b);
    out.append(c);
    out
}

/// A character with Unicode's `White_Space` property.
pub open spec fn is_space(c: char) -> bool {
    '\u{9}' <= c <= '\u{d}' || c == ' ' || c == '\u{85}' || c == '\u{a0}' || c == '\u{1680}'
        || '\u{2000}' <= c <= '\u{200a}' || c == '\u{2028}' || c == '\u{2029}' || c == '\u{202f}'
        || c == '\u{205f}' || c == '\u{3000}'
}

/// Does the character have Unicode's `White_Space` property?
pub fn is_white(c: char) -> (r: bool)
    ensures
        r == is_space(c),
{
    ('\u{9}' <= c && c <= '\u{d}') || c == ' ' || c == '\u{85}' || c == '\u{a0}' || c == '\u{1680}'
        || ('\u{2000}' <= c && c <= '\u{200a}') || c == '\u{2028}' || c == '\u{2029}' || c
        == '\u{202f}' || c == '\u{205f}' || c == '\u{3000}'
}

/// `s` without the white space at its end.
pub open spec fn trimmed_end(s: Seq<char>) -> Seq<char>
    decreases s.len(),
{
    if s.len() > 0 && is_space(s.last()) {
        trimmed_end(s.drop_last())
    } else {
        s
    }
}

/// `s` without the white space at its start.
pub open spec fn trimmed_start(s: Seq<char>) -> Seq<char>
    decreases s.len(),
{
    if s.len() > 0 && is_space(s[0]) {
        trimmed_start(s.drop_first())
    } else {
        s
    }
}

/// `s` without the white space around it.
pub open spec fn trimmed(s: Seq<char>) -> Seq<char> {
    trimmed_end(trimmed_start(s))
}

/// Takes the white space off both ends of a string.
pub fn trim(s: &str) -> (r: String)
    ensures
        r@ == trimmed(s@),
{
    let chars = chars_of(s);
    let mut from: usize = 0;
    assert(chars@.skip(0) == s@);
    while from < chars.len() && is_white(chars[from])
        invariant
            from <= chars.len(),
            trimmed_start(chars@.skip(from as int)) == trimmed_start(s@),
        decreases chars.len() - from,
    {
        assert(chars@.skip(from as int).drop_first() == chars@.skip(from + 1));
        from = from + 1;
    }
    let ghost rest = chars@.skip(from as int);
    assert(rest == trimmed_start(s@));
    let mut to: usize = chars.len();
    assert(chars@.subrange(from as int, to as int) == rest);
    while to > from && is_white(chars[to - 1])
        invariant
            from <= to <= chars.len(),
            trimmed_end(chars@.subrange(from as int, to as int)) == trimmed_end(rest),
        decreases to - from,
    {
        let ghost part = chars@.subrange(from as int, to as int);
        assert(part.last() == chars@[to - 1]);
        assert(part.drop_last() == chars@.subrange(from as int, to - 1));
        to = to - 1;
    }
    let ghost part = chars@.subrange(from as int, to as int);
    assert(part.len() > 0 ==> part.last() == chars@[to - 1]);
    substring(&chars, from, to)
}

/// The characters from `from` up to `to`, as a string.
pub fn substring(chars: &[char], from: usize, to: usize) -> (r: String)
    requires
        from <= to <= chars@.len(),
    ensures
        r@ == chars@.subrange(from as int, to as int),
{
    let mut out = String::new();
    let mut i: usize = from;
    while i < to
        invariant
            from <= i <= to <= chars@.len(),
            out@ == chars@.subrange(from as int, i as int),
        decreases to - i,
    {
        out.push(chars[i]);
        i = i + 1;
    }
    out
}

/// Is the character found in the text?
pub fn has_char(s: &str, c: char) -> (r: bool)
    ensures
        r == s@.contains(c),
{
    let chars = chars_of(s);
    let mut i: usize = 0;
    while i < chars.len()
        invariant
            i <= chars.len(),
            chars@ == s@,
            forall|k: int| 0 <= k < i ==> chars@[k] != c,
        decreases chars.len() - i,
    {
        if chars[i] == c {
            assert(s@[i as int] == c);
            return true;
        }
        i = i + 1;
    }
    false
}

/// A decimal digit.
pub open spec fn is_digit(c: char) -> bool {
    '0' <= c <= '9'
}

/// A nonempty run of decimal digits.
pub open spec fn is_digits(s: Seq<char>) -> bool {
    s.len() > 0 && forall|i: int| 0 <= i < s.len() ==> is_digit(#[trigger] s[i])
}

/// The number that a run of decimal digits stands for.
pub open spec fn digits_value(s: Seq<char>) -> nat
    decreases s.len(),
{
    if s.len() == 0 {
        0
    } else {
        digits_value(s.drop_last()) * 10 + (s.last() as u32 - '0' as u32) as nat
    }
}

/// Reads a run of decimal digits no larger than `max`.
pub fn parse_digits(s: &[char], max: u64) -> (r: Option<u64>)
    ensures
        match r {
            Some(n) => is_digits(s@) && n == digits_value(s@) && n <= max,
            None => !is_digits(s@) || digits_value(s@) > max,
        },
{
    if s.len() == 0 {
        return None;
    }
    let mut n: u64 = 0;
    let mut big = false;
    let mut i: usize = 0;
    while i < s.len()
        invariant
            i <= s.len(),
            forall|k: int| 0 <= k < i ==> is_digit(#[trigger] s@[k]),
            big ==> digits_value(s@.take(i as int)) > max,
            !big ==> n == digits_value(s@.take(i as int)) && n <= max,
        decreases s.len() - i,
    {
        let c = s[i];
        if !('0' <= c && c <= '9') {
            assert(!is_digit(s@[i as int]));
            return None;
        }
        let ghost next = s@.take(i + 1);
        assert(next.drop_last() == s@.take(i as int));
        assert(next.last() == c);
        let d: u64 = (c as u32 - '0' as u32) as u64;
        if !big {
            match n.checked_mul(10) {
                Some(m) => match m.checked_add(d) {
                    Some(v) => {
                        if v <= max {
                            n = v;
                        } else {
                            big = true;
                        }
                    },
                    None => {
                        big = true;
                    },
                },
                None => {
                    big = true;
                },
            }
        }
        i = i + 1;
    }
    assert(s@.take(s@.len() as int) == s@);
    if big {
        None
    } else {
        Some(n)
    }
}

/// The digit that stands for a number below ten.
pub open spec fn digit_char(d: nat) -> char {
    ('0' as u32 + d) as char
}

/// A number written in decimal.
pub open spec fn decimal(n: nat) -> Seq<char>
    decreases n,
{
    if n < 10 {
        seq![digit_char(n)]
    } else {
        decimal(n / 10).push(digit_char(n % 10))
    }
}

/// Writes a number in decimal.
pub fn decimal_text(n: u128) -> (r: String)
    ensures
        r@ == decimal(n as nat),
    decreases n,
{
    let d: u8 = (n % 10) as u8;
    let c = (48u8 + d) as char;
    assert(c == digit_char(n as nat % 10));
    if n < 10 {
        let mut out = String::new();
        out.push(c);
        assert(out@ == seq![digit_char(n as nat)]);
        out
    } else {
        let mut out = decimal_text(n / 10);
        out.push(c);
        out
    }
}

/// A number written in decimal, with a sign if it is negative.
pub open spec fn signed(n: int) -> Seq<char> {
    if n < 0 {
        seq!['-'] + decimal((-n) as nat)
    } else {
        decimal(n as nat)
    }
}

/// Writes a number in decimal, with a sign if it is negative.
pub fn signed_text(n: i64) -> (r: String)
    ensures
        r@ == signed(n as int),
{
    if n < 0 {
        let mut out = String::new();
        out.push('-');
        let m: i128 = -(n as i128);
        let digits = decimal_text(m as u128);
        out.append(digits.as_str());
        assert(out@ == seq!['-'] + decimal((-n) as nat));
        out
    } else {
        decimal_text(n as u128)
    }
}

/// Does `a` come before `b` in the order of their characters?
pub open spec fn before(a: Seq<char>, b: Seq<char>) -> bool
    decreases a.len(),
{
    if b.len() == 0 {
        false
    } else if a.len() == 0 {
        true
    } else if a[0] != b[0] {
        a[0] < b[0]
    } else {
        before(a.drop_first(), b.drop_first())
    }
}

/// Compares two texts by their characters.
pub fn is_before(a: &str, b: &str) -> (r: bool)
    ensures
        r == before(a@, b@),
{
    let left = chars_of(a);
    let right = chars_of(b);
    let mut i: usize = 0;
    assert(left@.skip(0) == a@);
    assert(right@.skip(0) == b@);
    while i < left.len() && i < right.len()
        invariant
            i <= left.len(),
            i <= right.len(),
            before(left@.skip(i as int), right@.skip(i as int)) == before(a@, b@),
        decreases left.len() - i,
    {
        if left[i] != right[i] {
            return left[i] < right[i];
        }
        assert(left@.skip(i as int).drop_first() == left@.skip(i + 1));
        assert(right@.skip(i as int).drop_first() == right@.skip(i + 1));
        i = i + 1;
    }
    i < right.len()
}

/// Nothing comes before itself, and of two different texts one comes first.
pub proof fn before_is_strict(a: Seq<char>, b: Seq<char>)
    ensures
        !(before(a, b) && before(b, a)),
        !before(a, b) && !before(b, a) <==> a == b,
    decreases a.len(),
{
    if a.len() > 0 && b.len() > 0 && a[0] == b[0] {
        before_is_strict(a.drop_first(), b.drop_first());
        if a.drop_first() == b.drop_first() {
            assert(a == seq![a[0]] + a.drop_first());
            assert(b == seq![b[0]] + b.drop_first());
        }
    } else if a.len() == 0 && b.len() == 0 {
        assert(a == b);
    }
}

/// The order of texts is transitive.
pub proof fn before_is_transitive(a: Seq<char>, b: Seq<char>, c: Seq<char>)
    requires
        before(a, b),
        before(b, c),
    ensures
        before(a, c),
    decreases a.len(),
{
    if a.len() > 0 && b.len() > 0 && c.len() > 0 && a[0] == b[0] && b[0] == c[0] {
        before_is_transitive(a.drop_first(), b.drop_first(), c.drop_first());
    }
}

/// Texts in strictly increasing order.
pub open spec fn increasing(s: Seq<Seq<char>>) -> bool {
    forall|i: int, j: int| 0 <= i < j < s.len() ==> before(#[trigger] s[i], #[trigger] s[j])
}

/// `t` put in its place among texts in increasing order, unless it is there.
pub open spec fn placed(s: Seq<Seq<char>>, t: Seq<char>) -> Seq<Seq<char>>
    decreases s.len(),
{
    if s.len() == 0 {
        seq![t]
    } else if before(s.last(), t) {
        s.push(t)
    } else if s.last() == t {
        s
    } else {
        placed(s.drop_last(), t).push(s.last())
    }
}

/// The distinct texts of `s`, in increasing order.
pub open spec fn ordered(s: Seq<Seq<char>>) -> Seq<Seq<char>>
    decreases s.len(),
{
    if s.len() == 0 {
        Seq::empty()
    } else {
        placed(ordered(s.drop_last()), s.last())
    }
}

proof fn lemma_placed(s: Seq<Seq<char>>, t: Seq<char>)
    requires
        increasing(s),
    ensures
        increasing(placed(s, t)),
        forall|x: Seq<char>|
            #![trigger placed(s, t).contains(x)]
            #![trigger s.contains(x)]
            placed(s, t).contains(x) <==> s.contains(x) || x == t,
    decreases s.len(),
{
    let r = placed(s, t);
    if s.len() == 0 {
        assert(r[0] == t);
    } else if before(s.last(), t) {
        assert forall|i: int, j: int| 0 <= i < j < r.len() implies before(
            #[trigger] r[i],
            #[trigger] r[j],
        ) by {
            if j == s.len() && i < s.len() - 1 {
                assert(before(s[i], s[s.len() - 1]));
                before_is_transitive(s[i], s.last(), t);
            }
        }
        assert forall|x: Seq<char>| r.contains(x) <==> s.contains(x) || x == t by {
            if s.contains(x) {
                let k = choose|k: int| 0 <= k < s.len() && s[k] == x;
                assert(r[k] == x);
            }
            assert(r[s.len() as int] == t);
        }
    } else if s.last() == t {
        assert(s[s.len() - 1] == t);
    } else {
        let front = s.drop_last();
        assert forall|i: int, j: int| 0 <= i < j < front.len() implies before(
            #[trigger] front[i],
            #[trigger] front[j],
        ) by {
            assert(front[i] == s[i] && front[j] == s[j]);
        }
        lemma_placed(front, t);
        before_is_strict(s.last(), t);
        let p = placed(front, t);
        assert forall|i: int, j: int| 0 <= i < j < r.len() implies before(
            #[trigger] r[i],
            #[trigger] r[j],
        ) by {
            if j == p.len() {
                assert(p.contains(p[i]));
                assert(r[i] == p[i]);
                if front.contains(r[i]) {
                    let k = choose|k: int| 0 <= k < front.len() && front[k] == r[i];
                    assert(before(s[k], s[s.len() - 1]));
                }
            } else {
                assert(r[i] == p[i] && r[j] == p[j]);
            }
        }
        assert forall|x: Seq<char>| r.contains(x) <==> s.contains(x) || x == t by {
            if s.contains(x) {
                let k = choose|k: int| 0 <= k < s.len() && s[k] == x;
                if k < front.len() {
                    assert(front[k] == x);
                    assert(p.contains(x));
                    let m = choose|m: int| 0 <= m < p.len() && p[m] == x;
                    assert(r[m] == x);
                } else {
                    assert(r[p.len() as int] == x);
                }
            }
            if x == t {
                assert(p.contains(t));
                let m = choose|m: int| 0 <= m < p.len() && p[m] == t;
                assert(r[m] == t);
            }
            if r.contains(x) {
                let m = choose|m: int| 0 <= m < r.len() && r[m] == x;
                if m < p.len() {
                    assert(p[m] == x);
                    assert(p.contains(x));
                    if front.contains(x) {
                        let k = choose|k: int| 0 <= k < front.len() && front[k] == x;
                        assert(s[k] == x);
                    }
                } else {
                    assert(s[s.len() - 1] == x);
                }
            }
        }
    }
}

/// Ordering texts keeps each of them once, and nothing else.
pub proof fn ordered_is_the_set(s: Seq<Seq<char>>)
    ensures
        increasing(ordered(s)),
        forall|x: Seq<char>| ordered(s).contains(x) <==> s.contains(x),
    decreases s.len(),
{
    if s.len() > 0 {
        let front = s.drop_last();
        ordered_is_the_set(front);
        lemma_placed(ordered(front), s.last());
        assert forall|x: Seq<char>| ordered(s).contains(x) <==> s.contains(x) by {
            if s.contains(x) {
                let k = choose|k: int| 0 <= k < s.len() && s[k] == x;
                if k < front.len() {
                    assert(front[k] == x);
                }
            }
            if front.contains(x) {
                let k = choose|k: int| 0 <= k < front.len() && front[k] == x;
                assert(s[k] == x);
            }
            assert(s[s.len() - 1] == s.last());
        }
    }
}

/// Two increasing lists of the same texts are the same list.
pub proof fn increasing_is_unique(a: Seq<Seq<char>>, b: Seq<Seq<char>>)
    requires
        increasing(a),
        increasing(b),
        forall|x: Seq<char>| a.contains(x) <==> b.contains(x),
    ensures
        a == b,
    decreases a.len(),
{
    if a.len() == 0 {
        if b.len() > 0 {
            assert(b.contains(b[0]));
        }
        assert(a == b);
    } else {
        assert(a.contains(a[a.len() - 1]));
        let n = choose|n: int| 0 <= n < b.len() && b[n] == a.last();
        assert(b.contains(b[b.len() - 1]));
        let m = choose|m: int| 0 <= m < a.len() && a[m] == b.last();
        if n < b.len() - 1 {
            assert(before(b[n], b[b.len() - 1]));
            if m < a.len() - 1 {
                assert(before(a[m], a[a.len() - 1]));
            }
            before_is_strict(a.last(), b.last());
        }
        assert(a.last() == b.last());
        let a1 = a.drop_last();
        let b1 = b.drop_last();
        assert forall|i: int, j: int| 0 <= i < j < a1.len() implies before(
            #[trigger] a1[i],
            #[trigger] a1[j],
        ) by {
            assert(a1[i] == a[i] && a1[j] == a[j]);
        }
        assert forall|i: int, j: int| 0 <= i < j < b1.len() implies before(
            #[trigger] b1[i],
            #[trigger] b1[j],
        ) by {
            assert(b1[i] == b[i] && b1[j] == b[j]);
        }
        assert forall|x: Seq<char>| a1.contains(x) <==> b1.contains(x) by {
            if a1.contains(x) {
                let k = choose|k: int| 0 <= k < a1.len() && a1[k] == x;
                assert(a[k] == x);
                assert(a.contains(x));
                assert(before(a[k], a[a.len() - 1]));
                before_is_strict(x, a.last());
                let l = choose|l: int| 0 <= l < b.len() && b[l] == x;
                assert(b1[l] == x);
            }
            if b1.contains(x) {
                let k = choose|k: int| 0 <= k < b1.len() && b1[k] == x;
                assert(b[k] == x);
                assert(b.contains(x));
                assert(before(b[k], b[b.len() - 1]));
                before_is_strict(x, b.last());
                let l = choose|l: int| 0 <= l < a.len() && a[l] == x;
                assert(a1[l] == x);
            }
        }
        increasing_is_unique(a1, b1);
        assert(a == a1.push(a.last()));
        assert(b == b1.push(b.last()));
    }
}

/// The distinct texts of a list, in increasing order.
pub fn sort_distinct(v: &[String]) -> (r: Vec<String>)
    ensures
        texts(r@) == ordered(texts(v@)),
{
    let mut out: Vec<String> = Vec::new();
    let mut i: usize = 0;
    assert(texts(out@) == Seq::<Seq<char>>::empty());
    while i < v.len()
        invariant
            i <= v.len(),
            texts(out@) == ordered(texts(v@).take(i as int)),
        decreases v.len() - i,
    {
        let ghost next = texts(v@).take(i + 1);
        assert(next.drop_last() == texts(v@).take(i as int));
        assert(next.last() == v@[i as int]@);
        place(&mut out, v[i].as_str());
        i = i + 1;
    }
    assert(texts(v@).take(v@.len() as int) == texts(v@));
    out
}

fn place(out: &mut Vec<String>, t: &str)
    ensures
        texts(final(out)@) == placed(texts(old(out)@), t@),
{
    let ghost start = texts(out@);
    let mut at: usize = out.len();
    assert(start.take(at as int) == start);
    assert(start.skip(at as int) == Seq::<Seq<char>>::empty());
    assert(placed(start, t@) == placed(start.take(at as int), t@) + start.skip(at as int));
    while at > 0
        invariant
            at <= out.len(),
            texts(out@) == start,
            start == texts(old(out)@),
            placed(start, t@) == placed(start.take(at as int), t@) + start.skip(at as int),
        ensures
            at <= out.len(),
            texts(out@) == start,
            placed(start, t@) == start.take(at as int).push(t@) + start.skip(at as int),
        decreases at,
    {
        let last = out[at - 1].as_str();
        let ghost part = start.take(at as int);
        assert(part.last() == last@);
        if is_before(last, t) {
            break;
        }
        if same_text(last, t) {
            assert(part + start.skip(at as int) == start);
            return;
        }
        assert(part.drop_last() == start.take(at - 1));
        assert(placed(start.take(at - 1), t@).push(last@) + start.skip(at as int) == placed(
            start.take(at - 1),
            t@,
        ) + start.skip(at - 1));
        at = at - 1;
        if at == 0 {
            assert(start.take(0) == Seq::<Seq<char>>::empty());
            assert(Seq::<Seq<char>>::empty().push(t@) == seq![t@]);
        }
    }
    out.insert(at, t.to_owned());
    assert(texts(out@) == start.take(at as int).push(t@) + start.skip(at as int));
}

/// A split takes a text apart at its separators and nowhere else: the pieces hold none,
/// and put together with one between each two they are the text.
pub proof fn a_split_can_be_undone(s: Seq<char>, sep: char)
    ensures
        join(split(s, sep), seq![sep]) == s,
        forall|i: int|
            0 <= i < split(s, sep).len() ==> !(#[trigger] split(s, sep)[i]).contains(sep),
        split(s, sep).len() == s.filter(|c: char| c == sep).len() + 1,
    decreases s.len(),
{
    reveal(Seq::filter);
    if s.len() > 0 {
        let front = s.drop_last();
        let pieces = split(front, sep);
        let whole = split(s, sep);
        a_split_can_be_undone(front, sep);
        lemma_split_nonempty(front, sep);
        if s.last() == sep {
            assert(whole.drop_last() == pieces);
            assert(join(whole, seq![sep]) == join(pieces, seq![sep]) + seq![sep] + Seq::empty());
            assert(join(whole, seq![sep]) == s);
            assert forall|i: int| 0 <= i < whole.len() implies !(#[trigger] whole[i]).contains(
                sep,
            ) by {
                if i < pieces.len() {
                    assert(whole[i] == pieces[i]);
                }
            }
        } else {
            let last = pieces.last();
            assert(!pieces[pieces.len() - 1].contains(sep));
            assert forall|i: int| 0 <= i < whole.len() implies !(#[trigger] whole[i]).contains(
                sep,
            ) by {
                if i < pieces.len() - 1 {
                    assert(whole[i] == pieces[i]);
                } else {
                    assert(whole[i] == last.push(s.last()));
                    if last.push(s.last()).contains(sep) {
                        let k = last.push(s.last()).index_of(sep);
                        assert(k < last.len());
                        assert(last[k] == sep);
                    }
                }
            }
            assert(whole.drop_last() == pieces.drop_last());
            if pieces.len() == 1 {
                assert(join(pieces, seq![sep]) == last);
            } else {
                let head = join(pieces.drop_last(), seq![sep]);
                assert(join(whole, seq![sep]) == head + seq![sep] + last.push(s.last()));
                assert(join(pieces, seq![sep]) == head + seq![sep] + last);
            }
            assert(join(whole, seq![sep]) == front.push(s.last()));
            assert(front.push(s.last()) == s);
        }
    } else {
        assert(split(s, sep) == seq![Seq::<char>::empty()]);
        assert(s == Seq::<char>::empty());
    }
}

/// Two texts with a separator between them are taken apart one by one.
pub proof fn a_split_goes_on_behind_a_separator(a: Seq<char>, b: Seq<char>, sep: char)
    ensures
        split(a + seq![sep] + b, sep) == split(a, sep) + split(b, sep),
        !a.contains(sep) ==> split(a, sep) == seq![a],
    decreases b.len(), a.len(),
{
    let s = a + seq![sep] + b;
    if b.len() == 0 {
        assert(s.drop_last() == a);
        assert(split(b, sep) == seq![Seq::<char>::empty()]);
        if a.len() > 0 {
            let front = a.drop_last();
            a_split_goes_on_behind_a_separator(front, b, sep);
            if !a.contains(sep) {
                assert(!front.contains(sep)) by {
                    if front.contains(sep) {
                        let k = front.index_of(sep);
                        assert(a[k] == sep);
                    }
                }
                assert(a[a.len() - 1] != sep);
                assert(front.push(a.last()) == a);
            }
        } else {
            assert(a == Seq::<char>::empty());
        }
    } else {
        assert(s.drop_last() == a + seq![sep] + b.drop_last());
        a_split_goes_on_behind_a_separator(a, b.drop_last(), sep);
        lemma_split_nonempty(b.drop_last(), sep);
        let front = split(b.drop_last(), sep);
        let whole = split(a, sep) + front;
        assert(whole.drop_last() == split(a, sep) + front.drop_last());
        assert(whole.last() == front.last());
    }
}

/// Trimming takes white space off both ends and nothing else: what is left neither begins
/// nor ends with any, and stands in the text between white space.
pub proof fn trimming_takes_off_the_white_space_around(s: Seq<char>) -> (at: (int, int))
    ensures
        0 <= at.0 <= at.1 <= s.len(),
        trimmed(s) == s.subrange(at.0, at.1),
        forall|i: int| 0 <= i < at.0 ==> is_space(#[trigger] s[i]),
        forall|i: int| at.1 <= i < s.len() ==> is_space(#[trigger] s[i]),
        trimmed(s).len() > 0 ==> !is_space(trimmed(s)[0]) && !is_space(trimmed(s).last()),
{
    let from = lemma_trimmed_start(s);
    let start = trimmed_start(s);
    let to = lemma_trimmed_end(start);
    assert(trimmed(s) == s.subrange(from, from + to));
    assert forall|i: int| from + to <= i < s.len() implies is_space(#[trigger] s[i]) by {
        assert(start[i - from] == s[i]);
    }
    (from, from + to)
}

proof fn lemma_trimmed_start(s: Seq<char>) -> (from: int)
    ensures
        0 <= from <= s.len(),
        trimmed_start(s) == s.skip(from),
        forall|i: int| 0 <= i < from ==> is_space(#[trigger] s[i]),
        from < s.len() ==> !is_space(s[from]),
    decreases s.len(),
{
    if s.len() > 0 && is_space(s[0]) {
        let from = lemma_trimmed_start(s.drop_first());
        assert(s.drop_first().skip(from) == s.skip(from + 1));
        assert forall|i: int| 0 <= i < from + 1 implies is_space(#[trigger] s[i]) by {
            if i > 0 {
                assert(s.drop_first()[i - 1] == s[i]);
            }
        }
        from + 1
    } else {
        assert(s.skip(0) == s);
        0
    }
}

proof fn lemma_trimmed_end(s: Seq<char>) -> (to: int)
    ensures
        0 <= to <= s.len(),
        trimmed_end(s) == s.take(to),
        forall|i: int| to <= i < s.len() ==> is_space(#[trigger] s[i]),
        to > 0 ==> !is_space(s[to - 1]),
    decreases s.len(),
{
    if s.len() > 0 && is_space(s.last()) {
        let to = lemma_trimmed_end(s.drop_last());
        assert(s.drop_last().take(to) == s.take(to));
        assert forall|i: int| to <= i < s.len() implies is_space(#[trigger] s[i]) by {
            if i < s.len() - 1 {
                assert(s.drop_last()[i] == s[i]);
            }
        }
        to
    } else {
        assert(s.take(s.len() as int) == s);
        s.len() as int
    }
}

/// Taking a character off the end takes off all of its run there, and nothing else.
pub proof fn a_run_is_taken_off_the_end(s: Seq<char>, c: char, n: nat)
    ensures
        s.len() == 0 || s.last() != c ==> trim_end(s, c) == s,
        trim_end(s + Seq::new(n, |i: int| c), c) == trim_end(s, c),
    decreases n,
{
    let run = Seq::new(n, |i: int| c);
    if n > 0 {
        let shorter = Seq::new((n - 1) as nat, |i: int| c);
        assert((s + run).drop_last() == s + shorter);
        a_run_is_taken_off_the_end(s, c, (n - 1) as nat);
    } else {
        assert(s + run == s);
    }
}

/// A number that is written out is read back as the same number, and is written in digits.
pub proof fn a_number_reads_back(n: nat)
    ensures
        is_digits(decimal(n)),
        digits_value(decimal(n)) == n,
    decreases n,
{
    let last = digit_char(n % 10);
    assert(is_digit(last));
    assert((last as u32 - '0' as u32) as nat == n % 10);
    if n >= 10 {
        a_number_reads_back(n / 10);
        let front = decimal(n / 10);
        assert(decimal(n).drop_last() == front);
        assert forall|i: int| 0 <= i < decimal(n).len() implies is_digit(
            #[trigger] decimal(n)[i],
        ) by {
            if i < front.len() {
                assert(decimal(n)[i] == front[i]);
            }
        }
    } else {
        assert(decimal(n).drop_last() == Seq::<char>::empty());
        assert(digits_value(decimal(n).drop_last()) == 0);
    }
}

/// Lower case changes the letters from `A` to `Z`, each into its own, and keeps every other
/// character. The case of the letters makes no difference to it.
pub proof fn lower_case_is_letter_by_letter(s: Seq<char>, i: int)
    requires
        0 <= i < s.len(),
    ensures
        lower_text(s).len() == s.len(),
        'A' <= s[i] <= 'Z' ==> lower_text(s)[i] as u32 == s[i] as u32 + 32,
        !('A' <= s[i] <= 'Z') ==> lower_text(s)[i] == s[i],
        lower_text(lower_text(s)) == lower_text(s),
{
    lemma_lower_letter(s[i]);
    assert forall|k: int| 0 <= k < s.len() implies #[trigger] lower_text(lower_text(s))[k]
        == lower_text(s)[k] by {
        lemma_lower_letter(s[k]);
    }
}

proof fn lemma_lower_letter(c: char)
    ensures
        'A' <= c <= 'Z' ==> lower(c) as u32 == c as u32 + 32,
        !('A' <= c <= 'Z') ==> lower(c) == c,
        lower(lower(c)) == lower(c),
{
}

/// A list of texts is the texts of its members, in their places.
pub proof fn every_text_is_there(v: Seq<String>, i: int)
    requires
        0 <= i < v.len(),
    ensures
        texts(v).len() == v.len(),
        texts(v)[i] == v[i]@,
{
}

/// Texts written one after another begin with the first, and go on with a separator and
/// the rest.
pub proof fn joining_goes_on_with_the_rest(one: Seq<Seq<char>>, other: Seq<Seq<char>>, sep: Seq<char>)
    requires
        one.len() > 0,
        other.len() > 0,
    ensures
        join(one + other, sep) == join(one, sep) + sep + join(other, sep),
        one.len() == 1 ==> join(one, sep) == one[0],
    decreases other.len(),
{
    assert((one + other).drop_last() == one + other.drop_last());
    assert((one + other).last() == other.last());
    if other.len() > 1 {
        joining_goes_on_with_the_rest(one, other.drop_last(), sep);
        let a = join(one, sep);
        let b = join(other.drop_last(), sep);
        assert((a + sep + b) + sep + other.last() == a + sep + (b + sep + other.last()));
    } else {
        assert(other.drop_last() == Seq::<Seq<char>>::empty());
        assert(one + other.drop_last() == one);
    }
}

} // verus!
