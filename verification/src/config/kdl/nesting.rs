//! What can be told of a KDL text before it is read: where in it there is code, and how
//! deep it nests.
//!
//! Blocks, block comments and nodes that are commented out are read by recursion, so
//! that a text can ask for more of the stack than there is. The text is gone through
//! character by character to see that it does not. What is in block comments can be
//! blanked out: it says nothing, and blank it takes no recursion to read.
use crate::text;
use vstd::prelude::*;

verus! {

/// How many blocks may be open at once.
pub const MAX_BLOCKS: usize = 96;

/// How many `/-` may be in effect at once.
pub const MAX_DASHES: usize = 8;

/// How many `*` and `/` may stand in one block comment. One that is blanked out has the
/// two that end it.
pub const MAX_MARKS: usize = 16;

/// What a place in a text is part of.
#[derive(Debug, Clone, Copy, PartialEq, Eq, Structural)]
pub enum Place {
    /// Names, numbers and punctuation.
    Code,
    /// The same, behind a `/` that may begin a comment.
    Slash,
    /// A string.
    Text,
    /// A string, behind a `\`.
    Escape,
    /// A name that begins with `r` and so many `#`, or a raw string.
    Hash(usize),
    /// A raw string with so many `#`.
    Raw(usize),
    /// A raw string with so many `#`, behind a `"` and some of them.
    Close(usize, usize),
    /// A comment that ends with the line.
    Line,
    /// So many block comments, one in the other.
    Block(usize),
    /// The same, behind a `*`.
    Star(usize),
    /// The same, behind a `/`.
    Open(usize),
}

/// A place in a text.
#[derive(Debug, Clone, Copy, PartialEq, Eq, Structural)]
pub struct Spot {
    pub place: Place,
    /// Could a name or a value begin here?
    pub fresh: bool,
}

/// White space, a line end, or the mark that continues a line.
pub open spec fn is_blank(c: char) -> bool {
    text::is_space(c) || c == '\u{feff}' || c == '\\'
}

/// A character that can be part of a name.
pub open spec fn is_name_char(c: char) -> bool {
    c >= ' ' && !is_blank(c) && c != '/' && c != '(' && c != ')' && c != '{' && c != '}' && c != '<'
        && c != '>' && c != ';' && c != '[' && c != ']' && c != '=' && c != ',' && c != '"'
}

/// A character that ends a line.
pub open spec fn ends_line(c: char) -> bool {
    c == '\r' || c == '\n' || c == '\u{85}' || c == '\u{c}' || c == '\u{2028}' || c == '\u{2029}'
}

/// Where what comes next can begin.
pub open spec fn anew() -> Spot {
    Spot { place: Place::Code, fresh: true }
}

/// The place behind a character of code.
pub open spec fn in_code(fresh: bool, c: char) -> Spot {
    if c == '/' {
        Spot { place: Place::Slash, fresh }
    } else if c == '"' {
        Spot { place: Place::Text, fresh }
    } else if c == 'r' && fresh {
        Spot { place: Place::Hash(0), fresh }
    } else {
        Spot { place: Place::Code, fresh: !is_name_char(c) }
    }
}

impl Spot {
    /// The place behind a character.
    pub open spec fn after(self, c: char) -> Spot {
        match self.place {
            Place::Code => in_code(self.fresh, c),
            Place::Slash => if c == '/' {
                Spot { place: Place::Line, ..self }
            } else if c == '*' {
                Spot { place: Place::Block(1), ..self }
            } else if c == '-' {
                anew()
            } else {
                in_code(true, c)
            },
            Place::Text => if c == '\\' {
                Spot { place: Place::Escape, ..self }
            } else if c == '"' {
                anew()
            } else {
                self
            },
            Place::Escape => Spot { place: Place::Text, ..self },
            Place::Hash(n) => if c == '#' {
                Spot { place: Place::Hash((n + 1) as usize), ..self }
            } else if c == '"' {
                Spot { place: Place::Raw(n), ..self }
            } else {
                in_code(false, c)
            },
            Place::Raw(n) => if c == '"' && n == 0 {
                anew()
            } else if c == '"' {
                Spot { place: Place::Close(n, 0), ..self }
            } else {
                self
            },
            Place::Close(n, k) => if c == '#' && k + 1 >= n {
                anew()
            } else if c == '#' {
                Spot { place: Place::Close(n, (k + 1) as usize), ..self }
            } else if c == '"' {
                Spot { place: Place::Close(n, 0), ..self }
            } else {
                Spot { place: Place::Raw(n), ..self }
            },
            Place::Line => if ends_line(c) {
                anew()
            } else {
                self
            },
            Place::Block(n) => if c == '*' {
                Spot { place: Place::Star(n), ..self }
            } else if c == '/' {
                Spot { place: Place::Open(n), ..self }
            } else {
                self
            },
            Place::Star(n) => if c == '/' && n <= 1 {
                anew()
            } else if c == '/' {
                Spot { place: Place::Block((n - 1) as usize), ..self }
            } else if c == '*' {
                self
            } else {
                Spot { place: Place::Block(n), ..self }
            },
            Place::Open(n) => if c == '*' {
                Spot { place: Place::Block((n + 1) as usize), ..self }
            } else if c == '/' {
                self
            } else {
                Spot { place: Place::Block(n), ..self }
            },
        }
    }

    /// Is this in a block comment?
    pub open spec fn in_comment(self) -> bool {
        self.place is Block || self.place is Star || self.place is Open
    }

    /// Does the character end the comment that this is in?
    pub open spec fn closes(self, c: char) -> bool {
        self.place matches Place::Star(n) && n <= 1 && c == '/'
    }

    /// Is the character one of code here?
    pub open spec fn is_code(self, c: char) -> bool {
        match self.place {
            Place::Code => true,
            Place::Slash => c != '/' && c != '*' && c != '-',
            Place::Hash(_) => c != '#' && c != '"',
            Place::Line => ends_line(c),
            _ => false,
        }
    }

    /// Is the character one of code here?
    pub fn has_code(self, c: char) -> (r: bool)
        ensures
            r == self.is_code(c),
    {
        match self.place {
            Place::Code => true,
            Place::Slash => c != '/' && c != '*' && c != '-',
            Place::Hash(_) => c != '#' && c != '"',
            Place::Line => line_end(c),
            _ => false,
        }
    }

    /// No count is past what has been read.
    spec fn counts(self, read: int) -> bool {
        match self.place {
            Place::Hash(n) => n <= read,
            Place::Raw(n) => n <= read,
            Place::Close(n, k) => n <= read && k <= n,
            Place::Block(n) => n <= read,
            Place::Star(n) => n <= read,
            Place::Open(n) => n <= read,
            _ => true,
        }
    }

    /// The place behind a character.
    fn go(self, c: char, Ghost(read): Ghost<int>) -> (r: Spot)
        requires
            self.counts(read),
            0 <= read < usize::MAX,
        ensures
            r == self.after(c),
            r.counts(read + 1),
    {
        let code = Spot { place: Place::Code, fresh: true };
        match self.place {
            Place::Code => code_after(self.fresh, c),
            Place::Slash => if c == '/' {
                Spot { place: Place::Line, fresh: self.fresh }
            } else if c == '*' {
                Spot { place: Place::Block(1), fresh: self.fresh }
            } else if c == '-' {
                code
            } else {
                code_after(true, c)
            },
            Place::Text => if c == '\\' {
                Spot { place: Place::Escape, fresh: self.fresh }
            } else if c == '"' {
                code
            } else {
                self
            },
            Place::Escape => Spot { place: Place::Text, fresh: self.fresh },
            Place::Hash(n) => if c == '#' {
                Spot { place: Place::Hash(n + 1), fresh: self.fresh }
            } else if c == '"' {
                Spot { place: Place::Raw(n), fresh: self.fresh }
            } else {
                code_after(false, c)
            },
            Place::Raw(n) => if c == '"' && n == 0 {
                code
            } else if c == '"' {
                Spot { place: Place::Close(n, 0), fresh: self.fresh }
            } else {
                self
            },
            Place::Close(n, k) => if c == '#' && k + 1 >= n {
                code
            } else if c == '#' {
                Spot { place: Place::Close(n, k + 1), fresh: self.fresh }
            } else if c == '"' {
                Spot { place: Place::Close(n, 0), fresh: self.fresh }
            } else {
                Spot { place: Place::Raw(n), fresh: self.fresh }
            },
            Place::Line => if line_end(c) {
                code
            } else {
                self
            },
            Place::Block(n) => if c == '*' {
                Spot { place: Place::Star(n), fresh: self.fresh }
            } else if c == '/' {
                Spot { place: Place::Open(n), fresh: self.fresh }
            } else {
                self
            },
            Place::Star(n) => if c == '/' && n <= 1 {
                code
            } else if c == '/' {
                Spot { place: Place::Block(n - 1), fresh: self.fresh }
            } else if c == '*' {
                self
            } else {
                Spot { place: Place::Block(n), fresh: self.fresh }
            },
            Place::Open(n) => if c == '*' {
                Spot { place: Place::Block(n + 1), fresh: self.fresh }
            } else if c == '/' {
                self
            } else {
                Spot { place: Place::Block(n), fresh: self.fresh }
            },
        }
    }
}

/// The place that a text leads to.
pub open spec fn spot_after(s: Seq<char>) -> Spot
    decreases s.len(),
{
    if s.len() == 0 {
        anew()
    } else {
        spot_after(s.drop_last()).after(s.last())
    }
}

fn blank(c: char) -> (r: bool)
    ensures
        r == is_blank(c),
{
    text::is_white(c) || c == '\u{feff}' || c == '\\'
}

/// Can the character be part of a name?
pub fn name_char(c: char) -> (r: bool)
    ensures
        r == is_name_char(c),
{
    c >= ' ' && !blank(c) && c != '/' && c != '(' && c != ')' && c != '{' && c != '}' && c != '<'
        && c != '>' && c != ';' && c != '[' && c != ']' && c != '=' && c != ',' && c != '"'
}

fn line_end(c: char) -> (r: bool)
    ensures
        r == ends_line(c),
{
    c == '\r' || c == '\n' || c == '\u{85}' || c == '\u{c}' || c == '\u{2028}' || c == '\u{2029}'
}

fn code_after(fresh: bool, c: char) -> (r: Spot)
    ensures
        r == in_code(fresh, c),
{
    if c == '/' {
        Spot { place: Place::Slash, fresh }
    } else if c == '"' {
        Spot { place: Place::Text, fresh }
    } else if c == 'r' && fresh {
        Spot { place: Place::Hash(0), fresh }
    } else {
        Spot { place: Place::Code, fresh: !name_char(c) }
    }
}

/// The place behind each character of a text, and at its start.
pub fn spots_of(chars: &Vec<char>) -> (r: Vec<Spot>)
    ensures
        r@.len() == chars@.len() + 1,
        forall|i: int| 0 <= i <= chars@.len() ==> #[trigger] r@[i] == spot_after(chars@.take(i)),
{
    let mut spot = Spot { place: Place::Code, fresh: true };
    let mut out: Vec<Spot> = Vec::new();
    out.push(spot);
    let mut i: usize = 0;
    assert(chars@.take(0) == Seq::<char>::empty());
    while i < chars.len()
        invariant
            i <= chars@.len(),
            spot.counts(i as int),
            spot == spot_after(chars@.take(i as int)),
            out@.len() == i + 1,
            forall|k: int| 0 <= k <= i ==> #[trigger] out@[k] == spot_after(chars@.take(k)),
        decreases chars@.len() - i,
    {
        assert(chars@.take(i + 1).drop_last() == chars@.take(i as int));
        spot = spot.go(chars[i], Ghost(i as int));
        out.push(spot);
        i = i + 1;
    }
    out
}

/// How many bytes a character takes up.
pub open spec fn width(c: char) -> nat {
    if c <= '\u{7f}' {
        1
    } else if c <= '\u{7ff}' {
        2
    } else if c <= '\u{ffff}' {
        3
    } else {
        4
    }
}

/// How many bytes a character takes up.
pub fn width_of(c: char) -> (r: usize)
    ensures
        r == width(c),
{
    if c <= '\u{7f}' {
        1
    } else if c <= '\u{7ff}' {
        2
    } else if c <= '\u{ffff}' {
        3
    } else {
        4
    }
}

/// So many spaces.
pub open spec fn spaces(n: nat) -> Seq<char> {
    Seq::new(n, |i: int| ' ')
}

/// A text with blanks in place of what its block comments say. Every other character
/// stays where it was, to the byte.
pub open spec fn blanked(s: Seq<char>) -> Seq<char>
    decreases s.len(),
{
    if s.len() == 0 {
        Seq::empty()
    } else {
        let front = blanked(s.drop_last());
        let spot = spot_after(s.drop_last());
        let c = s.last();
        if spot.closes(c) {
            front.drop_last().push('*').push('/')
        } else if spot.in_comment() {
            front + spaces(width(c))
        } else {
            front.push(c)
        }
    }
}

/// Behind a `*` in a comment, what was last written is a blank.
proof fn lemma_star_is_blank(s: Seq<char>)
    ensures
        spot_after(s).place is Star ==> blanked(s).len() > 0 && blanked(s).last() == ' ',
    decreases s.len(),
{
    if s.len() > 0 && spot_after(s).place is Star {
        let spot = spot_after(s.drop_last());
        assert(spot.in_comment() && s.last() == '*');
        let front = blanked(s.drop_last());
        assert(blanked(s) == front + spaces(1));
    }
}

/// The bytes that a text takes up.
pub open spec fn widths(s: Seq<char>) -> nat
    decreases s.len(),
{
    if s.len() == 0 {
        0
    } else {
        widths(s.drop_last()) + width(s.last())
    }
}

proof fn lemma_widths_push(s: Seq<char>, c: char)
    ensures
        widths(s.push(c)) == widths(s) + width(c),
{
    assert(s.push(c).drop_last() == s);
}

proof fn lemma_widths_spaces(s: Seq<char>, n: nat)
    ensures
        widths(s + spaces(n)) == widths(s) + n,
    decreases n,
{
    if n == 0 {
        assert(s + spaces(n) == s);
    } else {
        lemma_widths_spaces(s, (n - 1) as nat);
        assert(s + spaces(n) == (s + spaces((n - 1) as nat)).push(' '));
        lemma_widths_push(s + spaces((n - 1) as nat), ' ');
    }
}

/// Blanking out comments moves nothing: a text takes up as many bytes as before, and so
/// does each part of it that it begins with.
pub proof fn blanking_moves_nothing(s: Seq<char>)
    ensures
        widths(blanked(s)) == widths(s),
    decreases s.len(),
{
    if s.len() > 0 {
        let before = s.drop_last();
        let front = blanked(before);
        let c = s.last();
        blanking_moves_nothing(before);
        if spot_after(before).closes(c) {
            lemma_star_is_blank(before);
            let cut = front.drop_last();
            assert(cut.push(' ') == front);
            lemma_widths_push(cut, ' ');
            lemma_widths_push(cut, '*');
            lemma_widths_push(cut.push('*'), '/');
        } else if spot_after(before).in_comment() {
            lemma_widths_spaces(front, width(c));
        } else {
            lemma_widths_push(front, c);
        }
    }
}

/// A text without a block comment stays as it is.
pub proof fn what_is_no_comment_stays(s: Seq<char>)
    requires
        forall|i: int| 0 <= i <= s.len() ==> !(#[trigger] spot_after(s.take(i))).in_comment(),
    ensures
        blanked(s) == s,
    decreases s.len(),
{
    if s.len() > 0 {
        let front = s.drop_last();
        assert forall|i: int| 0 <= i <= front.len() implies !(#[trigger] spot_after(
            front.take(i),
        )).in_comment() by {
            assert(front.take(i) == s.take(i));
        }
        what_is_no_comment_stays(front);
        assert(s.take(s.len() - 1) == front);
        assert(!spot_after(s.take(s.len() - 1)).in_comment());
        assert(front.push(s.last()) == s);
    } else {
        assert(s == Seq::<char>::empty());
    }
}

/// Blanks out what the block comments of a text say.
pub fn blank_comments(s: &str) -> (r: String)
    ensures
        r@ == blanked(s@),
{
    let chars = text::chars_of(s);
    let spots = spots_of(&chars);
    let mut out: Vec<char> = Vec::new();
    let mut i: usize = 0;
    assert(blanked(s@.take(0)) == Seq::<char>::empty());
    while i < chars.len()
        invariant
            i <= chars@.len(),
            chars@ == s@,
            spots@.len() == chars@.len() + 1,
            forall|k: int|
                0 <= k <= chars@.len() ==> #[trigger] spots@[k] == spot_after(chars@.take(k)),
            out@ == blanked(s@.take(i as int)),
        decreases chars@.len() - i,
    {
        let c = chars[i];
        let spot = spots[i];
        assert(s@.take(i + 1).drop_last() == s@.take(i as int));
        proof {
            lemma_star_is_blank(s@.take(i as int));
        }
        let (inside, last) = match spot.place {
            Place::Star(n) => (true, n <= 1 && c == '/'),
            Place::Block(_) => (true, false),
            Place::Open(_) => (true, false),
            _ => (false, false),
        };
        if last {
            out.pop();
            out.push('*');
            out.push('/');
        } else if inside {
            let n: usize = width_of(c);
            let ghost front = out@;
            let mut k: usize = 0;
            assert(front + spaces(0) == front);
            while k < n
                invariant
                    k <= n,
                    out@ == front + spaces(k as nat),
                decreases n - k,
            {
                out.push(' ');
                assert(front + spaces((k + 1) as nat) == (front + spaces(k as nat)).push(' '));
                k = k + 1;
            }
        } else {
            out.push(c);
        }
        i = i + 1;
    }
    assert(s@.take(s@.len() as int) == s@);
    text::string_of(out.as_slice())
}

/// How deep a text nests at some place.
pub ghost struct Depth {
    /// How many `/-` stand before what is next, in this block.
    pub dashes: usize,
    /// Has anything followed the last of them?
    pub busy: bool,
    /// How many of them stand before the node that this is in.
    pub lead: usize,
    /// Has the node begun?
    pub named: bool,
    /// Does the line go on after its end?
    pub continued: bool,
    /// The blocks that are open: for each, how many `/-` are in effect in it, and how
    /// many stand before the node that it belongs to.
    pub blocks: Seq<(usize, usize)>,
    /// How many `*` and `/` the comment has so far.
    pub marks: usize,
}

impl Depth {
    /// At the start of a text.
    pub open spec fn none() -> Depth {
        Depth {
            dashes: 0,
            busy: false,
            lead: 0,
            named: false,
            continued: false,
            blocks: Seq::empty(),
            marks: 0,
        }
    }

    /// How many `/-` are in effect in the innermost block.
    pub open spec fn within(self) -> int {
        if self.blocks.len() > 0 {
            self.blocks.last().0 as int
        } else {
            0
        }
    }

    /// How many `/-` the next thing on the line is behind, not counting those that are
    /// over.
    pub open spec fn still(self) -> usize {
        if self.busy {
            self.lead
        } else {
            self.dashes
        }
    }

    /// Behind a character that is part of a name, a value or punctuation.
    pub open spec fn token(self) -> Depth {
        Depth {
            busy: true,
            named: true,
            lead: if self.named {
                self.lead
            } else {
                self.dashes
            },
            ..self
        }
    }

    /// Behind a node.
    pub open spec fn ended(self) -> Depth {
        Depth { dashes: 0, busy: false, lead: 0, named: false, continued: false, ..self }
    }

    /// Behind a character of code.
    pub open spec fn coded(self, c: char) -> Depth {
        if c == '/' {
            self
        } else if c == '{' {
            Depth {
                blocks: self.blocks.push(((self.within() + self.still()) as usize, self.lead)),
                ..self.ended()
            }
        } else if c == '}' && self.blocks.len() > 0 {
            let lead = self.blocks.last().1;
            Depth {
                dashes: lead,
                busy: true,
                lead,
                named: true,
                continued: false,
                blocks: self.blocks.drop_last(),
                ..self
            }
        } else if c == '}' {
            self.ended()
        } else if ends_line(c) || c == ';' {
            if self.busy && !self.continued {
                self.ended()
            } else {
                Depth { continued: self.continued && c == '\r', ..self }
            }
        } else if is_blank(c) {
            Depth { continued: self.continued || c == '\\', ..self }
        } else {
            self.token()
        }
    }

    /// Behind a character.
    pub open spec fn after(self, spot: Spot, c: char) -> Depth {
        if spot.is_code(c) {
            self.coded(c)
        } else if spot.place is Slash && c == '-' {
            Depth { dashes: (self.still() + 1) as usize, busy: false, ..self }
        } else if spot.place is Slash && c == '*' {
            Depth { marks: 0, ..self }
        } else if spot.in_comment() && (c == '*' || c == '/') {
            Depth { marks: (self.marks + 1) as usize, ..self }
        } else {
            self
        }
    }

    /// Is it too deep?
    pub open spec fn is_too_deep(self) -> bool {
        self.blocks.len() > MAX_BLOCKS || self.within() + self.dashes > MAX_DASHES || self.marks
            > MAX_MARKS
    }
}

/// How deep a text nests at its end.
pub open spec fn depth_after(s: Seq<char>) -> Depth
    decreases s.len(),
{
    if s.len() == 0 {
        Depth::none()
    } else {
        depth_after(s.drop_last()).after(spot_after(s.drop_last()), s.last())
    }
}

/// A text that nowhere nests too deep.
pub open spec fn is_shallow(s: Seq<char>) -> bool {
    forall|i: int| 0 <= i <= s.len() ==> !(#[trigger] depth_after(s.take(i))).is_too_deep()
}

struct Gauge {
    dashes: usize,
    busy: bool,
    lead: usize,
    named: bool,
    continued: bool,
    blocks: Vec<(usize, usize)>,
    marks: usize,
}

impl Gauge {
    spec fn reads(self) -> Depth {
        Depth {
            dashes: self.dashes,
            busy: self.busy,
            lead: self.lead,
            named: self.named,
            continued: self.continued,
            blocks: self.blocks@,
            marks: self.marks,
        }
    }

    /// No count of `/-` is past what may be.
    spec fn bounded(self) -> bool {
        &&& self.lead <= MAX_DASHES
        &&& forall|i: int|
            0 <= i < self.blocks@.len() ==> (#[trigger] self.blocks@[i]).0 <= MAX_DASHES
                && self.blocks@[i].1 <= MAX_DASHES
    }

    fn within(&self) -> (r: usize)
        ensures
            r == self.reads().within(),
    {
        if self.blocks.len() > 0 {
            self.blocks[self.blocks.len() - 1].0
        } else {
            0
        }
    }

    fn still(&self) -> (r: usize)
        ensures
            r == self.reads().still(),
    {
        if self.busy {
            self.lead
        } else {
            self.dashes
        }
    }

    fn end(&mut self)
        ensures
            final(self).reads() == old(self).reads().ended(),
    {
        self.dashes = 0;
        self.busy = false;
        self.lead = 0;
        self.named = false;
        self.continued = false;
    }

    fn code(&mut self, c: char)
        requires
            !old(self).reads().is_too_deep(),
            old(self).bounded(),
        ensures
            final(self).reads() == old(self).reads().coded(c),
            forall|i: int|
                0 <= i < final(self).blocks@.len() ==> (#[trigger] final(self).blocks@[i]).0 <= 2
                    * MAX_DASHES && final(self).blocks@[i].1 <= MAX_DASHES,
            final(self).lead <= MAX_DASHES,
    {
        if c == '/' {
        } else if c == '{' {
            let inside: usize = self.within() + self.still();
            let lead: usize = self.lead;
            self.blocks.push((inside, lead));
            self.end();
        } else if c == '}' {
            if self.blocks.len() > 0 {
                let lead: usize = self.blocks[self.blocks.len() - 1].1;
                self.blocks.pop();
                self.dashes = lead;
                self.busy = true;
                self.lead = lead;
                self.named = true;
                self.continued = false;
            } else {
                self.end();
            }
        } else if line_end(c) || c == ';' {
            if self.busy && !self.continued {
                self.end();
            } else {
                self.continued = self.continued && c == '\r';
            }
        } else if blank(c) {
            self.continued = self.continued || c == '\\';
        } else {
            self.busy = true;
            if !self.named {
                self.lead = self.dashes;
            }
            self.named = true;
        }
    }

    /// Goes one character on, and tells whether that is too deep.
    fn step(&mut self, spot: Spot, c: char) -> (r: bool)
        requires
            !old(self).reads().is_too_deep(),
            old(self).bounded(),
        ensures
            final(self).reads() == old(self).reads().after(spot, c),
            r == final(self).reads().is_too_deep(),
            !r ==> final(self).bounded(),
    {
        let code = spot.has_code(c);
        let slash = match spot.place {
            Place::Slash => true,
            _ => false,
        };
        let comment = match spot.place {
            Place::Block(_) => true,
            Place::Star(_) => true,
            Place::Open(_) => true,
            _ => false,
        };
        if code {
            self.code(c);
        } else if slash && c == '-' {
            self.dashes = self.still() + 1;
            self.busy = false;
        } else if slash && c == '*' {
            self.marks = 0;
        } else if comment && (c == '*' || c == '/') {
            self.marks = self.marks + 1;
        }
        self.blocks.len() > MAX_BLOCKS || self.within() + self.dashes > MAX_DASHES || self.marks
            > MAX_MARKS
    }
}

/// Does the text nowhere nest too deep?
pub fn nests_shallow(s: &str) -> (r: bool)
    ensures
        r == is_shallow(s@),
{
    let chars = text::chars_of(s);
    let spots = spots_of(&chars);
    let mut gauge = Gauge {
        dashes: 0,
        busy: false,
        lead: 0,
        named: false,
        continued: false,
        blocks: Vec::new(),
        marks: 0,
    };
    let mut i: usize = 0;
    assert(gauge.reads() == Depth::none());
    while i < chars.len()
        invariant
            i <= chars@.len(),
            chars@ == s@,
            spots@.len() == chars@.len() + 1,
            forall|k: int|
                0 <= k <= chars@.len() ==> #[trigger] spots@[k] == spot_after(chars@.take(k)),
            gauge.bounded(),
            gauge.reads() == depth_after(s@.take(i as int)),
            forall|k: int|
                0 <= k <= i ==> !(#[trigger] depth_after(s@.take(k))).is_too_deep(),
        decreases chars@.len() - i,
    {
        assert(s@.take(i + 1).drop_last() == s@.take(i as int));
        assert(!depth_after(s@.take(i as int)).is_too_deep());
        let over = gauge.step(spots[i], chars[i]);
        assert(gauge.reads() == depth_after(s@.take(i + 1)));
        if over {
            return false;
        }
        i = i + 1;
    }
    true
}

} // verus!
