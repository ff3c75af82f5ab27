//! A KDL document as plain values, and how a text becomes one.
use crate::config::kdl::nesting;
use crate::config::kdl::nesting::Spot;
use crate::text;
use vstd::prelude::*;

verus! {

/// A stretch of the source text, in bytes.
#[derive(Debug, Clone, Copy, PartialEq, Eq, Structural)]
pub struct Span {
    pub offset: usize,
    pub len: usize,
}

/// The value of an entry, as far as a configuration tells values apart.
#[derive(Debug, Clone, PartialEq, Eq)]
pub enum Value {
    Text(String),
    Int(i64),
    Flag(bool),
    /// A number with a fraction, or `null`.
    Other,
}

/// An argument of a node, with the name it is given under if it has one.
#[derive(Debug, Clone, PartialEq, Eq)]
pub struct Entry {
    pub name: Option<String>,
    pub value: Value,
    /// The value as it is shown where it is not what was expected.
    pub shown: String,
    pub span: Span,
}

/// A node: a name, arguments, and perhaps a block of further nodes.
#[derive(Debug, PartialEq, Eq)]
pub struct Node {
    pub name: String,
    pub entries: Vec<Entry>,
    pub children: Option<Document>,
    pub span: Span,
}

/// A list of nodes.
#[derive(Debug, PartialEq, Eq)]
pub struct Document {
    pub nodes: Vec<Node>,
    pub span: Span,
}

/// A document, as the `kdl` crate holds it.
#[verifier::external_type_specification]
#[verifier::external_body]
pub struct ExKdlDocument(kdl::KdlDocument);

/// A node, as the `kdl` crate holds it.
#[verifier::external_type_specification]
#[verifier::external_body]
pub struct ExKdlNode(kdl::KdlNode);

/// An entry, as the `kdl` crate holds it.
#[verifier::external_type_specification]
#[verifier::external_body]
pub struct ExKdlEntry(kdl::KdlEntry);

/// The document that `kdl::KdlDocument::from_str` reads out of a text, or its
/// account of why the text is none.
pub uninterp spec fn kdl_parsed(s: Seq<char>) -> Result<kdl::KdlDocument, Seq<char>>;

/// The nodes of a document, as `kdl::KdlDocument::nodes` gives them.
pub uninterp spec fn kdl_nodes(d: kdl::KdlDocument) -> Seq<kdl::KdlNode>;

/// Where a document stands in its text, as `kdl::KdlDocument::span` gives it.
pub uninterp spec fn kdl_document_span(d: kdl::KdlDocument) -> Span;

/// The name of a node, as `kdl::KdlNode::name` gives it.
pub uninterp spec fn kdl_node_name(n: kdl::KdlNode) -> Seq<char>;

/// The entries of a node, as `kdl::KdlNode::entries` gives them.
pub uninterp spec fn kdl_node_entries(n: kdl::KdlNode) -> Seq<kdl::KdlEntry>;

/// The block of a node, as `kdl::KdlNode::children` gives it.
pub uninterp spec fn kdl_node_children(n: kdl::KdlNode) -> Option<kdl::KdlDocument>;

/// Where a node stands in its text, as `kdl::KdlNode::span` gives it.
pub uninterp spec fn kdl_node_span(n: kdl::KdlNode) -> Span;

/// The name of an entry, as `kdl::KdlEntry::name` gives it.
pub uninterp spec fn kdl_entry_name(e: kdl::KdlEntry) -> Option<Seq<char>>;

/// The value of an entry, as `kdl::KdlEntry::value` gives it.
pub uninterp spec fn kdl_entry_value(e: kdl::KdlEntry) -> Atom;

/// Where an entry stands in its text, as `kdl::KdlEntry::span` gives it.
pub uninterp spec fn kdl_entry_span(e: kdl::KdlEntry) -> Span;

/// The text that the value of an entry is shown as.
pub uninterp spec fn kdl_entry_shown(e: kdl::KdlEntry) -> Seq<char>;

/// A value without its representation.
pub enum Atom {
    Text(Seq<char>),
    Int(i64),
    Flag(bool),
    Other,
}

impl View for Value {
    type V = Atom;

    open spec fn view(&self) -> Atom {
        match self {
            Value::Text(s) => Atom::Text(s@),
            Value::Int(n) => Atom::Int(*n),
            Value::Flag(b) => Atom::Flag(*b),
            Value::Other => Atom::Other,
        }
    }
}

/// Do the first `n` bytes of `s` exist, and end with a character?
pub open spec fn whole(s: Seq<char>, n: nat) -> bool
    decreases s.len(),
{
    n == 0 || (s.len() > 0 && nesting::width(s[0]) <= n && whole(
        s.skip(1),
        (n - nesting::width(s[0])) as nat,
    ))
}

/// Does the bracket at `i`, where it is no part of a string or a comment, open on the
/// reserved word `word`, with less behind it than a report of that word would quote?
pub open spec fn dangling(s: Seq<char>, i: int, word: Seq<char>) -> bool {
    &&& s[i] == '('
    &&& nesting::spot_after(s.take(i)).is_code(s[i])
    &&& i + 1 + word.len() <= s.len()
    &&& s.subrange(i + 1, i + 1 + word.len()) == word
    &&& i + 1 + word.len() < s.len() ==> !nesting::is_name_char(s[i + 1 + word.len()])
    &&& !whole(s.skip(i + 1 + word.len()), word.len())
}

/// Does the bracket at `i` so open on one of the reserved words?
pub open spec fn dangles(s: Seq<char>, i: int) -> bool {
    dangling(s, i, "true"@) || dangling(s, i, "false"@) || dangling(s, i, "null"@)
}

/// A text without such a bracket.
pub open spec fn reportable(s: Seq<char>) -> bool {
    forall|i: int| 0 <= i < s.len() ==> !(#[trigger] dangles(s, i))
}

fn is_whole(chars: &Vec<char>, at: usize, n: usize) -> (r: bool)
    requires
        at <= chars@.len(),
    ensures
        r == whole(chars@.skip(at as int), n as nat),
{
    let mut i: usize = at;
    let mut left: usize = n;
    while left > 0
        invariant
            at <= i <= chars@.len(),
            whole(chars@.skip(at as int), n as nat) == whole(chars@.skip(i as int), left as nat),
        decreases left,
    {
        if i == chars.len() || nesting::width_of(chars[i]) > left {
            return false;
        }
        assert(chars@.skip(i as int).skip(1) == chars@.skip(i + 1));
        left = left - nesting::width_of(chars[i]);
        i = i + 1;
    }
    true
}

fn is_dangling(chars: &Vec<char>, spots: &Vec<Spot>, i: usize, word: &str) -> (r: bool)
    requires
        i < chars@.len(),
        spots@.len() == chars@.len() + 1,
        spots@[i as int] == nesting::spot_after(chars@.take(i as int)),
    ensures
        r == dangling(chars@, i as int, word@),
{
    if chars[i] != '(' || !spots[i].has_code(chars[i]) {
        return false;
    }
    let part = text::chars_of(word);
    assert(i < chars.len());
    if !text::matches_at(chars, i + 1, &part) {
        return false;
    }
    let end: usize = i + 1 + part.len();
    if end < chars.len() && nesting::name_char(chars[end]) {
        return false;
    }
    !is_whole(chars, end, part.len())
}

fn is_reportable(s: &str) -> (r: bool)
    ensures
        r == reportable(s@),
{
    let chars = text::chars_of(s);
    let spots = nesting::spots_of(&chars);
    let mut i: usize = 0;
    while i < chars.len()
        invariant
            i <= chars@.len(),
            chars@ == s@,
            spots@.len() == chars@.len() + 1,
            forall|k: int|
                0 <= k <= chars@.len() ==> #[trigger] spots@[k] == nesting::spot_after(
                    chars@.take(k),
                ),
            forall|k: int| 0 <= k < i ==> !(#[trigger] dangles(s@, k)),
        decreases chars@.len() - i,
    {
        let on_true = is_dangling(&chars, &spots, i, "true");
        let on_false = is_dangling(&chars, &spots, i, "false");
        let on_null = is_dangling(&chars, &spots, i, "null");
        assert(dangles(s@, i as int) == (on_true || on_false || on_null));
        if on_true || on_false || on_null {
            return false;
        }
        i = i + 1;
    }
    true
}

/// `kdl::KdlDocument::from_str` goes by the text alone. Where a type annotation is a
/// reserved word, it quotes as many bytes behind the word as the word has, and panics
/// where there are not so many or where they cut a character in two: a text that holds
/// such a place is not handed to it. Nor is one that nests deep: it reads blocks, block
/// comments and what is commented out by recursion. How deep is too deep for the stack is
/// up to the machine; the bounds on a text are meant for one of two megabytes.
#[verifier::external_body]
fn parse_kdl(s: &str) -> (r: Result<kdl::KdlDocument, String>)
    requires
        reportable(s@),
        nesting::is_shallow(s@),
    ensures
        match r {
            Ok(d) => kdl_parsed(s@) == Ok::<kdl::KdlDocument, Seq<char>>(d),
            Err(e) => kdl_parsed(s@) == Err::<kdl::KdlDocument, Seq<char>>(e@),
        },
{
    s.parse::<kdl::KdlDocument>().map_err(|e| e.to_string())
}

/// `kdl::KdlDocument::nodes` gives the nodes in order.
#[verifier::external_body]
fn nodes(d: &kdl::KdlDocument) -> (r: &[kdl::KdlNode])
    ensures
        r@ == kdl_nodes(*d),
{
    d.nodes()
}

/// `kdl::KdlDocument::span` gives the place of the document in its text.
#[verifier::external_body]
fn document_span(d: &kdl::KdlDocument) -> (r: Span)
    ensures
        r == kdl_document_span(*d),
{
    Span { offset: d.span().offset(), len: d.span().len() }
}

/// `kdl::KdlNode::name` gives the name of the node.
#[verifier::external_body]
fn node_name(n: &kdl::KdlNode) -> (r: String)
    ensures
        r@ == kdl_node_name(*n),
{
    n.name().value().to_string()
}

/// `kdl::KdlNode::entries` gives the arguments in order.
#[verifier::external_body]
fn node_entries(n: &kdl::KdlNode) -> (r: &[kdl::KdlEntry])
    ensures
        r@ == kdl_node_entries(*n),
{
    n.entries()
}

/// `kdl::KdlNode::children` gives the block of the node, if it has one.
#[verifier::external_body]
fn node_children(n: &kdl::KdlNode) -> (r: Option<&kdl::KdlDocument>)
    ensures
        match r {
            Some(d) => kdl_node_children(*n) == Some(*d),
            None => kdl_node_children(*n) is None,
        },
{
    n.children()
}

/// `kdl::KdlNode::span` gives the place of the node in its text.
#[verifier::external_body]
fn node_span(n: &kdl::KdlNode) -> (r: Span)
    ensures
        r == kdl_node_span(*n),
{
    Span { offset: n.span().offset(), len: n.span().len() }
}

/// `kdl::KdlEntry::name` gives the name of a named argument.
#[verifier::external_body]
fn entry_name(e: &kdl::KdlEntry) -> (r: Option<String>)
    ensures
        match r {
            Some(s) => kdl_entry_name(*e) == Some(s@),
            None => kdl_entry_name(*e) is None,
        },
{
    e.name().map(|n| n.value().to_string())
}

/// `kdl::KdlEntry::value` gives the value of the argument. Strings are told from
/// raw strings no more than numbers by their base.
#[verifier::external_body]
fn entry_value(e: &kdl::KdlEntry) -> (r: Value)
    ensures
        r@ == kdl_entry_value(*e),
{
    match e.value() {
        kdl::KdlValue::RawString(s) => Value::Text(s.clone()),
        kdl::KdlValue::String(s) => Value::Text(s.clone()),
        kdl::KdlValue::Base2(n) => Value::Int(*n),
        kdl::KdlValue::Base8(n) => Value::Int(*n),
        kdl::KdlValue::Base10(n) => Value::Int(*n),
        kdl::KdlValue::Base16(n) => Value::Int(*n),
        kdl::KdlValue::Bool(b) => Value::Flag(*b),
        kdl::KdlValue::Base10Float(_) => Value::Other,
        kdl::KdlValue::Null => Value::Other,
    }
}

/// `kdl::KdlValue` shows a value with its kind, going by the value alone.
#[verifier::external_body]
fn entry_shown(e: &kdl::KdlEntry) -> (r: String)
    ensures
        r@ == kdl_entry_shown(*e),
{
    format!("{:?}", e.value())
}

/// `kdl::KdlEntry::span` gives the place of the argument in its text.
#[verifier::external_body]
fn entry_span(e: &kdl::KdlEntry) -> (r: Span)
    ensures
        r == kdl_entry_span(*e),
{
    Span { offset: e.span().offset(), len: e.span().len() }
}

/// How deep a configuration nests at most. What is nested deeper is left out:
/// there is no section that it could belong to.
pub const NESTING: usize = 16;

/// Is `e` the entry `k`?
pub open spec fn entry_is(e: Entry, k: kdl::KdlEntry) -> bool {
    &&& kdl_entry_name(k) == (match e.name {
        Some(s) => Some(s@),
        None => None,
    })
    &&& e.value@ == kdl_entry_value(k)
    &&& e.shown@ == kdl_entry_shown(k)
    &&& e.span == kdl_entry_span(k)
}

/// Is `n` the node `k`, down to `depth` levels?
pub open spec fn node_is(n: Node, k: kdl::KdlNode, depth: nat) -> bool
    decreases depth, 0nat,
{
    &&& n.name@ == kdl_node_name(k)
    &&& n.span == kdl_node_span(k)
    &&& n.entries@.len() == kdl_node_entries(k).len()
    &&& forall|i: int|
        0 <= i < n.entries@.len() ==> entry_is(#[trigger] n.entries@[i], kdl_node_entries(k)[i])
    &&& if depth == 0 {
        n.children is None
    } else {
        match (n.children, kdl_node_children(k)) {
            (None, None) => true,
            (Some(d), Some(kd)) => document_is(d, kd, (depth - 1) as nat),
            _ => false,
        }
    }
}

/// Is `d` the document `k`, down to `depth` levels?
pub open spec fn document_is(d: Document, k: kdl::KdlDocument, depth: nat) -> bool
    decreases depth, 1nat,
{
    &&& d.span == kdl_document_span(k)
    &&& d.nodes@.len() == kdl_nodes(k).len()
    &&& forall|i: int|
        0 <= i < d.nodes@.len() ==> node_is(#[trigger] d.nodes@[i], kdl_nodes(k)[i], depth)
}

fn convert_entries(from: &[kdl::KdlEntry]) -> (r: Vec<Entry>)
    ensures
        r@.len() == from@.len(),
        forall|i: int| 0 <= i < r@.len() ==> entry_is(#[trigger] r@[i], from@[i]),
{
    let mut out: Vec<Entry> = Vec::new();
    let mut i: usize = 0;
    while i < from.len()
        invariant
            i <= from@.len(),
            out@.len() == i,
            forall|k: int| 0 <= k < i ==> entry_is(#[trigger] out@[k], from@[k]),
        decreases from@.len() - i,
    {
        let e = &from[i];
        out.push(
            Entry {
                name: entry_name(e),
                value: entry_value(e),
                shown: entry_shown(e),
                span: entry_span(e),
            },
        );
        i = i + 1;
    }
    out
}

fn convert_node(n: &kdl::KdlNode, depth: usize) -> (r: Node)
    ensures
        node_is(r, *n, depth as nat),
    decreases depth, 0nat,
{
    let children = if depth == 0 {
        None
    } else {
        match node_children(n) {
            Some(d) => Some(convert_document(d, depth - 1)),
            None => None,
        }
    };
    Node {
        name: node_name(n),
        entries: convert_entries(node_entries(n)),
        children,
        span: node_span(n),
    }
}

fn convert_document(d: &kdl::KdlDocument, depth: usize) -> (r: Document)
    ensures
        document_is(r, *d, depth as nat),
    decreases depth, 1nat,
{
    let from = nodes(d);
    let mut out: Vec<Node> = Vec::new();
    let mut i: usize = 0;
    while i < from.len()
        invariant
            i <= from@.len(),
            from@ == kdl_nodes(*d),
            out@.len() == i,
            forall|k: int| 0 <= k < i ==> node_is(#[trigger] out@[k], from@[k], depth as nat),
        decreases from@.len() - i,
    {
        out.push(convert_node(&from[i], depth));
        i = i + 1;
    }
    Document { nodes: out, span: document_span(d) }
}

/// Can the text be handed to the parser?
pub open spec fn readable(s: Seq<char>) -> bool {
    reportable(s) && nesting::is_shallow(s)
}

/// The text that stands for `s`: `s` itself, or where that cannot be handed to the parser,
/// `s` with its block comments blanked out.
pub open spec fn standing_for(s: Seq<char>) -> Seq<char> {
    if readable(s) {
        s
    } else {
        nesting::blanked(s)
    }
}

/// Why a text is not read at all, if it is not.
pub open spec fn unread(s: Seq<char>) -> Option<Seq<char>> {
    if !reportable(standing_for(s)) {
        Some("Reserved keywords cannot be used as identifiers."@)
    } else if !nesting::is_shallow(standing_for(s)) {
        Some("Nested too deep."@)
    } else {
        None
    }
}

/// What the parser makes of a text that is read.
pub open spec fn parsed(s: Seq<char>) -> Result<kdl::KdlDocument, Seq<char>> {
    kdl_parsed(standing_for(s))
}

/// Reads a document out of a text.
pub fn parse_document(s: &str) -> (r: Result<Document, String>)
    ensures
        match unread(s@) {
            Some(why) => r matches Err(e) && e@ == why,
            None => match r {
                Ok(d) => parsed(s@) is Ok && document_is(d, parsed(s@)->Ok_0, NESTING as nat),
                Err(e) => parsed(s@) == Err::<kdl::KdlDocument, Seq<char>>(e@),
            },
        },
{
    if is_reportable(s) && nesting::nests_shallow(s) {
        return match parse_kdl(s) {
            Ok(d) => Ok(convert_document(&d, NESTING)),
            Err(e) => Err(e),
        };
    }
    let bare = nesting::blank_comments(s);
    if !is_reportable(bare.as_str()) {
        return Err("Reserved keywords cannot be used as identifiers.".to_owned());
    }
    if !nesting::nests_shallow(bare.as_str()) {
        return Err("Nested too deep.".to_owned());
    }
    match parse_kdl(bare.as_str()) {
        Ok(d) => Ok(convert_document(&d, NESTING)),
        Err(e) => Err(e),
    }
}

/// The first node called `name`.
pub open spec fn find(nodes: Seq<Node>, name: Seq<char>) -> Option<Node>
    decreases nodes.len(),
{
    if nodes.len() == 0 {
        None
    } else if nodes[0].name@ == name {
        Some(nodes[0])
    } else {
        find(nodes.drop_first(), name)
    }
}

impl Document {
    /// The first node called `name`.
    pub fn get(&self, name: &str) -> (r: Option<&Node>)
        ensures
            match r {
                Some(n) => find(self.nodes@, name@) == Some(*n),
                None => find(self.nodes@, name@) is None,
            },
    {
        let mut i: usize = 0;
        assert(self.nodes@.skip(0) == self.nodes@);
        while i < self.nodes.len()
            invariant
                i <= self.nodes@.len(),
                find(self.nodes@.skip(i as int), name@) == find(self.nodes@, name@),
            decreases self.nodes@.len() - i,
        {
            if text::same_text(self.nodes[i].name.as_str(), name) {
                return Some(&self.nodes[i]);
            }
            assert(self.nodes@.skip(i as int).drop_first() == self.nodes@.skip(i + 1));
            i = i + 1;
        }
        None
    }
}

/// The last node called `name`.
pub open spec fn last_named(nodes: Seq<Node>, name: Seq<char>) -> Option<Node>
    decreases nodes.len(),
{
    if nodes.len() == 0 {
        None
    } else if nodes.last().name@ == name {
        Some(nodes.last())
    } else {
        last_named(nodes.drop_last(), name)
    }
}

/// The nodes called `name`, in order.
pub open spec fn all_named(nodes: Seq<Node>, name: Seq<char>) -> Seq<Node>
    decreases nodes.len(),
{
    if nodes.len() == 0 {
        Seq::empty()
    } else {
        let front = all_named(nodes.drop_last(), name);
        if nodes.last().name@ == name {
            front.push(nodes.last())
        } else {
            front
        }
    }
}

/// A node that is found is one of the nodes.
pub proof fn lemma_last_named(nodes: Seq<Node>, name: Seq<char>)
    ensures
        last_named(nodes, name) matches Some(n) ==> n.name@ == name && nodes.contains(n),
    decreases nodes.len(),
{
    if nodes.len() > 0 {
        if nodes.last().name@ == name {
            assert(nodes[nodes.len() - 1] == nodes.last());
        } else {
            lemma_last_named(nodes.drop_last(), name);
            match last_named(nodes.drop_last(), name) {
                Some(n) => {
                    let i = choose|i: int|
                        0 <= i < nodes.drop_last().len() && nodes.drop_last()[i] == n;
                    assert(nodes[i] == n);
                },
                None => {},
            }
        }
    }
}

/// The last node called `name`.
pub fn last_node<'a>(nodes: &'a [Node], name: &str) -> (r: Option<&'a Node>)
    ensures
        match r {
            Some(n) => last_named(nodes@, name@) == Some(*n),
            None => last_named(nodes@, name@) is None,
        },
{
    let mut i: usize = nodes.len();
    assert(nodes@.take(i as int) == nodes@);
    while i > 0
        invariant
            i <= nodes@.len(),
            last_named(nodes@.take(i as int), name@) == last_named(nodes@, name@),
        decreases i,
    {
        let ghost part = nodes@.take(i as int);
        assert(part.last() == nodes@[i - 1]);
        assert(part.drop_last() == nodes@.take(i - 1));
        if text::same_text(nodes[i - 1].name.as_str(), name) {
            return Some(&nodes[i - 1]);
        }
        i = i - 1;
    }
    None
}

/// A section is found at its first line, wherever that stands, and only a name that no
/// line has is not found.
pub proof fn the_first_of_a_name_is_found(nodes: Seq<Node>, name: Seq<char>, i: int)
    requires
        0 <= i <= nodes.len(),
        forall|k: int| 0 <= k < i ==> (#[trigger] nodes[k]).name@ != name,
        i < nodes.len() ==> nodes[i].name@ == name,
    ensures
        find(nodes, name) == (if i < nodes.len() {
            Some(nodes[i])
        } else {
            None
        }),
    decreases nodes.len(),
{
    if i > 0 {
        assert(nodes[0].name@ != name);
        let rest = nodes.drop_first();
        assert forall|k: int| 0 <= k < i - 1 implies (#[trigger] rest[k]).name@ != name by {
            assert(rest[k] == nodes[k + 1]);
        }
        the_first_of_a_name_is_found(rest, name, i - 1);
    }
}

/// Of several settings of one name the last counts, wherever it stands, and only a name
/// that no line has is not set.
pub proof fn the_last_of_a_name_counts(nodes: Seq<Node>, name: Seq<char>, i: int)
    requires
        -1 <= i < nodes.len(),
        forall|k: int| i < k < nodes.len() ==> (#[trigger] nodes[k]).name@ != name,
        i >= 0 ==> nodes[i].name@ == name,
    ensures
        last_named(nodes, name) == (if i >= 0 {
            Some(nodes[i])
        } else {
            None
        }),
    decreases nodes.len(),
{
    if i < nodes.len() - 1 {
        assert(nodes[nodes.len() - 1].name@ != name);
        let front = nodes.drop_last();
        assert forall|k: int| i < k < front.len() implies (#[trigger] front[k]).name@ != name by {
            assert(front[k] == nodes[k]);
        }
        the_last_of_a_name_counts(front, name, i);
    }
}

/// All the lines of a name are taken together, in the order they stand in.
pub proof fn every_line_of_a_name_is_taken(
    nodes: Seq<Node>,
    name: Seq<char>,
    has_name: spec_fn(Node) -> bool,
)
    requires
        forall|n: Node| #[trigger] has_name(n) <==> n.name@ == name,
    ensures
        all_named(nodes, name) == nodes.filter(has_name),
    decreases nodes.len(),
{
    reveal(Seq::filter);
    if nodes.len() > 0 {
        every_line_of_a_name_is_taken(nodes.drop_last(), name, has_name);
        assert(has_name(nodes.last()) <==> nodes.last().name@ == name);
    }
}

/// Every line of a document is read, in its place, with every argument that it has and its
/// block, and so is every line of that block.
pub proof fn every_line_and_argument_is_read(
    d: Document,
    k: kdl::KdlDocument,
    depth: nat,
    i: int,
    a: int,
)
    requires
        document_is(d, k, depth),
        0 <= i < kdl_nodes(k).len(),
    ensures
        d.nodes@.len() == kdl_nodes(k).len(),
        d.nodes@[i].name@ == kdl_node_name(kdl_nodes(k)[i]),
        d.nodes@[i].span == kdl_node_span(kdl_nodes(k)[i]),
        d.nodes@[i].entries@.len() == kdl_node_entries(kdl_nodes(k)[i]).len(),
        0 <= a < d.nodes@[i].entries@.len() ==> {
            let read = d.nodes@[i].entries@[a];
            let there = kdl_node_entries(kdl_nodes(k)[i])[a];
            &&& read.name is Some <==> kdl_entry_name(there) is Some
            &&& read.name matches Some(n) ==> kdl_entry_name(there) == Some(n@)
            &&& read.value@ == kdl_entry_value(there)
            &&& read.span == kdl_entry_span(there)
        },
        depth > 0 ==> (d.nodes@[i].children is Some <==> kdl_node_children(
            kdl_nodes(k)[i],
        ) is Some),
        depth > 0 && d.nodes@[i].children is Some ==> document_is(
            d.nodes@[i].children->0,
            kdl_node_children(kdl_nodes(k)[i])->0,
            (depth - 1) as nat,
        ),
{
    assert(node_is(d.nodes@[i], kdl_nodes(k)[i], depth));
    if 0 <= a < d.nodes@[i].entries@.len() {
        assert(entry_is(d.nodes@[i].entries@[a], kdl_node_entries(kdl_nodes(k)[i])[a]));
    }
}

} // verus!
