//! The arguments of a node, read by name.
use crate::config::kdl::document::{Document, Entry, Node, Span, Value};
use crate::config::kdl::document;
use crate::text;
use vstd::prelude::*;

verus! {

/// What is wrong with a configuration, and where.
#[derive(Debug, PartialEq, Eq)]
pub struct Bad {
    pub error: String,
    pub err_span: Span,
}

/// A fault as a message and a place.
pub type Fault = (Seq<char>, Span);

impl View for Bad {
    type V = Fault;

    open spec fn view(&self) -> Fault {
        (self.error@, self.err_span)
    }
}

impl Bad {
    /// A fault with its message and its place.
    pub fn docspan(error: String, span: Span) -> (r: Self)
        ensures
            r@ == (error@, span),
    {
        Bad { error, err_span: span }
    }

    /// A fault with a fixed message.
    pub fn plain(error: &str, span: Span) -> (r: Self)
        ensures
            r@ == (error@, span),
    {
        Bad { error: error.to_owned(), err_span: span }
    }

    /// A fault whose message quotes something.
    pub fn quoting(before: &str, quoted: &str, after: &str, span: Span) -> (r: Self)
        ensures
            r@ == (before@ + quoted@ + after@, span),
    {
        Bad { error: text::concat3(before, quoted, after), err_span: span }
    }
}

/// The first of two faults.
pub open spec fn or(a: Option<Fault>, b: Option<Fault>) -> Option<Fault> {
    if a is Some {
        a
    } else {
        b
    }
}

/// A fault, if something is amiss.
pub open spec fn when(amiss: bool, message: Seq<char>, span: Span) -> Option<Fault> {
    if amiss {
        Some((message, span))
    } else {
        None
    }
}

/// Does a result say what it should: the fault if there is one, and success
/// otherwise?
pub open spec fn told<T>(r: Result<T, Bad>, fault: Option<Fault>) -> bool {
    match r {
        Ok(_) => fault is None,
        Err(b) => fault == Some(b@),
    }
}

/// An optional text, as its characters.
pub open spec fn opt(s: Option<&str>) -> Option<Seq<char>> {
    match s {
        Some(t) => Some(t@),
        None => None,
    }
}

/// The last entry given under `key`.
pub open spec fn lookup(entries: Seq<Entry>, key: Seq<char>) -> Option<Entry>
    decreases entries.len(),
{
    if entries.len() == 0 {
        None
    } else if entries.last().name is Some && entries.last().name->0@ == key {
        Some(entries.last())
    } else {
        lookup(entries.drop_last(), key)
    }
}

/// The text of a value that is one.
pub open spec fn as_text(v: Value) -> Option<Seq<char>> {
    match v {
        Value::Text(s) => Some(s@),
        _ => None,
    }
}

/// The text given under `key`.
pub open spec fn str_arg(entries: Seq<Entry>, key: Seq<char>) -> Option<Seq<char>> {
    match lookup(entries, key) {
        Some(e) => as_text(e.value),
        None => None,
    }
}

/// Something other than a text is given under `key`.
pub open spec fn str_fault(entries: Seq<Entry>, key: Seq<char>) -> Option<Fault> {
    match lookup(entries, key) {
        Some(e) => when(as_text(e.value) is None, "'"@ + key + "' should be a string"@, e.span),
        None => None,
    }
}

/// The flag given under `key`.
pub open spec fn bool_arg(entries: Seq<Entry>, key: Seq<char>) -> Option<bool> {
    match lookup(entries, key) {
        Some(e) => match e.value {
            Value::Flag(b) => Some(b),
            _ => None,
        },
        None => None,
    }
}

/// Something other than a flag is given under `key`.
pub open spec fn bool_fault(entries: Seq<Entry>, key: Seq<char>) -> Option<Fault> {
    match lookup(entries, key) {
        Some(e) => when(
            !(e.value is Flag),
            "'"@ + key + "' should be 'true' or 'false'"@,
            e.span,
        ),
        None => None,
    }
}

/// The whole number given under `key`.
pub open spec fn num_arg(entries: Seq<Entry>, key: Seq<char>) -> Option<nat> {
    match lookup(entries, key) {
        Some(e) => match e.value {
            Value::Int(n) => if n >= 0 {
                Some(n as nat)
            } else {
                None
            },
            _ => None,
        },
        None => None,
    }
}

/// Something other than a whole number is given under `key`.
pub open spec fn num_fault(entries: Seq<Entry>, key: Seq<char>) -> Option<Fault> {
    match lookup(entries, key) {
        Some(e) => when(
            num_arg(entries, key) is None,
            "'"@ + key + "' should be a positive whole number"@,
            e.span,
        ),
        None => None,
    }
}

/// Something other than a number of sixteen bits is given under `key`.
pub open spec fn u16_fault(entries: Seq<Entry>, key: Seq<char>, span: Span) -> Option<Fault> {
    or(
        num_fault(entries, key),
        when(
            num_arg(entries, key) matches Some(n) && n > u16::MAX,
            "'"@ + key + "' should be between 0 and 65535"@,
            span,
        ),
    )
}

/// Something other than a number that fits a size is given under `key`.
pub open spec fn usize_fault(entries: Seq<Entry>, key: Seq<char>, span: Span) -> Option<Fault> {
    or(
        num_fault(entries, key),
        when(
            num_arg(entries, key) matches Some(n) && n > usize::MAX,
            "'"@ + key + "' is too large"@,
            span,
        ),
    )
}

/// The first entry without a name.
pub open spec fn unnamed(entries: Seq<Entry>) -> Option<Fault>
    decreases entries.len(),
{
    if entries.len() == 0 {
        None
    } else {
        or(
            unnamed(entries.drop_last()),
            when(entries.last().name is None, "arguments should be named"@, entries.last().span),
        )
    }
}

/// The names given that nothing reads, in the order they stand.
pub open spec fn unread(entries: Seq<Entry>, known: Seq<Seq<char>>) -> Seq<Seq<char>>
    decreases entries.len(),
{
    if entries.len() == 0 {
        Seq::empty()
    } else {
        let front = unread(entries.drop_last(), known);
        match entries.last().name {
            Some(n) => if known.contains(n@) {
                front
            } else {
                front.push(n@)
            },
            None => front,
        }
    }
}

/// A setting that nothing reads is a mistake, and is named.
pub open spec fn unread_fault(entries: Seq<Entry>, known: Seq<Seq<char>>, span: Span) -> Option<
    Fault,
> {
    when(
        unread(entries, known).len() > 0,
        "Unknown setting(s) here: "@ + text::join(text::ordered(unread(entries, known)), ", "@),
        span,
    )
}

/// The texts of some words.
pub open spec fn words(w: Seq<&str>) -> Seq<Seq<char>> {
    w.map_values(|s: &str| s@)
}

/// The named arguments of one node.
///
/// Whoever reads them says at the end which names it knows, and anything else
/// is reported. That turns a misspelled key into an error against the line that
/// has it, rather than a setting that silently does nothing.
pub struct Args<'a> {
    pub entries: &'a [Entry],
    pub span: Span,
}

impl<'a> Args<'a> {
    /// For a node whose arguments are all named, like a connector entry.
    pub fn named(entries: &'a [Entry], span: Span) -> (r: Result<Args<'a>, Bad>)
        ensures
            told(r, unnamed(entries@)),
            r matches Ok(a) ==> a.entries@ == entries@ && a.span == span,
    {
        let mut i: usize = 0;
        while i < entries.len()
            invariant
                i <= entries@.len(),
                unnamed(entries@.take(i as int)) is None,
            decreases entries@.len() - i,
        {
            let ghost next = entries@.take(i + 1);
            assert(next.drop_last() == entries@.take(i as int));
            assert(next.last() == entries@[i as int]);
            if entries[i].name.is_none() {
                proof {
                    lemma_unnamed(entries@, i + 1);
                }
                return Err(Bad::plain("arguments should be named", entries[i].span));
            }
            i = i + 1;
        }
        assert(entries@.take(entries@.len() as int) == entries@);
        Ok(Args { entries, span })
    }

    /// What is given under `key`, if anything.
    pub fn find(&self, key: &str) -> (r: Option<&'a Entry>)
        ensures
            match r {
                Some(e) => lookup(self.entries@, key@) == Some(*e),
                None => lookup(self.entries@, key@) is None,
            },
    {
        let mut i: usize = self.entries.len();
        assert(self.entries@.take(i as int) == self.entries@);
        while i > 0
            invariant
                i <= self.entries@.len(),
                lookup(self.entries@.take(i as int), key@) == lookup(self.entries@, key@),
            decreases i,
        {
            let ghost part = self.entries@.take(i as int);
            assert(part.last() == self.entries@[i - 1]);
            assert(part.drop_last() == self.entries@.take(i - 1));
            match &self.entries[i - 1].name {
                Some(n) => {
                    if text::same_text(n.as_str(), key) {
                        return Some(&self.entries[i - 1]);
                    }
                },
                None => {},
            }
            i = i - 1;
        }
        None
    }

    /// Is anything given under `key`?
    pub fn has(&self, key: &str) -> (r: bool)
        ensures
            r == lookup(self.entries@, key@) is Some,
    {
        self.find(key).is_some()
    }

    /// A text.
    pub fn take_str(&self, key: &str) -> (r: Result<Option<&'a str>, Bad>)
        ensures
            told(r, str_fault(self.entries@, key@)),
            r matches Ok(v) ==> opt(v) == str_arg(self.entries@, key@),
    {
        match self.find(key) {
            Some(e) => match &e.value {
                Value::Text(s) => Ok(Some(s.as_str())),
                _ => Err(Bad::quoting("'", key, "' should be a string", e.span)),
            },
            None => Ok(None),
        }
    }

    /// `true` or `false`.
    pub fn take_bool(&self, key: &str) -> (r: Result<Option<bool>, Bad>)
        ensures
            told(r, bool_fault(self.entries@, key@)),
            r matches Ok(v) ==> v == bool_arg(self.entries@, key@),
    {
        match self.find(key) {
            Some(e) => match &e.value {
                Value::Flag(b) => Ok(Some(*b)),
                _ => Err(Bad::quoting("'", key, "' should be 'true' or 'false'", e.span)),
            },
            None => Ok(None),
        }
    }

    /// A non-negative integer.
    pub fn take_u64(&self, key: &str) -> (r: Result<Option<u64>, Bad>)
        ensures
            told(r, num_fault(self.entries@, key@)),
            r matches Ok(v) ==> match v {
                Some(n) => num_arg(self.entries@, key@) == Some(n as nat),
                None => num_arg(self.entries@, key@) is None,
            },
    {
        match self.find(key) {
            Some(e) => {
                if let Value::Int(n) = &e.value {
                    if *n >= 0 {
                        return Ok(Some(*n as u64));
                    }
                }
                Err(Bad::quoting("'", key, "' should be a positive whole number", e.span))
            },
            None => Ok(None),
        }
    }

    /// A non-negative integer of sixteen bits.
    pub fn take_u16(&self, key: &str) -> (r: Result<Option<u16>, Bad>)
        ensures
            told(r, u16_fault(self.entries@, key@, self.span)),
            r matches Ok(v) ==> match v {
                Some(n) => num_arg(self.entries@, key@) == Some(n as nat),
                None => num_arg(self.entries@, key@) is None,
            },
    {
        match self.take_u64(key) {
            Ok(Some(n)) => {
                if n > 65535 {
                    Err(Bad::quoting("'", key, "' should be between 0 and 65535", self.span))
                } else {
                    Ok(Some(n as u16))
                }
            },
            Ok(None) => Ok(None),
            Err(b) => Err(b),
        }
    }

    /// A non-negative integer that fits a size.
    pub fn take_usize(&self, key: &str) -> (r: Result<Option<usize>, Bad>)
        ensures
            told(r, usize_fault(self.entries@, key@, self.span)),
            r matches Ok(v) ==> match v {
                Some(n) => num_arg(self.entries@, key@) == Some(n as nat),
                None => num_arg(self.entries@, key@) is None,
            },
    {
        match self.take_u64(key) {
            Ok(Some(n)) => {
                if n > usize::MAX as u64 {
                    Err(Bad::quoting("'", key, "' is too large", self.span))
                } else {
                    Ok(Some(n as usize))
                }
            },
            Ok(None) => Ok(None),
            Err(b) => Err(b),
        }
    }

    /// Rejects anything under a name that is not known.
    pub fn finish(&self, known: &[&str]) -> (r: Result<(), Bad>)
        ensures
            told(r, unread_fault(self.entries@, words(known@), self.span)),
    {
        let mut left: Vec<String> = Vec::new();
        let mut i: usize = 0;
        assert(text::texts(left@) == Seq::<Seq<char>>::empty());
        while i < self.entries.len()
            invariant
                i <= self.entries@.len(),
                text::texts(left@) == unread(self.entries@.take(i as int), words(known@)),
            decreases self.entries@.len() - i,
        {
            let ghost next = self.entries@.take(i + 1);
            assert(next.drop_last() == self.entries@.take(i as int));
            assert(next.last() == self.entries@[i as int]);
            match &self.entries[i].name {
                Some(n) => {
                    if !is_among(n.as_str(), known) {
                        let ghost before = left@;
                        left.push(n.clone());
                        assert(text::texts(left@) == text::texts(before).push(n@));
                    }
                },
                None => {},
            }
            i = i + 1;
        }
        assert(self.entries@.take(self.entries@.len() as int) == self.entries@);
        if left.len() == 0 {
            return Ok(());
        }
        let names = text::sort_distinct(&left);
        let list = text::join_text(&names, ", ");
        Err(
            Bad::docspan(text::concat2("Unknown setting(s) here: ", list.as_str()), self.span),
        )
    }
}

/// Is the word one of these?
pub fn is_among(word: &str, list: &[&str]) -> (r: bool)
    ensures
        r == words(list@).contains(word@),
{
    let mut i: usize = 0;
    while i < list.len()
        invariant
            i <= list@.len(),
            forall|k: int| 0 <= k < i ==> words(list@)[k] != word@,
        decreases list@.len() - i,
    {
        if text::same_text(list[i], word) {
            assert(words(list@)[i as int] == word@);
            return true;
        }
        i = i + 1;
    }
    false
}

proof fn lemma_unnamed(entries: Seq<Entry>, n: int)
    requires
        0 <= n <= entries.len(),
        unnamed(entries.take(n)) is Some,
    ensures
        unnamed(entries) == unnamed(entries.take(n)),
    decreases entries.len() - n,
{
    if n < entries.len() {
        assert(entries.take(n + 1).drop_last() == entries.take(n));
        lemma_unnamed(entries, n + 1);
    } else {
        assert(entries.take(n) == entries);
    }
}

/// The fault of the first node that has one.
pub open spec fn first_fault(nodes: Seq<Node>, check: spec_fn(Node) -> Option<Fault>) -> Option<
    Fault,
>
    decreases nodes.len(),
{
    if nodes.len() == 0 {
        None
    } else {
        or(first_fault(nodes.drop_last(), check), check(nodes.last()))
    }
}

/// Where no node has a fault, each of them is without one.
pub proof fn lemma_faultless(nodes: Seq<Node>, check: spec_fn(Node) -> Option<Fault>)
    requires
        first_fault(nodes, check) is None,
    ensures
        forall|n: Node| #[trigger] nodes.contains(n) ==> check(n) is None,
    decreases nodes.len(),
{
    if nodes.len() > 0 {
        let front = nodes.drop_last();
        lemma_faultless(front, check);
        assert forall|n: Node| #[trigger] nodes.contains(n) implies check(n) is None by {
            let i = choose|i: int| 0 <= i < nodes.len() && nodes[i] == n;
            if i < front.len() {
                assert(front[i] == n);
                assert(front.contains(n));
            }
        }
    }
}

/// Later nodes do not matter once there is a fault.
pub proof fn lemma_fault_stays(
    nodes: Seq<Node>,
    n: int,
    check: spec_fn(Node) -> Option<Fault>,
)
    requires
        0 <= n <= nodes.len(),
        first_fault(nodes.take(n), check) is Some,
    ensures
        first_fault(nodes, check) == first_fault(nodes.take(n), check),
    decreases nodes.len() - n,
{
    if n < nodes.len() {
        assert(nodes.take(n + 1).drop_last() == nodes.take(n));
        lemma_fault_stays(nodes, n + 1, check);
    } else {
        assert(nodes.take(n) == nodes);
    }
}

/// A fault that only a node called `name` can have.
pub open spec fn on(node: Node, name: Seq<char>, fault: Option<Fault>) -> Option<Fault> {
    if node.name@ == name {
        fault
    } else {
        None
    }
}

/// The one argument of a node, when it is a text.
pub open spec fn one_str(entries: Seq<Entry>) -> Option<Seq<char>> {
    if entries.len() == 1 {
        as_text(entries[0].value)
    } else {
        None
    }
}

/// A node should have one argument, which is a text.
pub open spec fn one_str_fault(node: Node) -> Option<Fault> {
    when(
        one_str(node.entries@) is None,
        "Incorrect argument for '"@ + node.name@ + "'"@,
        node.span,
    )
}

/// The one argument of a node, when it is a text.
pub fn extract_one_str_arg<'a>(node: &'a Node) -> (r: Result<&'a str, Bad>)
    ensures
        told(r, one_str_fault(*node)),
        r matches Ok(s) ==> one_str(node.entries@) == Some(s@),
{
    if node.entries.len() == 1 {
        if let Value::Text(s) = &node.entries[0].value {
            return Ok(s.as_str());
        }
    }
    Err(Bad::quoting("Incorrect argument for '", node.name.as_str(), "'", node.span))
}

/// The one argument of a node, when it is a flag.
pub open spec fn one_bool(entries: Seq<Entry>) -> Option<bool> {
    if entries.len() == 1 {
        match entries[0].value {
            Value::Flag(b) => Some(b),
            _ => None,
        }
    } else {
        None
    }
}

/// A node should have one argument, which is a flag.
pub open spec fn one_bool_fault(node: Node) -> Option<Fault> {
    when(
        one_bool(node.entries@) is None,
        "Incorrect argument for '"@ + node.name@ + "'"@,
        node.span,
    )
}

/// The one argument of a node, when it is a flag.
pub fn extract_one_bool_arg(node: &Node) -> (r: Result<bool, Bad>)
    ensures
        told(r, one_bool_fault(*node)),
        r matches Ok(b) ==> one_bool(node.entries@) == Some(b),
{
    if node.entries.len() == 1 {
        if let Value::Flag(b) = &node.entries[0].value {
            return Ok(*b);
        }
    }
    Err(Bad::quoting("Incorrect argument for '", node.name.as_str(), "'", node.span))
}

/// The one argument of a node, when it is an integer.
pub open spec fn one_int(entries: Seq<Entry>) -> Option<i64> {
    if entries.len() == 1 {
        match entries[0].value {
            Value::Int(n) => Some(n),
            _ => None,
        }
    } else {
        None
    }
}

/// A node should have one argument, which is an integer of 32 bits.
pub open spec fn one_u32_fault(node: Node) -> Option<Fault> {
    or(
        when(
            one_int(node.entries@) is None,
            "'"@ + node.name@ + "' should have exactly one integer argument"@,
            node.span,
        ),
        when(
            !(0 <= one_int(node.entries@)->0 <= u32::MAX),
            "'"@ + node.name@ + "' should be a positive number of days, got '"@ + text::signed(
                one_int(node.entries@)->0 as int,
            ) + "'"@,
            node.span,
        ),
    )
}

/// The one argument of a node, when it is an integer of 32 bits.
pub fn extract_one_u32_arg(node: &Node) -> (r: Result<u32, Bad>)
    ensures
        told(r, one_u32_fault(*node)),
        r matches Ok(n) ==> one_int(node.entries@) == Some(n as i64),
{
    if node.entries.len() == 1 {
        if let Value::Int(n) = &node.entries[0].value {
            if 0 <= *n && *n <= u32::MAX as i64 {
                return Ok(*n as u32);
            }
            let mut message = text::concat3(
                "'",
                node.name.as_str(),
                "' should be a positive number of days, got '",
            );
            let number = text::signed_text(*n);
            message.append(number.as_str());
            message.append("'");
            return Err(Bad::docspan(message, node.span));
        }
    }
    Err(
        Bad::quoting(
            "'",
            node.name.as_str(),
            "' should have exactly one integer argument",
            node.span,
        ),
    )
}

/// A node should lead with one unnamed text, and name the rest.
pub open spec fn lead_fault(entries: Seq<Entry>, name: Seq<char>, span: Span) -> Option<Fault> {
    if entries.len() == 0 {
        Some(("'"@ + name + "' should have an argument"@, span))
    } else if entries[0].name is Some {
        Some(("'"@ + name + "' should start with an unnamed string argument"@, span))
    } else if as_text(entries[0].value) is None {
        Some(("the argument to '"@ + name + "' should be a string"@, entries[0].span))
    } else {
        unnamed(entries.skip(1))
    }
}

/// For a node that leads with one unnamed text, like `dns "host" port=80`.
pub fn first_and_named<'a>(entries: &'a [Entry], name: &str, span: Span) -> (r: Result<
    (&'a str, Args<'a>),
    Bad,
>)
    ensures
        told(r, lead_fault(entries@, name@, span)),
        r matches Ok((first, args)) ==> as_text(entries@[0].value) == Some(first@)
            && args.entries@ == entries@.skip(1) && args.span == span,
{
    if entries.len() == 0 {
        return Err(Bad::quoting("'", name, "' should have an argument", span));
    }
    if entries[0].name.is_some() {
        return Err(
            Bad::quoting("'", name, "' should start with an unnamed string argument", span),
        );
    }
    let first = match &entries[0].value {
        Value::Text(s) => s.as_str(),
        _ => {
            return Err(
                Bad::quoting("the argument to '", name, "' should be a string", entries[0].span),
            );
        },
    };
    let rest = vstd::slice::slice_subrange(entries, 1, entries.len());
    assert(rest@ == entries@.skip(1));
    match Args::named(rest, span) {
        Ok(args) => Ok((first, args)),
        Err(b) => Err(b),
    }
}

/// Entries that should all be named texts: the first that is not.
pub open spec fn kv_fault(entries: Seq<Entry>) -> Option<Fault>
    decreases entries.len(),
{
    if entries.len() == 0 {
        None
    } else {
        let e = entries.last();
        or(
            kv_fault(entries.drop_last()),
            if e.name is None {
                Some(("arguments should be named"@, e.span))
            } else {
                when(as_text(e.value) is None, "argument values should be strings"@, e.span)
            },
        )
    }
}

proof fn lemma_kv(entries: Seq<Entry>, n: int)
    requires
        0 <= n <= entries.len(),
        kv_fault(entries.take(n)) is Some,
    ensures
        kv_fault(entries) == kv_fault(entries.take(n)),
    decreases entries.len() - n,
{
    if n < entries.len() {
        assert(entries.take(n + 1).drop_last() == entries.take(n));
        lemma_kv(entries, n + 1);
    } else {
        assert(entries.take(n) == entries);
    }
}

/// Where every entry is a named text, none is anything else.
pub proof fn lemma_kv_texts(entries: Seq<Entry>, key: Seq<char>)
    requires
        kv_fault(entries) is None,
    ensures
        str_fault(entries, key) is None,
    decreases entries.len(),
{
    if entries.len() > 0 {
        lemma_kv_texts(entries.drop_last(), key);
    }
}

/// A node should have one text, and then named texts.
pub open spec fn one_str_kv_fault(node: Node) -> Option<Fault> {
    or(
        when(
            node.entries@.len() == 0 || as_text(node.entries@[0].value) is None,
            "Incorrect argument for '"@ + node.name@ + "'"@,
            node.span,
        ),
        kv_fault(node.entries@.skip(1)),
    )
}

/// For a node with one text and then named texts.
pub fn extract_one_str_arg_with_kv_args<'a>(node: &'a Node) -> (r: Result<
    (&'a str, Args<'a>),
    Bad,
>)
    ensures
        told(r, one_str_kv_fault(*node)),
        r matches Ok((first, args)) ==> as_text(node.entries@[0].value) == Some(first@)
            && args.entries@ == node.entries@.skip(1) && args.span == node.span,
{
    let first = if node.entries.len() == 0 {
        None
    } else {
        match &node.entries[0].value {
            Value::Text(s) => Some(s.as_str()),
            _ => None,
        }
    };
    let first = match first {
        Some(s) => s,
        None => {
            return Err(
                Bad::quoting("Incorrect argument for '", node.name.as_str(), "'", node.span),
            );
        },
    };
    let rest = vstd::slice::slice_subrange(node.entries.as_slice(), 1, node.entries.len());
    assert(rest@ == node.entries@.skip(1));
    let mut i: usize = 0;
    while i < rest.len()
        invariant
            i <= rest@.len(),
            rest@ == node.entries@.skip(1),
            kv_fault(rest@.take(i as int)) is None,
            node.entries@.len() > 0,
            as_text(node.entries@[0].value) is Some,
        decreases rest@.len() - i,
    {
        let ghost next = rest@.take(i + 1);
        assert(next.drop_last() == rest@.take(i as int));
        assert(next.last() == rest@[i as int]);
        if rest[i].name.is_none() {
            proof {
                lemma_kv(rest@, i + 1);
            }
            return Err(Bad::plain("arguments should be named", rest[i].span));
        }
        match &rest[i].value {
            Value::Text(_) => {},
            _ => {
                proof {
                    lemma_kv(rest@, i + 1);
                }
                return Err(Bad::plain("argument values should be strings", rest[i].span));
            },
        }
        i = i + 1;
    }
    assert(rest@.take(rest@.len() as int) == rest@);
    Ok((first, Args { entries: rest, span: node.span }))
}

/// A section that has to be there, with a block of its own.
pub open spec fn required_fault(here: Document, name: Seq<char>) -> Option<Fault> {
    match document::find(here.nodes@, name) {
        None => Some(("'"@ + name + "' section is required"@, here.span)),
        Some(n) => when(
            n.children is None,
            "'"@ + name + "' should be a nested block"@,
            n.span,
        ),
    }
}

/// The block of a section that has to be there.
pub fn required_child_doc<'a>(here: &'a Document, name: &str) -> (r: Result<&'a Document, Bad>)
    ensures
        told(r, required_fault(*here, name@)),
        r matches Ok(d) ==> child(*here, name@) == Some(*d),
{
    match here.get(name) {
        None => Err(Bad::quoting("'", name, "' section is required", here.span)),
        Some(n) => match &n.children {
            Some(d) => Ok(d),
            None => Err(Bad::quoting("'", name, "' should be a nested block", n.span)),
        },
    }
}

/// The block of a section, if there is one.
pub open spec fn child(here: Document, name: Seq<char>) -> Option<Document> {
    match document::find(here.nodes@, name) {
        Some(n) => n.children,
        None => None,
    }
}

/// The block of a section, if there is one.
pub fn optional_child_doc<'a>(here: &'a Document, name: &str) -> (r: Option<&'a Document>)
    ensures
        match r {
            Some(d) => child(*here, name@) == Some(*d),
            None => child(*here, name@) is None,
        },
{
    match here.get(name) {
        None => None,
        Some(n) => n.children.as_ref(),
    }
}

/// Of several arguments of one name the last counts, wherever it stands, and only a name
/// that none has is not given.
pub proof fn the_last_argument_of_a_name_counts(entries: Seq<Entry>, key: Seq<char>, i: int)
    requires
        -1 <= i < entries.len(),
        forall|k: int|
            i < k < entries.len() ==> !((#[trigger] entries[k]).name matches Some(n) && n@ == key),
        i >= 0 ==> (entries[i].name matches Some(n) && n@ == key),
    ensures
        lookup(entries, key) == (if i >= 0 {
            Some(entries[i])
        } else {
            None
        }),
    decreases entries.len(),
{
    if i < entries.len() - 1 {
        let last = entries[entries.len() - 1];
        assert(!(last.name matches Some(n) && n@ == key));
        let front = entries.drop_last();
        assert forall|k: int| i < k < front.len() implies !((
        #[trigger] front[k]).name matches Some(n) && n@ == key) by {
            assert(front[k] == entries[k]);
        }
        the_last_argument_of_a_name_counts(front, key, i);
    }
}

/// An argument is read by what it is asked for: a text as a text, a flag as a flag and a
/// number that is not negative as a number. Anything else given for it is a mistake, which
/// is told where the argument stands, and what is not given is no mistake.
pub proof fn an_argument_is_what_is_asked_for(entries: Seq<Entry>, key: Seq<char>, i: int)
    requires
        -1 <= i < entries.len(),
        forall|k: int|
            i < k < entries.len() ==> !((#[trigger] entries[k]).name matches Some(n) && n@ == key),
        i >= 0 ==> (entries[i].name matches Some(n) && n@ == key),
    ensures
        i < 0 ==> str_arg(entries, key) is None && bool_arg(entries, key) is None && num_arg(
            entries,
            key,
        ) is None && str_fault(entries, key) is None && bool_fault(entries, key) is None
            && num_fault(entries, key) is None,
        i >= 0 ==> match entries[i].value {
            Value::Text(s) => str_arg(entries, key) == Some(s@) && str_fault(entries, key) is None
                && bool_fault(entries, key) is Some && num_fault(entries, key) is Some,
            Value::Flag(b) => bool_arg(entries, key) == Some(b) && bool_fault(entries, key) is None
                && str_fault(entries, key) is Some && num_fault(entries, key) is Some,
            Value::Int(n) => (if n >= 0 {
                num_arg(entries, key) == Some(n as nat) && num_fault(entries, key) is None
            } else {
                num_arg(entries, key) is None && num_fault(entries, key) is Some
            }) && str_fault(entries, key) is Some && bool_fault(entries, key) is Some,
            _ => str_fault(entries, key) is Some && bool_fault(entries, key) is Some && num_fault(
                entries,
                key,
            ) is Some,
        },
        i >= 0 ==> (str_fault(entries, key) matches Some(f) ==> f.1 == entries[i].span) && (
        bool_fault(entries, key) matches Some(f) ==> f.1 == entries[i].span) && (num_fault(
            entries,
            key,
        ) matches Some(f) ==> f.1 == entries[i].span),
{
    the_last_argument_of_a_name_counts(entries, key, i);
}

/// A line that takes one argument has it read by what it is asked for, and a line with no
/// argument or with more than one is a mistake.
pub proof fn one_argument_is_one(node: Node)
    ensures
        node.entries@.len() != 1 ==> one_str_fault(node) is Some && one_bool_fault(node) is Some
            && one_u32_fault(node) is Some,
        node.entries@.len() == 1 ==> match node.entries@[0].value {
            Value::Text(s) => one_str(node.entries@) == Some(s@) && one_str_fault(node) is None
                && one_bool_fault(node) is Some && one_u32_fault(node) is Some,
            Value::Flag(b) => one_bool(node.entries@) == Some(b) && one_bool_fault(node) is None
                && one_str_fault(node) is Some && one_u32_fault(node) is Some,
            Value::Int(n) => one_int(node.entries@) == Some(n) && one_str_fault(node) is Some
                && one_bool_fault(node) is Some && (one_u32_fault(node) is None <==> 0 <= n
                <= 0xffff_ffff),
            _ => one_str_fault(node) is Some && one_bool_fault(node) is Some && one_u32_fault(
                node,
            ) is Some,
        },
{
}

/// What is told is the fault of the first line that has one, wherever it stands, and
/// nothing only where every line is without.
pub proof fn the_first_fault_is_told(
    nodes: Seq<Node>,
    check: spec_fn(Node) -> Option<Fault>,
    i: int,
)
    requires
        0 <= i <= nodes.len(),
        forall|k: int| 0 <= k < i ==> check(#[trigger] nodes[k]) is None,
        i < nodes.len() ==> check(nodes[i]) is Some,
    ensures
        first_fault(nodes, check) == (if i < nodes.len() {
            check(nodes[i])
        } else {
            None
        }),
    decreases nodes.len(),
{
    if nodes.len() > 0 {
        let front = nodes.drop_last();
        assert forall|k: int| 0 <= k < i && k < front.len() implies check(
            #[trigger] front[k],
        ) is None by {
            assert(front[k] == nodes[k]);
        }
        if i < nodes.len() {
            the_first_fault_is_told(front, check, i);
        } else {
            assert(check(nodes[nodes.len() - 1]) is None);
            the_first_fault_is_told(front, check, front.len() as int);
        }
    }
}

/// The settings that nothing reads are all of those with a name that is not known, in
/// order, and one is enough for a fault.
pub proof fn every_unknown_setting_is_named(
    entries: Seq<Entry>,
    known: Seq<Seq<char>>,
    span: Span,
    i: int,
)
    ensures
        unread(entries, known) == entries.filter_map(
            |e: Entry|
                match e.name {
                    Some(n) => if known.contains(n@) {
                        None
                    } else {
                        Some(n@)
                    },
                    None => None,
                },
        ),
        0 <= i < entries.len() && (entries[i].name matches Some(n) && !known.contains(n@))
            ==> unread(entries, known).contains(entries[i].name->0@) && unread_fault(
            entries,
            known,
            span,
        ) is Some,
    decreases entries.len(),
{
    if entries.len() > 0 {
        let front = entries.drop_last();
        every_unknown_setting_is_named(front, known, span, i);
        if 0 <= i < entries.len() && (entries[i].name matches Some(n) && !known.contains(n@)) {
            let name = entries[i].name->0@;
            if i < front.len() {
                assert(front[i] == entries[i]);
                let k = unread(front, known).index_of(name);
                assert(unread(entries, known)[k] == name);
            } else {
                assert(unread(entries, known)[unread(front, known).len() as int] == name);
            }
        }
    }
}

/// Arguments are all named if and only if each of them is.
pub proof fn every_argument_has_to_be_named(entries: Seq<Entry>)
    ensures
        unnamed(entries) is None <==> forall|i: int|
            0 <= i < entries.len() ==> (#[trigger] entries[i]).name is Some,
        kv_fault(entries) is None <==> forall|i: int|
            0 <= i < entries.len() ==> (#[trigger] entries[i]).name is Some
                && entries[i].value is Text,
    decreases entries.len(),
{
    if entries.len() > 0 {
        let front = entries.drop_last();
        let last = entries.len() - 1;
        every_argument_has_to_be_named(front);
        assert(forall|i: int| 0 <= i < front.len() ==> #[trigger] front[i] == entries[i]);
        assert(entries[last] == entries.last());
        if unnamed(entries) is None {
            assert forall|i: int| 0 <= i < entries.len() implies (
            #[trigger] entries[i]).name is Some by {
                if i < last {
                    assert(front[i].name is Some);
                }
            }
        }
        if kv_fault(entries) is None {
            assert forall|i: int| 0 <= i < entries.len() implies (
            #[trigger] entries[i]).name is Some && entries[i].value is Text by {
                if i < last {
                    assert(front[i].name is Some && front[i].value is Text);
                }
            }
        }
    }
}

/// Of two faults the first is told, and the second only where there is no first.
pub proof fn faults_are_told_in_turn(a: Option<Fault>, b: Option<Fault>)
    ensures
        or(a, b) is None <==> a is None && b is None,
        a is Some ==> or(a, b) == a,
        a is None ==> or(a, b) == b,
{
}

/// A section that has to be there is in order if and only if its first line has a block,
/// and that block is what is read of it.
pub proof fn a_section_is_its_first_block(here: Document, name: Seq<char>, i: int)
    requires
        0 <= i <= here.nodes@.len(),
        forall|k: int| 0 <= k < i ==> (#[trigger] here.nodes@[k]).name@ != name,
        i < here.nodes@.len() ==> here.nodes@[i].name@ == name,
    ensures
        i < here.nodes@.len() ==> child(here, name) == here.nodes@[i].children,
        i == here.nodes@.len() ==> child(here, name) is None,
        required_fault(here, name) is None <==> i < here.nodes@.len()
            && here.nodes@[i].children is Some,
{
    document::the_first_of_a_name_is_found(here.nodes@, name, i);
}

} // verus!
