//! The parts of a request and of a response that the rules look at.
use crate::text;
use vstd::prelude::*;

verus! {

/// One header: a name in lower case, and a value.
#[derive(Debug, Clone, PartialEq, Eq)]
pub struct Header {
    pub name: String,
    pub value: Vec<u8>,
}

/// The path of a request, and the query after it.
#[derive(Debug, Clone, PartialEq, Eq)]
pub struct Target {
    pub path: String,
    pub query: Option<String>,
}

/// The URI of a request, in its parts.
#[derive(Debug, Clone, PartialEq, Eq)]
pub struct RequestUri {
    pub scheme: Option<String>,
    pub authority: Option<String>,
    pub target: Option<Target>,
}

/// A request without its body.
#[derive(Debug, Clone, PartialEq, Eq)]
pub struct RequestHead {
    pub method: String,
    pub uri: RequestUri,
    pub headers: Vec<Header>,
}

impl RequestHead {
    /// The path that was asked for, which is empty where the URI has none.
    pub open spec fn asked_path(self) -> Seq<char> {
        match self.uri.target {
            Some(t) => t.path@,
            None => Seq::empty(),
        }
    }

    /// The path that was asked for, which is empty where the URI has none.
    pub fn path(&self) -> (r: &str)
        ensures
            r@ == self.asked_path(),
    {
        match &self.uri.target {
            Some(t) => t.path.as_str(),
            None => {
                proof {
                    reveal_strlit("");
                }
                ""
            },
        }
    }
}

/// A response without its body.
#[derive(Debug, Clone, PartialEq, Eq)]
pub struct ResponseHead {
    pub status: u16,
    pub headers: Vec<Header>,
}

/// A header as a pair of its name and its value.
pub open spec fn pair(h: Header) -> (Seq<char>, Seq<u8>) {
    (h.name@, h.value@)
}

/// A list of headers as name and value pairs, in order.
pub open spec fn pairs(headers: Seq<Header>) -> Seq<(Seq<char>, Seq<u8>)> {
    headers.map_values(|h: Header| pair(h))
}

/// The values of every header called `name`, in order.
pub open spec fn values_of(headers: Seq<(Seq<char>, Seq<u8>)>, name: Seq<char>) -> Seq<Seq<u8>>
    decreases headers.len(),
{
    if headers.len() == 0 {
        Seq::empty()
    } else {
        let front = values_of(headers.drop_last(), name);
        if headers.last().0 == name {
            front.push(headers.last().1)
        } else {
            front
        }
    }
}

/// A byte that a header value may hold and still be read as text.
pub open spec fn is_visible(b: u8) -> bool {
    0x20 <= b < 0x7f || b == 0x09
}

/// A header value read as text, when all of it is visible ASCII.
pub open spec fn value_text(value: Seq<u8>) -> Option<Seq<char>> {
    if forall|i: int| 0 <= i < value.len() ==> is_visible(#[trigger] value[i]) {
        Some(value.map_values(|b: u8| b as char))
    } else {
        None
    }
}

/// Reads a header value as text, when all of it is visible ASCII.
pub fn to_text(value: &[u8]) -> (r: Option<String>)
    ensures
        match r {
            Some(t) => value_text(value@) == Some(t@),
            None => value_text(value@) is None,
        },
{
    let mut out = String::new();
    let mut i: usize = 0;
    while i < value.len()
        invariant
            i <= value.len(),
            forall|k: int| 0 <= k < i ==> is_visible(#[trigger] value@[k]),
            out@ == value@.take(i as int).map_values(|b: u8| b as char),
        decreases value.len() - i,
    {
        let b = value[i];
        if !((0x20 <= b && b < 0x7f) || b == 0x09) {
            assert(!is_visible(value@[i as int]));
            return None;
        }
        out.push(b as char);
        i = i + 1;
    }
    assert(value@.take(value@.len() as int) == value@);
    Some(out)
}

/// How many headers are called `name`, and where the first of them stands.
pub fn find_header(headers: &[Header], name: &str) -> (r: (usize, Option<usize>))
    ensures
        r.0 == values_of(pairs(headers@), name@).len(),
        match r.1 {
            Some(i) => i < headers@.len() && r.0 > 0 && headers@[i as int].value@ == values_of(
                pairs(headers@),
                name@,
            )[0],
            None => r.0 == 0,
        },
{
    let mut count: usize = 0;
    let mut first: Option<usize> = None;
    let mut i: usize = 0;
    while i < headers.len()
        invariant
            i <= headers.len(),
            count <= i,
            count == values_of(pairs(headers@).take(i as int), name@).len(),
            match first {
                Some(k) => k < i && count > 0 && headers@[k as int].value@ == values_of(
                    pairs(headers@).take(i as int),
                    name@,
                )[0],
                None => count == 0,
            },
        decreases headers.len() - i,
    {
        let ghost next = pairs(headers@).take(i + 1);
        assert(next.drop_last() == pairs(headers@).take(i as int));
        assert(next.last() == pair(headers@[i as int]));
        if text::same_text(headers[i].name.as_str(), name) {
            if first.is_none() {
                first = Some(i);
            }
            count = count + 1;
        }
        i = i + 1;
    }
    assert(pairs(headers@).take(headers@.len() as int) == pairs(headers@));
    (count, first)
}

/// The values of a header are those of all the headers of its name, in order.
pub proof fn every_header_of_a_name_counts(
    headers: Seq<(Seq<char>, Seq<u8>)>,
    name: Seq<char>,
    i: int,
)
    ensures
        values_of(headers, name) == headers.filter(
            |h: (Seq<char>, Seq<u8>)| h.0 == name,
        ).map_values(|h: (Seq<char>, Seq<u8>)| h.1),
        0 <= i < headers.len() && headers[i].0 == name ==> values_of(headers, name).contains(
            headers[i].1,
        ),
        (forall|k: int| 0 <= k < headers.len() ==> (#[trigger] headers[k]).0 == name) ==> values_of(
            headers,
            name,
        ).len() == headers.len(),
    decreases headers.len(),
{
    reveal(Seq::filter);
    if headers.len() > 0 {
        let front = headers.drop_last();
        every_header_of_a_name_counts(front, name, i);
        let inner = values_of(front, name);
        let whole = values_of(headers, name);
        if 0 <= i < headers.len() && headers[i].0 == name {
            if i < front.len() {
                assert(front[i] == headers[i]);
                let k = inner.index_of(headers[i].1);
                assert(whole[k] == headers[i].1);
            } else {
                assert(whole[inner.len() as int] == headers[i].1);
            }
        }
        if forall|k: int| 0 <= k < headers.len() ==> (#[trigger] headers[k]).0 == name {
            assert forall|k: int| 0 <= k < front.len() implies (#[trigger] front[k]).0 == name by {
                assert(front[k] == headers[k]);
            }
            assert(headers[headers.len() - 1].0 == name);
        }
    }
}

/// A value is text if every byte of it is visible, and is read byte by byte.
pub proof fn a_value_is_read_byte_by_byte(value: Seq<u8>, i: int)
    requires
        0 <= i < value.len(),
    ensures
        value_text(value) matches Some(t) ==> t.len() == value.len() && t[i] == value[i] as char
            && (0x20 <= value[i] < 0x7f || value[i] == 0x09),
        !(0x20 <= value[i] < 0x7f || value[i] == 0x09) ==> value_text(value) is None,
        (forall|k: int| 0 <= k < value.len() ==> 0x20 <= #[trigger] value[k] < 0x7f)
            ==> value_text(value) is Some,
{
    if !is_visible(value[i]) {
        assert(value_text(value) is None);
    }
    if forall|k: int| 0 <= k < value.len() ==> 0x20 <= #[trigger] value[k] < 0x7f {
        assert forall|k: int| 0 <= k < value.len() implies is_visible(#[trigger] value[k]) by {}
    }
}

/// A header stands for its name and its value, and a list for all of them, in order.
pub proof fn every_header_is_a_pair(headers: Seq<Header>, i: int)
    requires
        0 <= i < headers.len(),
    ensures
        pairs(headers).len() == headers.len(),
        pairs(headers)[i] == (headers[i].name@, headers[i].value@),
{
}

} // verus!
