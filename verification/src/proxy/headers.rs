//! Changes made to a request's or a response's headers.
//!
//! Both directions support the same set of changes, and share one
//! implementation over [`Headers`].
use crate::config::internal::HeaderModifier;
use crate::proxy::glob;
use crate::proxy::message::{self, Header, RequestHead, RequestUri, ResponseHead};
use crate::proxy::rate_limiting;
use crate::text;
use vstd::prelude::*;

verus! {

/// Headers as name and value pairs, in order.
pub type Pairs = Seq<(Seq<char>, Seq<u8>)>;

/// The headers whose names are not among those to be dropped.
pub open spec fn without(headers: Pairs, drop: spec_fn(Seq<char>) -> bool) -> Pairs
    decreases headers.len(),
{
    if headers.len() == 0 {
        Seq::empty()
    } else {
        let front = without(headers.drop_last(), drop);
        if drop(headers.last().0) {
            front
        } else {
            front.push(headers.last())
        }
    }
}

/// The one name `key`.
pub open spec fn only(key: Seq<char>) -> spec_fn(Seq<char>) -> bool {
    |name: Seq<char>| name == key
}

/// Is there a header of that name?
pub open spec fn has(headers: Pairs, name: Seq<char>) -> bool {
    exists|i: int| 0 <= i < headers.len() && (#[trigger] headers[i]).0 == name
}

/// The header operations that a change needs, on either kind of message.
pub trait Headers: Sized {
    /// What a message is made of besides its headers.
    type Rest;

    /// The headers, in order.
    spec fn list(&self) -> Pairs;

    /// Everything but the headers.
    spec fn rest(&self) -> Self::Rest;

    /// The names of the headers, each of them once.
    fn names(&self) -> (r: Vec<String>)
        ensures
            forall|n: Seq<char>| #[trigger]
                text::texts(r@).contains(n) <==> has(self.list(), n),
            text::texts(r@).no_duplicates(),
    ;

    /// Removes every header called `key`.
    fn remove(&mut self, key: &str)
        ensures
            final(self).list() == without(old(self).list(), only(key@)),
            final(self).rest() == old(self).rest(),
    ;

    /// Sets `key` to the one value.
    fn upsert(&mut self, key: &str, value: &[u8])
        ensures
            final(self).list() == without(old(self).list(), only(key@)).push((key@, value@)),
            final(self).rest() == old(self).rest(),
    ;

    /// Adds a value for `key` to those that are there.
    fn append(&mut self, key: &str, value: &[u8])
        ensures
            final(self).list() == old(self).list().push((key@, value@)),
            final(self).rest() == old(self).rest(),
    ;
}

fn list_names(headers: &[Header]) -> (r: Vec<String>)
    ensures
        forall|n: Seq<char>| #[trigger]
            text::texts(r@).contains(n) <==> has(message::pairs(headers@), n),
        text::texts(r@).no_duplicates(),
{
    let mut out: Vec<String> = Vec::new();
    let ghost all = message::pairs(headers@);
    let mut i: usize = 0;
    while i < headers.len()
        invariant
            i <= headers@.len(),
            all == message::pairs(headers@),
            forall|n: Seq<char>| #[trigger]
                text::texts(out@).contains(n) <==> has(all.take(i as int), n),
            text::texts(out@).no_duplicates(),
        decreases headers@.len() - i,
    {
        let name = headers[i].name.as_str();
        let mut seen = false;
        let mut k: usize = 0;
        while k < out.len()
            invariant
                k <= out@.len(),
                seen == exists|m: int| 0 <= m < k && text::texts(out@)[m] == name@,
            decreases out@.len() - k,
        {
            assert(text::texts(out@)[k as int] == out@[k as int]@);
            if text::same_text(out[k].as_str(), name) {
                seen = true;
            }
            k = k + 1;
        }
        assert(seen == text::texts(out@).contains(name@));
        let ghost before = text::texts(out@);
        let ghost shorter = all.take(i as int);
        let ghost longer = all.take(i + 1);
        assert(longer == shorter.push(all[i as int]));
        assert(all[i as int].0 == name@);
        if !seen {
            out.push(name.to_owned());
            assert(text::texts(out@) == before.push(name@));
        }
        assert forall|n: Seq<char>| #[trigger] text::texts(out@).contains(n) <==> has(longer, n) by {
            if has(longer, n) {
                let m = choose|m: int| 0 <= m < longer.len() && (#[trigger] longer[m]).0 == n;
                if m < i {
                    assert(shorter[m].0 == n);
                    assert(before.contains(n));
                    let at = before.index_of(n);
                    assert(text::texts(out@)[at] == n);
                } else if !seen {
                    assert(text::texts(out@)[before.len() as int] == n);
                }
            }
            if text::texts(out@).contains(n) {
                let at = text::texts(out@).index_of(n);
                if at < before.len() {
                    assert(before[at] == n);
                    assert(before.contains(n));
                    let m = choose|m: int| 0 <= m < shorter.len() && (#[trigger] shorter[m]).0 == n;
                    assert(longer[m].0 == n);
                } else {
                    assert(longer[i as int].0 == n);
                }
            }
        }
        i = i + 1;
    }
    assert(all.take(all.len() as int) == all);
    out
}

fn list_without(headers: &mut Vec<Header>, key: &str)
    ensures
        message::pairs(final(headers)@) == without(message::pairs(old(headers)@), only(key@)),
{
    let mut kept: Vec<Header> = Vec::new();
    let ghost all = message::pairs(headers@);
    let ghost whole = headers@;
    let ghost mut done: int = 0;
    while headers.len() > 0
        invariant
            0 <= done <= whole.len(),
            headers@ == whole.skip(done),
            all == message::pairs(whole),
            message::pairs(kept@) == without(all.take(done), only(key@)),
        decreases headers@.len(),
    {
        let header = headers.remove(0);
        assert(header == whole[done]);
        assert(all.take(done + 1).drop_last() == all.take(done));
        assert(all.take(done + 1).last() == message::pair(header));
        let ghost before = kept@;
        if !text::same_text(header.name.as_str(), key) {
            kept.push(header);
            assert(message::pairs(kept@) == message::pairs(before).push(message::pair(header)));
        }
        proof {
            done = done + 1;
        }
        assert(headers@ == whole.skip(done));
    }
    assert(all.take(done) == all);
    *headers = kept;
}

fn list_append(headers: &mut Vec<Header>, key: &str, value: &[u8])
    ensures
        message::pairs(final(headers)@) == message::pairs(old(headers)@).push((key@, value@)),
{
    let ghost before = headers@;
    let header = Header { name: key.to_owned(), value: text::owned_bytes(value) };
    headers.push(header);
    assert(message::pairs(headers@) == message::pairs(before).push(message::pair(header)));
}

impl Headers for RequestHead {
    type Rest = (String, RequestUri);

    open spec fn list(&self) -> Pairs {
        message::pairs(self.headers@)
    }

    open spec fn rest(&self) -> (String, RequestUri) {
        (self.method, self.uri)
    }

    fn names(&self) -> (r: Vec<String>) {
        list_names(self.headers.as_slice())
    }

    fn remove(&mut self, key: &str) {
        list_without(&mut self.headers, key);
    }

    fn upsert(&mut self, key: &str, value: &[u8]) {
        list_without(&mut self.headers, key);
        list_append(&mut self.headers, key, value);
    }

    fn append(&mut self, key: &str, value: &[u8]) {
        list_append(&mut self.headers, key, value);
    }
}

impl Headers for ResponseHead {
    type Rest = u16;

    open spec fn list(&self) -> Pairs {
        message::pairs(self.headers@)
    }

    open spec fn rest(&self) -> u16 {
        self.status
    }

    fn names(&self) -> (r: Vec<String>) {
        list_names(self.headers.as_slice())
    }

    fn remove(&mut self, key: &str) {
        list_without(&mut self.headers, key);
    }

    fn upsert(&mut self, key: &str, value: &[u8]) {
        list_without(&mut self.headers, key);
        list_append(&mut self.headers, key, value);
    }

    fn append(&mut self, key: &str, value: &[u8]) {
        list_append(&mut self.headers, key, value);
    }
}

/// The names that a change removes.
pub open spec fn doomed(modifier: HeaderModifier) -> spec_fn(Seq<char>) -> bool {
    |name: Seq<char>|
        match modifier {
            HeaderModifier::RemoveHeaderKeyRegex { pattern } => rate_limiting::regex_finds(
                pattern.source(),
                name,
            ),
            HeaderModifier::RemoveHeaderKeyGlob { pattern } => glob::globs(
                text::unicode_lower(pattern.source()),
                text::unicode_lower(name),
            ),
            HeaderModifier::RemoveHeader { key } => name == key@,
            HeaderModifier::UpsertHeader { key, .. } => name == key@,
            HeaderModifier::AppendHeader { .. } => false,
        }
}

/// The headers after one configured change.
pub open spec fn changed(modifier: HeaderModifier, headers: Pairs) -> Pairs {
    let left = without(headers, doomed(modifier));
    match modifier {
        HeaderModifier::UpsertHeader { key, value } => left.push((key@, value@)),
        HeaderModifier::AppendHeader { key, value } => left.push((key@, value@)),
        _ => left,
    }
}

/// A change as the configuration reader makes it.
pub open spec fn modifier_wf(modifier: HeaderModifier) -> bool {
    match modifier {
        HeaderModifier::RemoveHeaderKeyGlob { pattern } => pattern.wf(),
        _ => true,
    }
}

proof fn lemma_without_agrees(
    headers: Pairs,
    f: spec_fn(Seq<char>) -> bool,
    g: spec_fn(Seq<char>) -> bool,
)
    requires
        forall|i: int| 0 <= i < headers.len() ==> f((#[trigger] headers[i]).0) == g(headers[i].0),
    ensures
        without(headers, f) == without(headers, g),
    decreases headers.len(),
{
    if headers.len() > 0 {
        assert forall|i: int| 0 <= i < headers.drop_last().len() implies f(
            (#[trigger] headers.drop_last()[i]).0,
        ) == g(headers.drop_last()[i].0) by {
            assert(headers.drop_last()[i] == headers[i]);
        }
        lemma_without_agrees(headers.drop_last(), f, g);
        assert(f(headers[headers.len() - 1].0) == g(headers[headers.len() - 1].0));
    }
}

proof fn lemma_without_twice(
    headers: Pairs,
    f: spec_fn(Seq<char>) -> bool,
    g: spec_fn(Seq<char>) -> bool,
)
    ensures
        without(without(headers, f), g) == without(
            headers,
            |n: Seq<char>| f(n) || g(n),
        ),
    decreases headers.len(),
{
    if headers.len() > 0 {
        let front = headers.drop_last();
        lemma_without_twice(front, f, g);
        if !f(headers.last().0) {
            assert(without(headers, f).drop_last() == without(front, f));
        }
    }
}

proof fn lemma_without_nothing(headers: Pairs, f: spec_fn(Seq<char>) -> bool)
    requires
        forall|i: int| 0 <= i < headers.len() ==> !f((#[trigger] headers[i]).0),
    ensures
        without(headers, f) == headers,
    decreases headers.len(),
{
    if headers.len() > 0 {
        assert forall|i: int| 0 <= i < headers.drop_last().len() implies !f(
            (#[trigger] headers.drop_last()[i]).0,
        ) by {
            assert(headers.drop_last()[i] == headers[i]);
        }
        lemma_without_nothing(headers.drop_last(), f);
        assert(!f(headers[headers.len() - 1].0));
        assert(headers.drop_last().push(headers.last()) == headers);
    }
}

/// Does the change remove headers of this name?
fn dooms(modifier: &HeaderModifier, name: &str) -> (r: bool)
    requires
        modifier_wf(*modifier),
    ensures
        r == doomed(*modifier)(name@),
{
    match modifier {
        HeaderModifier::RemoveHeaderKeyRegex { pattern } => pattern.is_match(name),
        HeaderModifier::RemoveHeaderKeyGlob { pattern } => pattern.is_match(name),
        HeaderModifier::RemoveHeader { key } => text::same_text(name, key.as_str()),
        HeaderModifier::UpsertHeader { key, .. } => text::same_text(name, key.as_str()),
        HeaderModifier::AppendHeader { .. } => false,
    }
}

/// The names among the first `n` that the change removes.
spec fn doomed_among(
    modifier: HeaderModifier,
    names: Seq<Seq<char>>,
    n: int,
) -> spec_fn(Seq<char>) -> bool {
    |name: Seq<char>|
        doomed(modifier)(name) && exists|k: int| 0 <= k < n && #[trigger] names[k] == name
}

/// Removes every header that the change dooms. The names are collected before
/// any header is removed.
fn remove_matching<H: Headers>(headers: &mut H, modifier: &HeaderModifier)
    requires
        modifier_wf(*modifier),
    ensures
        final(headers).list() == without(old(headers).list(), doomed(*modifier)),
        final(headers).rest() == old(headers).rest(),
{
    let names = headers.names();
    let ghost first = headers.list();
    let ghost all = text::texts(names@);
    let ghost kept = headers.rest();
    proof {
        lemma_without_nothing(first, doomed_among(*modifier, all, 0));
    }
    let mut i: usize = 0;
    while i < names.len()
        invariant
            i <= names@.len(),
            modifier_wf(*modifier),
            all == text::texts(names@),
            headers.list() == without(first, doomed_among(*modifier, all, i as int)),
            headers.rest() == kept,
        decreases names@.len() - i,
    {
        let ghost so_far = doomed_among(*modifier, all, i as int);
        let ghost next = doomed_among(*modifier, all, i + 1);
        let ghost key = names@[i as int]@;
        assert(all[i as int] == key);
        if dooms(modifier, names[i].as_str()) {
            headers.remove(names[i].as_str());
            proof {
                lemma_without_twice(first, so_far, only(key));
                let both = |n: Seq<char>| so_far(n) || only(key)(n);
                assert forall|k: int| 0 <= k < first.len() implies both((#[trigger] first[k]).0)
                    == next(first[k].0) by {
                    lemma_next_name(*modifier, all, i as int, first[k].0);
                }
                lemma_without_agrees(first, both, next);
            }
        } else {
            proof {
                assert forall|k: int| 0 <= k < first.len() implies so_far((#[trigger] first[k]).0)
                    == next(first[k].0) by {
                    lemma_next_name(*modifier, all, i as int, first[k].0);
                }
                lemma_without_agrees(first, so_far, next);
            }
        }
        i = i + 1;
    }
    proof {
        let by_name = doomed_among(*modifier, all, all.len() as int);
        assert forall|k: int| 0 <= k < first.len() implies by_name((#[trigger] first[k]).0)
            == doomed(*modifier)(first[k].0) by {
            assert(has(first, first[k].0));
            assert(all.contains(first[k].0));
            let at = all.index_of(first[k].0);
            assert(all[at] == first[k].0);
        }
        lemma_without_agrees(first, by_name, doomed(*modifier));
    }
}

proof fn lemma_next_name(
    modifier: HeaderModifier,
    names: Seq<Seq<char>>,
    n: int,
    name: Seq<char>,
)
    requires
        0 <= n < names.len(),
    ensures
        doomed_among(modifier, names, n + 1)(name) == (doomed_among(modifier, names, n)(name) || (
        doomed(modifier)(name) && name == names[n])),
{
    if doomed_among(modifier, names, n)(name) {
        let k = choose|k: int| 0 <= k < n && #[trigger] names[k] == name;
        assert(names[k] == name);
    }
    if doomed_among(modifier, names, n + 1)(name) {
        let k = choose|k: int| 0 <= k < n + 1 && #[trigger] names[k] == name;
        assert(names[k] == name);
    }
    assert(names[n] == names[n]);
}

/// Applies one configured change.
pub fn apply<H: Headers>(modifier: &HeaderModifier, headers: &mut H)
    requires
        modifier_wf(*modifier),
    ensures
        final(headers).list() == changed(*modifier, old(headers).list()),
        final(headers).rest() == old(headers).rest(),
{
    let ghost first = headers.list();
    match modifier {
        HeaderModifier::RemoveHeaderKeyRegex { .. } => remove_matching(headers, modifier),
        HeaderModifier::RemoveHeaderKeyGlob { .. } => remove_matching(headers, modifier),
        HeaderModifier::RemoveHeader { key } => {
            headers.remove(key.as_str());
            proof {
                lemma_without_agrees(first, only(key@), doomed(*modifier));
            }
        },
        HeaderModifier::UpsertHeader { key, value } => {
            headers.upsert(key.as_str(), value.as_slice());
            proof {
                lemma_without_agrees(first, only(key@), doomed(*modifier));
            }
        },
        HeaderModifier::AppendHeader { key, value } => {
            headers.append(key.as_str(), value.as_slice());
            proof {
                lemma_without_nothing(first, doomed(*modifier));
            }
        },
    }
}

/// The headers after a list of changes, made in turn.
pub open spec fn all_changed(modifiers: Seq<HeaderModifier>, headers: Pairs) -> Pairs
    decreases modifiers.len(),
{
    if modifiers.len() == 0 {
        headers
    } else {
        changed(modifiers.last(), all_changed(modifiers.drop_last(), headers))
    }
}

/// What is removed is removed in every copy, and no other name is touched.
pub proof fn removal_is_complete_and_exact(
    headers: Pairs,
    drop: spec_fn(Seq<char>) -> bool,
    name: Seq<char>,
)
    ensures
        message::values_of(without(headers, drop), name) == if drop(name) {
            Seq::<Seq<u8>>::empty()
        } else {
            message::values_of(headers, name)
        },
    decreases headers.len(),
{
    if headers.len() > 0 {
        removal_is_complete_and_exact(headers.drop_last(), drop, name);
        if !drop(headers.last().0) {
            assert(without(headers, drop).drop_last() == without(headers.drop_last(), drop));
        }
    }
}

/// After a header has been set it has the one value, after a value has been
/// added it has that value behind those it had, and every other header has the
/// values it had.
pub proof fn setting_replaces_and_adding_keeps(
    set: HeaderModifier,
    added: HeaderModifier,
    headers: Pairs,
    name: Seq<char>,
)
    requires
        set is UpsertHeader,
        added is AppendHeader,
    ensures
        message::values_of(changed(set, headers), name) == if name == set->UpsertHeader_key@ {
            seq![set->UpsertHeader_value@]
        } else {
            message::values_of(headers, name)
        },
        message::values_of(changed(added, headers), name) == if name
            == added->AppendHeader_key@ {
            message::values_of(headers, name).push(added->AppendHeader_value@)
        } else {
            message::values_of(headers, name)
        },
{
    removal_is_complete_and_exact(headers, doomed(set), name);
    removal_is_complete_and_exact(headers, doomed(added), name);
    assert(changed(set, headers).drop_last() == without(headers, doomed(set)));
    assert(changed(added, headers).drop_last() == without(headers, doomed(added)));
}

/// What is left after a removal are the headers whose names are not removed, in order.
pub proof fn what_is_not_removed_stays_in_order(headers: Pairs, drop: spec_fn(Seq<char>) -> bool)
    ensures
        without(headers, drop) == headers.filter(|h: (Seq<char>, Seq<u8>)| !drop(h.0)),
    decreases headers.len(),
{
    reveal(Seq::filter);
    if headers.len() > 0 {
        what_is_not_removed_stays_in_order(headers.drop_last(), drop);
    } else {
        assert(headers == Pairs::empty());
    }
}

/// Changes are made one after the other, each to what the ones before it left, and none is
/// left out.
pub proof fn changes_are_made_in_turn(
    one: Seq<HeaderModifier>,
    other: Seq<HeaderModifier>,
    single: HeaderModifier,
    headers: Pairs,
)
    ensures
        all_changed(one + other, headers) == all_changed(other, all_changed(one, headers)),
        all_changed(seq![single], headers) == changed(single, headers),
        all_changed(Seq::empty(), headers) == headers,
    decreases other.len(),
{
    assert(seq![single].drop_last() == Seq::<HeaderModifier>::empty());
    assert(all_changed(seq![single].drop_last(), headers) == headers);
    if other.len() > 0 {
        assert((one + other).drop_last() == one + other.drop_last());
        changes_are_made_in_turn(one, other.drop_last(), single, headers);
    } else {
        assert(one + other == one);
    }
}

/// What each kind of change does to a header of some name. Removing by name takes away that
/// name alone, removing by a pattern every name that the pattern matches, and only setting
/// and adding bring a header in.
pub proof fn what_each_change_does(modifier: HeaderModifier, headers: Pairs, name: Seq<char>)
    ensures
        ({
            let before = message::values_of(headers, name);
            let after = message::values_of(changed(modifier, headers), name);
            match modifier {
                HeaderModifier::RemoveHeader { key } => after == (if name == key@ {
                    Seq::<Seq<u8>>::empty()
                } else {
                    before
                }),
                HeaderModifier::RemoveHeaderKeyRegex { pattern } => after == (
                if rate_limiting::regex_finds(pattern.source(), name) {
                    Seq::<Seq<u8>>::empty()
                } else {
                    before
                }),
                HeaderModifier::RemoveHeaderKeyGlob { pattern } => after == (if glob::globs(
                    text::unicode_lower(pattern.source()),
                    text::unicode_lower(name),
                ) {
                    Seq::<Seq<u8>>::empty()
                } else {
                    before
                }),
                HeaderModifier::UpsertHeader { key, value } => after == (if name == key@ {
                    seq![value@]
                } else {
                    before
                }),
                HeaderModifier::AppendHeader { key, value } => after == (if name == key@ {
                    before.push(value@)
                } else {
                    before
                }),
            }
        }),
{
    removal_is_complete_and_exact(headers, doomed(modifier), name);
    let left = without(headers, doomed(modifier));
    match modifier {
        HeaderModifier::UpsertHeader { key, value } => {
            assert(left.push((key@, value@)).drop_last() == left);
        },
        HeaderModifier::AppendHeader { key, value } => {
            assert(left.push((key@, value@)).drop_last() == left);
        },
        _ => {},
    }
}

} // verus!
