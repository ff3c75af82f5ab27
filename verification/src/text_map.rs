//! A map from texts to values.
use crate::text;
use vstd::prelude::*;

verus! {

/// Values found by a text. A text has at most one value.
#[derive(Debug)]
pub struct TextMap<V> {
    entries: Vec<(String, V)>,
}

/// The value that the last entry under `key` holds.
spec fn found<V>(entries: Seq<(String, V)>, key: Seq<char>) -> Option<V>
    decreases entries.len(),
{
    if entries.len() == 0 {
        None
    } else if entries.last().0@ == key {
        Some(entries.last().1)
    } else {
        found(entries.drop_last(), key)
    }
}

spec fn keyed<V>(entries: Seq<(String, V)>, key: Seq<char>) -> bool {
    exists|i: int| 0 <= i < entries.len() && (#[trigger] entries[i]).0@ == key
}

proof fn lemma_found<V>(entries: Seq<(String, V)>, key: Seq<char>, i: int)
    requires
        0 <= i < entries.len(),
        entries[i].0@ == key,
        forall|a: int, b: int|
            0 <= a < b < entries.len() ==> (#[trigger] entries[a]).0@ != (#[trigger] entries[b]).0@,
    ensures
        found(entries, key) == Some(entries[i].1),
    decreases entries.len(),
{
    if i < entries.len() - 1 {
        assert(entries[i].0@ != entries[entries.len() - 1].0@);
        let front = entries.drop_last();
        assert forall|a: int, b: int| 0 <= a < b < front.len() implies (#[trigger] front[a]).0@ != (
        #[trigger] front[b]).0@ by {
            assert(front[a] == entries[a] && front[b] == entries[b]);
        }
        lemma_found(front, key, i);
    }
}

proof fn lemma_not_found<V>(entries: Seq<(String, V)>, key: Seq<char>)
    ensures
        found(entries, key) is Some <==> keyed(entries, key),
    decreases entries.len(),
{
    if entries.len() > 0 {
        let front = entries.drop_last();
        lemma_not_found(front, key);
        if keyed(front, key) {
            let i = choose|i: int| 0 <= i < front.len() && (#[trigger] front[i]).0@ == key;
            assert(entries[i].0@ == key);
        }
        if keyed(entries, key) {
            let i = choose|i: int| 0 <= i < entries.len() && (#[trigger] entries[i]).0@ == key;
            if i < front.len() {
                assert(front[i].0@ == key);
            }
        }
        assert(entries[entries.len() - 1] == entries.last());
    }
}

impl<V> View for TextMap<V> {
    type V = Map<Seq<char>, V>;

    closed spec fn view(&self) -> Map<Seq<char>, V> {
        Map::new(
            |k: Seq<char>| found(self.entries@, k) is Some,
            |k: Seq<char>| found(self.entries@, k)->0,
        )
    }
}

impl<V> TextMap<V> {
    /// No text stands twice.
    pub closed spec fn wf(&self) -> bool {
        forall|a: int, b: int|
            0 <= a < b < self.entries@.len() ==> (#[trigger] self.entries@[a]).0@ != (
            #[trigger] self.entries@[b]).0@
    }

    /// A map that holds nothing.
    pub fn new() -> (r: Self)
        ensures
            r.wf(),
            r@ == Map::<Seq<char>, V>::empty(),
    {
        TextMap { entries: Vec::new() }
    }

    fn position(&self, key: &str) -> (r: Option<usize>)
        requires
            self.wf(),
        ensures
            match r {
                Some(i) => i < self.entries@.len() && self.entries@[i as int].0@ == key@
                    && self@.contains_key(key@) && self@[key@] == self.entries@[i as int].1,
                None => !self@.contains_key(key@) && !keyed(self.entries@, key@),
            },
    {
        let mut i: usize = 0;
        while i < self.entries.len()
            invariant
                self.wf(),
                i <= self.entries@.len(),
                forall|k: int| 0 <= k < i ==> (#[trigger] self.entries@[k]).0@ != key@,
            decreases self.entries@.len() - i,
        {
            if text::same_text(self.entries[i].0.as_str(), key) {
                proof {
                    lemma_found(self.entries@, key@, i as int);
                }
                return Some(i);
            }
            i = i + 1;
        }
        proof {
            lemma_not_found(self.entries@, key@);
        }
        None
    }

    /// The value under `key`.
    pub fn get(&self, key: &str) -> (r: Option<&V>)
        requires
            self.wf(),
        ensures
            match r {
                Some(v) => self@.contains_key(key@) && self@[key@] == *v,
                None => !self@.contains_key(key@),
            },
    {
        match self.position(key) {
            Some(i) => Some(&self.entries[i].1),
            None => None,
        }
    }

    /// Is there a value under `key`?
    pub fn contains(&self, key: &str) -> (r: bool)
        requires
            self.wf(),
        ensures
            r == self@.contains_key(key@),
    {
        self.position(key).is_some()
    }

    /// Is the map empty?
    pub fn is_empty(&self) -> (r: bool)
        requires
            self.wf(),
        ensures
            r == (self@ == Map::<Seq<char>, V>::empty()),
    {
        proof {
            if self.entries@.len() > 0 {
                let k = self.entries@[0].0@;
                lemma_found(self.entries@, k, 0);
                assert(self@.contains_key(k));
            } else {
                assert(self@ == Map::<Seq<char>, V>::empty());
            }
        }
        self.entries.len() == 0
    }

    /// Puts a value under `key`, in place of any value there.
    pub fn insert(&mut self, key: &str, value: V)
        requires
            old(self).wf(),
        ensures
            final(self).wf(),
            final(self)@ == old(self)@.insert(key@, value),
    {
        match self.position(key) {
            Some(i) => {
                let ghost before = self.entries@;
                self.entries.set(i, (key.to_owned(), value));
                proof {
                    let after = self.entries@;
                    assert forall|a: int, b: int| 0 <= a < b < after.len() implies (
                    #[trigger] after[a]).0@ != (#[trigger] after[b]).0@ by {
                        assert(before[a].0@ != before[b].0@);
                    }
                    assert forall|k: Seq<char>| (#[trigger] found(after, k)) == (if k == key@ {
                        Some(value)
                    } else {
                        found(before, k)
                    }) by {
                        if k == key@ {
                            lemma_found(after, k, i as int);
                        } else {
                            lemma_not_found(after, k);
                            lemma_not_found(before, k);
                            if keyed(before, k) {
                                let n = choose|n: int|
                                    0 <= n < before.len() && (#[trigger] before[n]).0@ == k;
                                assert(after[n] == before[n]);
                                lemma_found(after, k, n);
                                lemma_found(before, k, n);
                            }
                            if keyed(after, k) {
                                let n = choose|n: int|
                                    0 <= n < after.len() && (#[trigger] after[n]).0@ == k;
                                assert(after[n] == before[n]);
                            }
                        }
                    }
                    assert(self@ == old(self)@.insert(key@, value));
                }
            },
            None => {
                let ghost before = self.entries@;
                self.entries.push((key.to_owned(), value));
                proof {
                    let after = self.entries@;
                    assert(after.drop_last() == before);
                    assert forall|a: int, b: int| 0 <= a < b < after.len() implies (
                    #[trigger] after[a]).0@ != (#[trigger] after[b]).0@ by {
                        if b == before.len() {
                            assert(before[a].0@ != key@);
                        } else {
                            assert(before[a].0@ != before[b].0@);
                        }
                    }
                    assert(self@ == old(self)@.insert(key@, value));
                }
            },
        }
    }

    /// Takes the value under `key` out, if there is one.
    pub fn remove(&mut self, key: &str)
        requires
            old(self).wf(),
        ensures
            final(self).wf(),
            final(self)@ == old(self)@.remove(key@),
    {
        match self.position(key) {
            Some(i) => {
                let ghost before = self.entries@;
                self.entries.remove(i);
                proof {
                    let after = self.entries@;
                    let at = i as int;
                    assert(forall|n: int|
                        0 <= n < after.len() ==> #[trigger] after[n] == before[if n < at {
                            n
                        } else {
                            n + 1
                        }]);
                    assert forall|a: int, b: int| 0 <= a < b < after.len() implies (
                    #[trigger] after[a]).0@ != (#[trigger] after[b]).0@ by {
                        let a2 = if a < at {
                            a
                        } else {
                            a + 1
                        };
                        let b2 = if b < at {
                            b
                        } else {
                            b + 1
                        };
                        assert(before[a2].0@ != before[b2].0@);
                    }
                    assert forall|k: Seq<char>| (#[trigger] found(after, k)) == (if k == key@ {
                        None
                    } else {
                        found(before, k)
                    }) by {
                        lemma_not_found(after, k);
                        lemma_not_found(before, k);
                        if keyed(after, k) {
                            let n = choose|n: int|
                                0 <= n < after.len() && (#[trigger] after[n]).0@ == k;
                            let n2 = if n < at {
                                n
                            } else {
                                n + 1
                            };
                            assert(before[n2] == after[n]);
                            if k == key@ {
                                if n2 < at {
                                    assert(before[n2].0@ != before[at].0@);
                                } else {
                                    assert(before[at].0@ != before[n2].0@);
                                }
                            }
                            lemma_found(after, k, n);
                            lemma_found(before, k, n2);
                        } else if keyed(before, k) && k != key@ {
                            let n = choose|n: int|
                                0 <= n < before.len() && (#[trigger] before[n]).0@ == k;
                            let m = if n < at {
                                n
                            } else {
                                n - 1
                            };
                            assert(after[m] == before[n]);
                        }
                    }
                    assert(self@ == old(self)@.remove(key@));
                }
            },
            None => {
                assert(self@ == old(self)@.remove(key@));
            },
        }
    }
}

} // verus!
