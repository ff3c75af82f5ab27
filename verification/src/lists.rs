//! What filtering, mapping and joining lists keeps of their members.
use vstd::prelude::*;

verus! {

/// Lists joined are the lists but the last, joined, and then the last.
pub proof fn lemma_joined_last<A>(s: Seq<Seq<A>>)
    requires
        s.len() > 0,
    ensures
        s.flatten() == s.drop_last().flatten() + s.last(),
{
    s.lemma_flatten_and_flatten_alt_are_equivalent();
    s.drop_last().lemma_flatten_and_flatten_alt_are_equivalent();
}

/// What is in a list is in the lists joined.
pub proof fn lemma_joined_has<A>(s: Seq<Seq<A>>, i: int, x: A)
    requires
        0 <= i < s.len(),
        s[i].contains(x),
    ensures
        s.flatten().contains(x),
    decreases s.len(),
{
    lemma_joined_last(s);
    let front = s.drop_last().flatten();
    if i < s.len() - 1 {
        assert(s.drop_last()[i] == s[i]);
        lemma_joined_has(s.drop_last(), i, x);
        let k = front.index_of(x);
        assert(s.flatten()[k] == x);
    } else {
        let k = s.last().index_of(x);
        assert(s.flatten()[front.len() + k] == x);
    }
}

/// What is in the lists joined is in one of them.
pub proof fn lemma_joined_from<A>(s: Seq<Seq<A>>, x: A) -> (i: int)
    requires
        s.flatten().contains(x),
    ensures
        0 <= i < s.len(),
        s[i].contains(x),
    decreases s.len(),
{
    if s.len() == 0 {
        assert(s.flatten() == Seq::<A>::empty());
        0
    } else {
        lemma_joined_last(s);
        let front = s.drop_last().flatten();
        let k = s.flatten().index_of(x);
        if k < front.len() {
            assert(front[k] == x);
            let i = lemma_joined_from(s.drop_last(), x);
            assert(s.drop_last()[i] == s[i]);
            i
        } else {
            assert(s.last()[k - front.len()] == x);
            s.len() - 1
        }
    }
}

/// A member that comes to something is among what the members come to.
pub proof fn lemma_picked_has<A, B>(s: Seq<A>, f: spec_fn(A) -> Option<B>, i: int)
    requires
        0 <= i < s.len(),
        f(s[i]) is Some,
    ensures
        s.filter_map(f).contains(f(s[i])->0),
    decreases s.len(),
{
    let front = s.drop_last().filter_map(f);
    if i < s.len() - 1 {
        assert(s.drop_last()[i] == s[i]);
        lemma_picked_has(s.drop_last(), f, i);
        let k = front.index_of(f(s[i])->0);
        assert(s.filter_map(f)[k] == f(s[i])->0);
    } else {
        assert(s.filter_map(f)[front.len() as int] == f(s[i])->0);
    }
}

/// Where every member comes to something, each does so in its place.
pub proof fn lemma_picked_all<A, B>(s: Seq<A>, f: spec_fn(A) -> Option<B>)
    requires
        forall|i: int| 0 <= i < s.len() ==> f(#[trigger] s[i]) is Some,
    ensures
        s.filter_map(f).len() == s.len(),
        forall|i: int| 0 <= i < s.len() ==> f(s[i]) == Some(#[trigger] s.filter_map(f)[i]),
    decreases s.len(),
{
    if s.len() > 0 {
        let front = s.drop_last();
        assert forall|i: int| 0 <= i < front.len() implies f(#[trigger] front[i]) is Some by {
            assert(front[i] == s[i]);
        }
        lemma_picked_all(front, f);
        assert(f(s[s.len() - 1]) is Some);
        assert forall|i: int| 0 <= i < s.len() implies f(s[i]) == Some(
            #[trigger] s.filter_map(f)[i],
        ) by {
            if i < front.len() {
                assert(front[i] == s[i]);
                assert(s.filter_map(f)[i] == front.filter_map(f)[i]);
            }
        }
    }
}

} // verus!
