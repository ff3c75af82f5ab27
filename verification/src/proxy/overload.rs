//! Limiting how much work a service will take on at once.
//!
//! Rate limiting answers how fast a client may ask. This answers how much is in
//! flight at once, which keeps a sudden surge away from the upstream servers.
use crate::config::internal::OverloadConfig;
use crate::proxy::message::{self, Header};
use crate::text;
use vstd::prelude::*;

verus! {

/// A service's share of the work it is willing to do at once.
#[derive(Debug)]
pub struct Overload {
    config: OverloadConfig,
    /// Requests currently being handled by this service.
    in_flight: usize,
}

/// The bytes that the names and values of the headers add up to.
pub open spec fn header_bytes(headers: Seq<(Seq<char>, Seq<u8>)>) -> nat
    decreases headers.len(),
{
    if headers.len() == 0 {
        0
    } else {
        header_bytes(headers.drop_last()) + text::utf8(headers.last().0).len()
            + headers.last().1.len()
    }
}

/// Are the headers within the configured bounds?
pub open spec fn small_enough(
    config: OverloadConfig,
    headers: Seq<(Seq<char>, Seq<u8>)>,
) -> bool {
    (config.max_headers matches Some(max) ==> headers.len() <= max) && (
    config.max_header_bytes matches Some(max) ==> header_bytes(headers) <= max)
}

proof fn lemma_bytes_grow(headers: Seq<(Seq<char>, Seq<u8>)>, n: int)
    requires
        0 <= n <= headers.len(),
    ensures
        header_bytes(headers.take(n)) <= header_bytes(headers),
    decreases headers.len() - n,
{
    if n < headers.len() {
        assert(headers.take(n + 1).drop_last() == headers.take(n));
        lemma_bytes_grow(headers, n + 1);
    } else {
        assert(headers.take(n) == headers);
    }
}

/// Is `after` what is left once a slot was asked for, and granted or not?
pub open spec fn taken(before: Overload, after: Overload, granted: bool) -> bool {
    &&& after.limits() == before.limits()
    &&& after.slots() == (if granted {
        before.with_one_more()
    } else {
        before.slots()
    })
}

/// Is `after` what is left once a slot was given back?
pub open spec fn given_back(before: Overload, after: Overload) -> bool {
    &&& after.limits() == before.limits()
    &&& after.with_one_more() == before.slots()
}

/// What happens to the slots.
pub ghost enum Event {
    /// One is asked for, and granted or not.
    Asked(bool),
    /// One is given back.
    Returned,
}

/// Does one thing after the other happen to the slots, from the first state to the last?
pub open spec fn happened(states: Seq<Overload>, events: Seq<Event>) -> bool {
    &&& states.len() == events.len() + 1
    &&& forall|i: int|
        0 <= i < events.len() ==> match #[trigger] events[i] {
            Event::Asked(granted) => taken(states[i], states[i + 1], granted),
            Event::Returned => given_back(states[i], states[i + 1]),
        }
}

/// The grants less the returns.
pub open spec fn outstanding(events: Seq<Event>) -> int
    decreases events.len(),
{
    if events.len() == 0 {
        0
    } else {
        outstanding(events.drop_last()) + match events.last() {
            Event::Asked(true) => 1,
            Event::Asked(false) => 0,
            Event::Returned => -1int,
        }
    }
}

impl Overload {
    /// What is limited.
    pub closed spec fn limits(self) -> OverloadConfig {
        self.config
    }

    /// How many slots are taken.
    pub closed spec fn slots(self) -> nat {
        self.in_flight as nat
    }

    /// No more slots are taken than there are, and none where none are counted.
    pub open spec fn wf(self) -> bool {
        match self.limits().max_concurrent_requests {
            Some(max) => self.slots() <= max,
            None => self.slots() == 0,
        }
    }

    /// Is every slot taken?
    pub open spec fn full(self) -> bool {
        self.limits().max_concurrent_requests matches Some(max) && self.slots() >= max
    }

    /// The slots that are taken once one more request has been let in.
    pub open spec fn with_one_more(self) -> nat {
        if self.limits().max_concurrent_requests is Some {
            self.slots() + 1
        } else {
            self.slots()
        }
    }

    pub fn new(config: OverloadConfig) -> (r: Self)
        ensures
            r.limits() == config,
            r.slots() == 0,
            r.wf(),
    {
        Overload { config, in_flight: 0 }
    }

    /// What is limited.
    pub fn config(&self) -> (r: &OverloadConfig)
        ensures
            *r == self.limits(),
    {
        &self.config
    }

    /// Takes a slot, if there is one. [`Self::release`] is owed for every `true`
    /// returned.
    pub fn acquire(&mut self) -> (r: bool)
        requires
            old(self).wf(),
        ensures
            r == !old(self).full(),
            taken(*old(self), *final(self), r),
            final(self).wf(),
    {
        match self.config.max_concurrent_requests {
            None => true,
            Some(max) => if self.in_flight >= max {
                false
            } else {
                self.in_flight = self.in_flight + 1;
                true
            },
        }
    }

    /// Gives a slot back.
    pub fn release(&mut self)
        requires
            old(self).wf(),
            old(self).limits().max_concurrent_requests is Some ==> old(self).slots() > 0,
        ensures
            given_back(*old(self), *final(self)),
            final(self).wf(),
    {
        if self.config.max_concurrent_requests.is_some() {
            self.in_flight = self.in_flight - 1;
        }
    }

    /// How many requests are in flight.
    pub fn in_flight(&self) -> (r: usize)
        ensures
            r == self.slots(),
    {
        self.in_flight
    }

    /// Are the request's headers within the configured bounds?
    pub fn header_within_limits(&self, headers: &[Header]) -> (r: bool)
        ensures
            r == small_enough(self.limits(), message::pairs(headers@)),
    {
        match self.config.max_headers {
            Some(max) => {
                if headers.len() > max {
                    return false;
                }
            },
            None => {},
        }
        match self.config.max_header_bytes {
            Some(max) => {
                let ghost all = message::pairs(headers@);
                let mut total: u128 = 0;
                let mut i: usize = 0;
                while i < headers.len()
                    invariant
                        i <= headers@.len(),
                        all == message::pairs(headers@),
                        self.limits().max_header_bytes == Some(max),
                        total <= max,
                        total == header_bytes(all.take(i as int)),
                    decreases headers@.len() - i,
                {
                    let ghost next = all.take(i + 1);
                    assert(next.drop_last() == all.take(i as int));
                    assert(next.last() == message::pair(headers@[i as int]));
                    let name = text::bytes_of(headers[i].name.as_str());
                    total = total + name.len() as u128 + headers[i].value.len() as u128;
                    if total > max as u128 {
                        proof {
                            lemma_bytes_grow(all, i + 1);
                        }
                        return false;
                    }
                    i = i + 1;
                }
                assert(all.take(all.len() as int) == all);
                true
            },
            None => true,
        }
    }
}

/// A request that is shed takes no slot, and one that is let in and done with
/// leaves as many taken as there were before it came.
pub proof fn slots_balance(before: Overload, during: Overload, after: Overload)
    requires
        before.wf(),
        during.limits() == before.limits(),
        after.limits() == during.limits(),
        during.slots() == before.with_one_more(),
        after.with_one_more() == during.slots(),
    ensures
        after.slots() == before.slots(),
        during.limits().max_concurrent_requests is Some ==> during.slots() > 0,
{
}

/// Where slots are counted, those that are taken are at all times the ones that were
/// granted less the ones that were given back.
pub proof fn slots_are_grants_less_returns(states: Seq<Overload>, events: Seq<Event>)
    requires
        happened(states, events),
        states[0].limits().max_concurrent_requests is Some,
    ensures
        states.last().limits() == states[0].limits(),
        states.last().slots() == states[0].slots() + outstanding(events),
    decreases events.len(),
{
    if events.len() > 0 {
        let before = states.drop_last();
        let front = events.drop_last();
        assert forall|i: int| 0 <= i < front.len() implies match #[trigger] front[i] {
            Event::Asked(granted) => taken(before[i], before[i + 1], granted),
            Event::Returned => given_back(before[i], before[i + 1]),
        } by {
            assert(front[i] == events[i]);
            assert(before[i] == states[i] && before[i + 1] == states[i + 1]);
        }
        slots_are_grants_less_returns(before, front);
        let last = events[events.len() - 1];
        assert(match last {
            Event::Asked(granted) => taken(before.last(), states.last(), granted),
            Event::Returned => given_back(before.last(), states.last()),
        });
    }
}

/// The bytes of headers add up: those of each name and each value, for every header.
pub proof fn header_bytes_add_up(
    one: Seq<(Seq<char>, Seq<u8>)>,
    other: Seq<(Seq<char>, Seq<u8>)>,
    single: (Seq<char>, Seq<u8>),
)
    ensures
        header_bytes(one + other) == header_bytes(one) + header_bytes(other),
        header_bytes(seq![single]) == text::utf8(single.0).len() + single.1.len(),
        header_bytes(Seq::empty()) == 0,
    decreases other.len(),
{
    assert(seq![single].drop_last() == Seq::<(Seq<char>, Seq<u8>)>::empty());
    assert(header_bytes(seq![single].drop_last()) == 0);
    if other.len() > 0 {
        assert((one + other).drop_last() == one + other.drop_last());
        header_bytes_add_up(one, other.drop_last(), single);
    } else {
        assert(one + other == one);
    }
}

/// Headers are too many once there are more of them than the limit, and too large once
/// they have more bytes than the limit: as many, or as large, as the limit is in order.
pub proof fn headers_are_judged_by_both_limits(
    config: OverloadConfig,
    headers: Seq<(Seq<char>, Seq<u8>)>,
)
    ensures
        config.max_headers matches Some(max) && headers.len() > max ==> !small_enough(
            config,
            headers,
        ),
        config.max_header_bytes matches Some(max) && header_bytes(headers) > max
            ==> !small_enough(config, headers),
        (config.max_headers matches Some(max) ==> headers.len() <= max) && (
        config.max_header_bytes matches Some(max) ==> header_bytes(headers) <= max)
            ==> small_enough(config, headers),
        config.max_headers is None && config.max_header_bytes is None ==> small_enough(
            config,
            headers,
        ),
{
}

/// As many requests are let in at once as the limit says, and not one more. Without a limit
/// it is never full.
pub proof fn as_many_slots_as_the_limit(o: Overload)
    requires
        o.wf(),
    ensures
        o.limits().max_concurrent_requests matches Some(max) ==> o.full() == (o.slots() == max)
            && o.slots() <= max,
        o.limits().max_concurrent_requests is None ==> !o.full() && o.slots() == 0,
{
}

} // verus!
