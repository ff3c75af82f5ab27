//! Accepting or rejecting a request by the address it came from.
use crate::config::internal::Rejection;
use crate::net::{IpAddr, IpCidr};
use crate::proxy::client_ip;
use vstd::prelude::*;

verus! {

/// What a [`CidrRangeFilter`] does with an address that falls in its ranges.
#[derive(Debug, Clone, Copy, PartialEq, Eq, Structural)]
pub enum CidrSense {
    /// Reject an address that is inside any range.
    Deny,
    /// Reject an address that is outside every range.
    Allow,
}

/// Accepts or rejects a request based on the address it came from.
#[derive(Debug)]
pub struct CidrRangeFilter {
    pub blocks: Vec<IpCidr>,
    pub sense: CidrSense,
    pub rejection: Rejection,
}

impl CidrRangeFilter {
    /// The ranges are ranges.
    pub open spec fn wf(self) -> bool {
        client_ip::ranges(self.blocks@)
    }

    /// Which clients are turned away. A connection without an address is in no
    /// range: a deny list has nothing to say about it, and an allow list does
    /// not let it in.
    pub open spec fn turns_away(self, client: Option<IpAddr>) -> bool {
        match (self.sense, client) {
            (CidrSense::Deny, Some(ip)) => client_ip::within(ip, self.blocks@),
            (CidrSense::Deny, None) => false,
            (CidrSense::Allow, Some(ip)) => !client_ip::within(ip, self.blocks@),
            (CidrSense::Allow, None) => true,
        }
    }

    pub fn new(blocks: Vec<IpCidr>, sense: CidrSense, rejection: Rejection) -> (r: Self)
        ensures
            r == (CidrRangeFilter { blocks, sense, rejection }),
    {
        CidrRangeFilter { blocks, sense, rejection }
    }

    /// Is this address turned away?
    pub fn rejects(&self, addr: &IpAddr) -> (r: bool)
        requires
            self.wf(),
        ensures
            r == self.turns_away(Some(*addr)),
    {
        let inside = client_ip::is_trusted(addr, self.blocks.as_slice());
        match self.sense {
            CidrSense::Deny => inside,
            CidrSense::Allow => !inside,
        }
    }

    /// The answer to a client that is turned away.
    pub fn request_filter(&self, client_addr: Option<IpAddr>) -> (r: Option<&Rejection>)
        requires
            self.wf(),
        ensures
            match r {
                Some(rejection) => self.turns_away(client_addr) && *rejection == self.rejection,
                None => !self.turns_away(client_addr),
            },
    {
        let reject = match client_addr {
            Some(addr) => self.rejects(&addr),
            None => match self.sense {
                CidrSense::Deny => false,
                CidrSense::Allow => true,
            },
        };
        if reject {
            Some(&self.rejection)
        } else {
            None
        }
    }
}

/// The answer of the first filter that turns the client away.
pub open spec fn first_rejection(
    filters: Seq<CidrRangeFilter>,
    client: Option<IpAddr>,
) -> Option<Rejection>
    decreases filters.len(),
{
    if filters.len() == 0 {
        None
    } else {
        match first_rejection(filters.drop_last(), client) {
            Some(r) => Some(r),
            None => if filters.last().turns_away(client) {
                Some(filters.last().rejection)
            } else {
                None
            },
        }
    }
}

proof fn lemma_first_stays(filters: Seq<CidrRangeFilter>, n: int, client: Option<IpAddr>)
    requires
        0 <= n <= filters.len(),
        first_rejection(filters.take(n), client) is Some,
    ensures
        first_rejection(filters, client) == first_rejection(filters.take(n), client),
    decreases filters.len() - n,
{
    if n < filters.len() {
        assert(filters.take(n + 1).drop_last() == filters.take(n));
        lemma_first_stays(filters, n + 1, client);
    } else {
        assert(filters.take(n) == filters);
    }
}

/// Asks each filter in turn, and stops at the first that turns the client away.
pub fn run(filters: &[CidrRangeFilter], client: Option<IpAddr>) -> (r: Option<&Rejection>)
    requires
        forall|i: int| 0 <= i < filters@.len() ==> (#[trigger] filters@[i]).wf(),
    ensures
        match r {
            Some(rejection) => first_rejection(filters@, client) == Some(*rejection),
            None => first_rejection(filters@, client) is None,
        },
{
    let mut i: usize = 0;
    while i < filters.len()
        invariant
            i <= filters@.len(),
            forall|k: int| 0 <= k < filters@.len() ==> (#[trigger] filters@[k]).wf(),
            first_rejection(filters@.take(i as int), client) is None,
        decreases filters@.len() - i,
    {
        assert(filters@.take(i + 1).drop_last() == filters@.take(i as int));
        match filters[i].request_filter(client) {
            Some(rejection) => {
                proof {
                    lemma_first_stays(filters@, i + 1, client);
                }
                return Some(rejection);
            },
            None => {},
        }
        i = i + 1;
    }
    assert(filters@.take(filters@.len() as int) == filters@);
    None
}

/// With the same ranges, an allow list lets in exactly the addresses that a deny
/// list turns away.
pub proof fn allowing_is_the_opposite_of_denying(
    deny: CidrRangeFilter,
    allow: CidrRangeFilter,
    client: Option<IpAddr>,
)
    requires
        deny.sense is Deny,
        allow.sense is Allow,
        deny.blocks@ == allow.blocks@,
    ensures
        allow.turns_away(client) == !deny.turns_away(client),
{
}

/// A range that holds the client decides about it, wherever in the filter it stands: a
/// deny filter turns the client away, and an allow filter lets it in. Where no range holds
/// it, it is the other way round.
pub proof fn every_range_of_a_filter_counts(filter: CidrRangeFilter, client: IpAddr, i: int)
    requires
        0 <= i < filter.blocks@.len() && filter.blocks@[i].holds(client) || forall|k: int|
            0 <= k < filter.blocks@.len() ==> !(#[trigger] filter.blocks@[k]).holds(client),
    ensures
        ({
            let held = 0 <= i < filter.blocks@.len() && filter.blocks@[i].holds(client);
            &&& filter.sense is Deny ==> filter.turns_away(Some(client)) == held
            &&& filter.sense is Allow ==> filter.turns_away(Some(client)) == !held
        }),
        filter.sense is Deny ==> !filter.turns_away(None),
        filter.sense is Allow ==> filter.turns_away(None),
{
    client_ip::any_range_will_do(client, filter.blocks@, i);
}

/// A client gets the answer of the first filter that turns it away. It is turned away by
/// none only where none of them does.
pub proof fn the_first_filter_answers(
    filters: Seq<CidrRangeFilter>,
    client: Option<IpAddr>,
    i: int,
)
    requires
        0 <= i <= filters.len(),
        forall|k: int| 0 <= k < i ==> !(#[trigger] filters[k]).turns_away(client),
        i < filters.len() ==> filters[i].turns_away(client),
    ensures
        first_rejection(filters, client) == (if i < filters.len() {
            Some(filters[i].rejection)
        } else {
            None
        }),
    decreases filters.len(),
{
    if filters.len() > 0 {
        let front = filters.drop_last();
        assert forall|k: int| 0 <= k < front.len() implies #[trigger] front[k] == filters[k] by {}
        if i < front.len() {
            the_first_filter_answers(front, client, i);
        } else {
            the_first_filter_answers(front, client, front.len() as int);
        }
    }
}

} // verus!
