//! What name resolution answers.
//!
//! Every answer carries the moment it stops being valid, which is what a DNS
//! TTL is turned into before anything decides by it.
use crate::config::internal::Duration;
use crate::net::IpAddr;
use crate::text;
use vstd::prelude::*;

verus! {

/// A point in time, in milliseconds on a clock that does not go back.
pub type Moment = u128;

/// The time from `now` to `then`, and none once `then` has passed.
pub open spec fn until(then: Moment, now: Moment) -> int {
    if then > now {
        then - now
    } else {
        0
    }
}

/// The time from `now` to `then`, and none once `then` has passed.
pub fn time_until(then: Moment, now: Moment) -> (r: Duration)
    ensures
        r.millis == until(then, now),
{
    if then > now {
        Duration { millis: then - now }
    } else {
        Duration { millis: 0 }
    }
}

/// A lookup that did not produce an answer.
#[derive(Debug, PartialEq, Eq)]
pub struct ResolveError(pub String);

impl ResolveError {
    pub fn new(msg: String) -> (r: Self)
        ensures
            r.0 == msg,
    {
        ResolveError(msg)
    }

    /// The error in words.
    pub fn to_text(&self) -> (r: String)
        ensures
            r@ == self.0@,
    {
        self.0.clone()
    }
}

/// The addresses behind a hostname, and how long they may be used.
#[derive(Debug)]
pub struct Addresses {
    pub addrs: Vec<IpAddr>,
    /// The moment the answer stops being valid.
    pub valid_until: Moment,
}

/// The SRV records for a service, and how long they may be used.
#[derive(Debug)]
pub struct SrvRecords {
    pub records: Vec<SrvRecord>,
    pub valid_until: Moment,
}

/// One SRV record. Lower `priority` is preferred, `weight` is a relative share
/// within one priority, and `target` is a hostname that still needs resolving.
#[derive(Debug, Clone, PartialEq, Eq)]
pub struct SrvRecord {
    pub priority: u16,
    pub weight: u16,
    pub port: u16,
    /// The target hostname as the nameserver gave it, which for a fully
    /// qualified name has a dot behind it.
    pub target: String,
}

impl SrvRecord {
    /// A target of `.` means that the service is deliberately not offered here.
    pub open spec fn not_offered(self) -> bool {
        self.target@ == "."@
    }

    /// A target of `.` means that the service is deliberately not offered here.
    pub fn is_unavailable(&self) -> (r: bool)
        ensures
            r == self.not_offered(),
    {
        text::same_text(self.target.as_str(), ".")
    }

    /// The target as a name for TLS, which must not have a dot behind it.
    pub fn sni(&self) -> (r: String)
        ensures
            r@ == text::trim_end(self.target@, '.'),
    {
        text::trim_end_matches(self.target.as_str(), '.')
    }
}

} // verus!
