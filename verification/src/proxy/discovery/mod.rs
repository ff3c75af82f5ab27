//! Runtime discovery of upstream servers.
//!
//! A literal address is a source that yields one server and never changes; a
//! `dns` or `srv` entry is resolved again and again. Each source keeps its own
//! clock and its own last good answer, so one failing nameserver does not empty
//! the whole pool.
use crate::config::internal::{
    Duration, Peer, PeerTemplate, RefreshPolicy, UpstreamConfig, UpstreamKind,
};
use crate::lists;
use crate::net::{self, IpAddr, SocketAddr};
use crate::proxy::discovery::dns::DnsJob;
use crate::proxy::discovery::resolver::{Moment, ResolveError};
use crate::proxy::discovery::srv::SrvJob;
use crate::text;
use vstd::prelude::*;

pub mod dns;
pub mod resolver;
pub mod service;
pub mod srv;

verus! {

/// One upstream server: where it is, its share of the traffic, and how to
/// connect to it.
#[derive(Debug)]
pub struct Backend {
    pub addr: SocketAddr,
    pub weight: usize,
    pub peer: Peer,
}

impl Clone for Backend {
    fn clone(&self) -> (r: Self)
        ensures
            r == *self,
    {
        Backend { addr: self.addr, weight: self.weight, peer: self.peer.clone() }
    }
}

/// Puts a backend together.
pub fn backend_for(addr: SocketAddr, weight: usize, peer: Peer) -> (r: Backend)
    ensures
        r == (Backend { addr, weight, peer }),
{
    Backend { addr, weight, peer }
}

/// What is known of a server that was found: its address, its share, and the
/// name that is sent to it.
pub ghost struct Found {
    pub addr: SocketAddr,
    pub weight: int,
    pub sni: Seq<char>,
}

/// A backend for a server that was found, made from the template.
pub open spec fn made_for(backend: Backend, found: Found, template: PeerTemplate) -> bool {
    &&& backend.addr == found.addr
    &&& backend.weight == found.weight
    &&& backend.peer.addr == found.addr
    &&& backend.peer.tls == !(template.tls is Plain)
    &&& backend.peer.sni@ == found.sni
    &&& backend.peer.alpn == template.alpn
    &&& backend.peer.timeouts == template.timeouts
}

/// Backends for all the servers that were found, in order.
pub open spec fn stands_for(
    backends: Seq<Backend>,
    found: Seq<Found>,
    template: PeerTemplate,
) -> bool {
    backends.len() == found.len() && forall|i: int|
        0 <= i < found.len() ==> made_for(#[trigger] backends[i], found[i], template)
}

/// The most backends that are handed to a selection algorithm, which counts
/// them with sixteen bits.
pub const MAX_BACKENDS: usize = 65535;

/// A single address from the configuration file.
#[derive(Debug)]
pub struct StaticSource {
    pub backend: Backend,
    pub description: String,
}

impl StaticSource {
    /// A literal address has no name to send to it but a configured one.
    pub fn new(addr: SocketAddr, template: &PeerTemplate) -> (r: Self)
        ensures
            made_for(
                r.backend,
                Found { addr, weight: 1, sni: template.sni_for(Seq::empty()) },
                *template,
            ),
            r.description@ == net::addr_text(addr),
    {
        proof {
            reveal_strlit("");
        }
        assert(""@ == Seq::<char>::empty());
        let peer = template.peer(addr, "");
        StaticSource { backend: backend_for(addr, 1, peer), description: addr.to_text() }
    }
}

/// One resolution, without any of the scheduling around it.
#[derive(Debug)]
pub enum ResolveJob {
    Dns(DnsJob),
    Srv(SrvJob),
}

impl ResolveJob {
    /// How the job is named in logs.
    pub open spec fn label(self) -> Seq<char> {
        match self {
            ResolveJob::Dns(job) => job.description@,
            ResolveJob::Srv(job) => job.description@,
        }
    }

    /// How the job is named in logs.
    pub fn describe(&self) -> (r: &str)
        ensures
            r@ == self.label(),
    {
        match self {
            ResolveJob::Dns(job) => job.describe(),
            ResolveJob::Srv(job) => job.describe(),
        }
    }
}

/// What a polling source remembers between resolutions.
#[derive(Debug)]
pub struct RefreshState {
    /// When it was last resolved.
    pub asked: Moment,
    /// How long after that to resolve again.
    pub wait: Duration,
    /// The last successful answer, served until a new one replaces it.
    pub backends: Vec<Backend>,
    /// Whether there has ever been a successful answer.
    pub have_result: bool,
    /// Consecutive failures, which set the backoff.
    pub failures: u32,
}

impl RefreshState {
    /// When to resolve again.
    pub open spec fn due(self) -> int {
        self.asked + self.wait.millis
    }

    /// When to resolve again, as far as the clock goes.
    pub open spec fn due_moment(self) -> Moment {
        if self.due() > u128::MAX {
            u128::MAX
        } else {
            self.due() as u128
        }
    }

    /// When to resolve again, as far as the clock goes: what is due after its end is
    /// never due.
    pub fn next_due(&self) -> (r: Moment)
        ensures
            r == self.due_moment(),
    {
        if self.wait.millis > u128::MAX - self.asked {
            u128::MAX
        } else {
            self.asked + self.wait.millis
        }
    }

    /// How many failures there have been once there is one more. The count stops at its
    /// end, where the backoff has long reached its ceiling.
    pub open spec fn one_more_failure(self) -> u32 {
        if self.failures == u32::MAX {
            u32::MAX
        } else {
            (self.failures + 1) as u32
        }
    }

    /// The state after a resolution at `now`. An answer takes the place of the last one,
    /// and is good for as long as the policy makes of its TTL. A failure leaves the last
    /// answer in place and puts off the next resolution.
    pub open spec fn after(
        self,
        policy: RefreshPolicy,
        outcome: Result<(Vec<Backend>, Duration), ResolveError>,
        now: Moment,
    ) -> RefreshState {
        match outcome {
            Ok((backends, ttl)) => RefreshState {
                asked: now,
                wait: Duration { millis: policy.interval_of(ttl.millis as int) as u128 },
                backends,
                have_result: true,
                failures: 0,
            },
            Err(_) => RefreshState {
                asked: now,
                wait: Duration {
                    millis: policy.backoff_of(self.one_more_failure() as nat) as u128,
                },
                backends: self.backends,
                have_result: self.have_result,
                failures: self.one_more_failure(),
            },
        }
    }

    /// The state after the source was looked at, at `now`. Before it is due, nothing is
    /// resolved; `outcome` is what a resolution would come to.
    pub open spec fn polled(
        self,
        policy: RefreshPolicy,
        outcome: Result<(Vec<Backend>, Duration), ResolveError>,
        now: Moment,
    ) -> RefreshState {
        if now < self.due() {
            self
        } else {
            self.after(policy, outcome, now)
        }
    }
}

/// A source that is resolved again on a schedule.
///
/// The schedule comes from the policy: either the TTL of the last answer or a
/// fixed interval, clamped either way. A failed resolution keeps the previous
/// answer and backs off.
#[derive(Debug)]
pub struct PollingSource {
    pub job: ResolveJob,
    pub policy: RefreshPolicy,
    pub state: RefreshState,
}

impl PollingSource {
    /// A source that is due at once: the first resolution is what fills it.
    pub fn new(job: ResolveJob, policy: RefreshPolicy, now: Moment) -> (r: Self)
        ensures
            r.job == job,
            r.policy == policy,
            r.state.due() == now,
            r.state.backends@.len() == 0,
            !r.state.have_result,
            r.state.failures == 0,
    {
        PollingSource {
            job,
            policy,
            state: RefreshState {
                asked: now,
                wait: Duration { millis: 0 },
                backends: Vec::new(),
                have_result: false,
                failures: 0,
            },
        }
    }

    /// Is it time to resolve?
    pub fn is_due(&self, now: Moment) -> (r: bool)
        ensures
            r == (now >= self.state.due()),
    {
        now >= self.state.asked && now - self.state.asked >= self.state.wait.millis
    }

    /// Takes in what a resolution came to.
    pub fn finish(
        &mut self,
        outcome: Result<(Vec<Backend>, Duration), ResolveError>,
        now: Moment,
    )
        requires
            old(self).policy.wf(),
        ensures
            final(self).job == old(self).job,
            final(self).policy == old(self).policy,
            final(self).state == old(self).state.after(old(self).policy, outcome, now),
            now + old(self).policy.min.millis <= final(self).state.due() <= now + old(
                self,
            ).policy.max.millis,
    {
        match outcome {
            Ok((backends, ttl)) => {
                self.state.asked = now;
                self.state.wait = self.policy.interval(ttl);
                self.state.failures = 0;
                self.state.have_result = true;
                self.state.backends = backends;
            },
            Err(_) => {
                if self.state.failures < u32::MAX {
                    self.state.failures = self.state.failures + 1;
                }
                self.state.asked = now;
                self.state.wait = self.policy.backoff(self.state.failures);
            },
        }
    }
}

/// A source that is not due yet is not asked, and keeps its list. One that is due and
/// answers has the answer for its list, a fresh count of failures, and is due again after
/// the time that the policy makes of the answer's TTL. One that is due and fails keeps
/// what it had, so that a failure never takes servers away; it counts one failure more,
/// and is due again after the backoff for that many.
pub proof fn a_failure_keeps_the_last_answer(
    policy: RefreshPolicy,
    state: RefreshState,
    outcome: Result<(Vec<Backend>, Duration), ResolveError>,
    now: Moment,
)
    requires
        policy.wf(),
    ensures
        ({
            let next = state.polled(policy, outcome, now);
            &&& now < state.due() ==> next == state
            &&& now >= state.due() ==> match outcome {
                Ok((backends, ttl)) => {
                    &&& next.backends == backends
                    &&& next.have_result
                    &&& next.failures == 0
                    &&& next.due() == now + policy.interval_of(ttl.millis as int)
                },
                Err(_) => {
                    &&& next.backends == state.backends
                    &&& next.have_result == state.have_result
                    &&& next.failures == state.one_more_failure()
                    &&& next.due() == now + policy.backoff_of(state.one_more_failure() as nat)
                },
            }
            &&& now >= state.due() ==> now + policy.min.millis <= next.due() <= now
                + policy.max.millis
        }),
{
    crate::config::internal::backoff_never_shrinks(
        policy,
        state.one_more_failure() as nat,
        state.one_more_failure() as nat,
    );
}

/// A look at a source: what a resolution would come to, and when it is.
pub type Look = (Result<(Vec<Backend>, Duration), ResolveError>, Moment);

/// The state after a series of looks.
pub open spec fn looked_at(
    policy: RefreshPolicy,
    state: RefreshState,
    looks: Seq<Look>,
) -> RefreshState
    decreases looks.len(),
{
    if looks.len() == 0 {
        state
    } else {
        looked_at(policy, state, looks.drop_last()).polled(policy, looks.last().0, looks.last().1)
    }
}

/// Was the source due at the look at `i`, so that it was resolved?
pub open spec fn resolved_at(
    policy: RefreshPolicy,
    state: RefreshState,
    looks: Seq<Look>,
    i: int,
) -> bool {
    looks[i].1 >= looked_at(policy, state, looks.take(i)).due()
}

/// Did the look at `i` bring an answer?
pub open spec fn answered_at(
    policy: RefreshPolicy,
    state: RefreshState,
    looks: Seq<Look>,
    i: int,
) -> bool {
    resolved_at(policy, state, looks, i) && looks[i].0 is Ok
}

/// How often the source was resolved from the look at `i` on.
pub open spec fn resolutions_from(
    policy: RefreshPolicy,
    state: RefreshState,
    looks: Seq<Look>,
    i: int,
) -> nat
    decreases looks.len(),
{
    if looks.len() <= i || looks.len() == 0 {
        0
    } else {
        resolutions_from(policy, state, looks.drop_last(), i) + (if resolved_at(
            policy,
            state,
            looks,
            looks.len() - 1,
        ) {
            1nat
        } else {
            0nat
        })
    }
}

proof fn lemma_resolved_before(
    policy: RefreshPolicy,
    state: RefreshState,
    looks: Seq<Look>,
    i: int,
)
    requires
        0 <= i < looks.len() - 1,
    ensures
        resolved_at(policy, state, looks.drop_last(), i) == resolved_at(policy, state, looks, i),
        answered_at(policy, state, looks.drop_last(), i) == answered_at(policy, state, looks, i),
{
    assert(looks.drop_last().take(i) == looks.take(i));
}

/// However often a source is looked at, it has the last answer that it got, and has failed
/// as often as it was resolved since then, as far as that is counted.
pub proof fn the_last_answer_stands(
    policy: RefreshPolicy,
    state: RefreshState,
    looks: Seq<Look>,
    i: int,
)
    requires
        0 <= i < looks.len(),
        answered_at(policy, state, looks, i),
        forall|j: int| i < j < looks.len() ==> !(#[trigger] answered_at(policy, state, looks, j)),
    ensures
        ({
            let end = looked_at(policy, state, looks);
            let failed = resolutions_from(policy, state, looks, i + 1);
            &&& looks[i].0 matches Ok((backends, _)) && end.backends == backends
            &&& end.have_result
            &&& end.failures == (if failed > u32::MAX {
                u32::MAX as int
            } else {
                failed as int
            })
        }),
    decreases looks.len(),
{
    let front = looks.drop_last();
    let last = looks.len() - 1;
    assert(looks.take(last) == front);
    if i < last {
        lemma_resolved_before(policy, state, looks, i);
        assert forall|j: int| i < j < front.len() implies !(#[trigger] answered_at(
            policy,
            state,
            front,
            j,
        )) by {
            lemma_resolved_before(policy, state, looks, j);
            assert(!answered_at(policy, state, looks, j));
        }
        the_last_answer_stands(policy, state, front, i);
        assert(!answered_at(policy, state, looks, last));
    }
}

/// Until there is an answer, a source has what it started with.
pub proof fn nothing_is_served_before_an_answer(
    policy: RefreshPolicy,
    state: RefreshState,
    looks: Seq<Look>,
)
    requires
        forall|j: int| 0 <= j < looks.len() ==> !(#[trigger] answered_at(policy, state, looks, j)),
    ensures
        looked_at(policy, state, looks).backends == state.backends,
        looked_at(policy, state, looks).have_result == state.have_result,
    decreases looks.len(),
{
    if looks.len() > 0 {
        let front = looks.drop_last();
        let last = looks.len() - 1;
        assert(looks.take(last) == front);
        assert forall|j: int| 0 <= j < front.len() implies !(#[trigger] answered_at(
            policy,
            state,
            front,
            j,
        )) by {
            lemma_resolved_before(policy, state, looks, j);
            assert(!answered_at(policy, state, looks, j));
        }
        nothing_is_served_before_an_answer(policy, state, front);
        assert(!answered_at(policy, state, looks, last));
    }
}

/// Something that a service's servers come from.
#[derive(Debug)]
pub enum UpstreamSource {
    Fixed(StaticSource),
    Polling(PollingSource),
}

impl UpstreamSource {
    /// A policy whose bounds are the right way round.
    pub open spec fn wf(self) -> bool {
        self matches UpstreamSource::Polling(p) ==> p.policy.wf()
    }

    /// When the source would like to be polled again.
    pub open spec fn due(self) -> Option<Moment> {
        match self {
            UpstreamSource::Fixed(_) => None,
            UpstreamSource::Polling(p) => Some(p.state.due_moment()),
        }
    }

    /// The servers that the source knows of.
    pub open spec fn known(self) -> Seq<Backend> {
        match self {
            UpstreamSource::Fixed(s) => seq![s.backend],
            UpstreamSource::Polling(p) => p.state.backends@,
        }
    }

    /// Whether the source has ever had an answer.
    pub open spec fn answered(self) -> bool {
        self matches UpstreamSource::Polling(p) ==> p.state.have_result
    }

    /// How the source is named in logs.
    pub open spec fn label(self) -> Seq<char> {
        match self {
            UpstreamSource::Fixed(s) => s.description@,
            UpstreamSource::Polling(p) => p.job.label(),
        }
    }

    /// When the source would like to be polled again. Never, for one that does
    /// not change.
    pub fn next_due(&self) -> (r: Option<Moment>)
        ensures
            r == self.due(),
    {
        match self {
            UpstreamSource::Fixed(_) => None,
            UpstreamSource::Polling(p) => Some(p.state.next_due()),
        }
    }

    /// Whether the source has ever had an answer. One that has not contributes
    /// nothing.
    pub fn has_result(&self) -> (r: bool)
        ensures
            r == self.answered(),
    {
        match self {
            UpstreamSource::Fixed(_) => true,
            UpstreamSource::Polling(p) => p.state.have_result,
        }
    }

    /// How the source is named in logs.
    pub fn describe(&self) -> (r: &str)
        ensures
            r@ == self.label(),
    {
        match self {
            UpstreamSource::Fixed(s) => s.description.as_str(),
            UpstreamSource::Polling(p) => p.job.describe(),
        }
    }
}

/// The union of every source configured for one pool.
#[derive(Debug)]
pub struct RiverDiscovery {
    pub sources: Vec<UpstreamSource>,
}

/// The order that addresses stand in: IPv4 before IPv6, then by address, port
/// and zone.
pub open spec fn addr_before(a: SocketAddr, b: SocketAddr) -> bool {
    match (a.ip, b.ip) {
        (IpAddr::V4(x), IpAddr::V4(y)) => x < y || x == y && (a.port < b.port || a.port == b.port
            && a.scope < b.scope),
        (IpAddr::V6(x), IpAddr::V6(y)) => x < y || x == y && (a.port < b.port || a.port == b.port
            && a.scope < b.scope),
        (IpAddr::V4(_), IpAddr::V6(_)) => true,
        (IpAddr::V6(_), IpAddr::V4(_)) => false,
    }
}

fn is_addr_before(a: &SocketAddr, b: &SocketAddr) -> (r: bool)
    ensures
        r == addr_before(*a, *b),
{
    let later = a.port < b.port || (a.port == b.port && a.scope < b.scope);
    match (a.ip, b.ip) {
        (IpAddr::V4(x), IpAddr::V4(y)) => x < y || (x == y && later),
        (IpAddr::V6(x), IpAddr::V6(y)) => x < y || (x == y && later),
        (IpAddr::V4(_), IpAddr::V6(_)) => true,
        (IpAddr::V6(_), IpAddr::V4(_)) => false,
    }
}

/// A set of servers, in order, with one more. A server whose address is in the
/// set already changes nothing.
pub open spec fn joined(set: Seq<Backend>, b: Backend) -> Seq<Backend>
    decreases set.len(),
{
    if set.len() == 0 || addr_before(set.last().addr, b.addr) {
        set.push(b)
    } else if set.last().addr == b.addr {
        set
    } else {
        joined(set.drop_last(), b).push(set.last())
    }
}

/// The set that servers make up, taken in turn.
pub open spec fn gathered(found: Seq<Backend>) -> Seq<Backend>
    decreases found.len(),
{
    if found.len() == 0 {
        Seq::empty()
    } else {
        joined(gathered(found.drop_last()), found.last())
    }
}

/// The servers that the sources know of, in the order of the sources.
pub open spec fn all_known(sources: Seq<UpstreamSource>) -> Seq<Backend>
    decreases sources.len(),
{
    if sources.len() == 0 {
        Seq::empty()
    } else {
        all_known(sources.drop_last()) + sources.last().known()
    }
}

/// Has any of the sources ever had an answer?
pub open spec fn any_answered(sources: Seq<UpstreamSource>) -> bool {
    exists|i: int| 0 <= i < sources.len() && (#[trigger] sources[i]).answered()
}

/// What the sources are called.
pub open spec fn labels(sources: Seq<UpstreamSource>) -> Seq<Seq<char>> {
    sources.map_values(|s: UpstreamSource| s.label())
}

/// The earlier of two moments.
pub open spec fn sooner(a: Option<Moment>, b: Option<Moment>) -> Option<Moment> {
    match (a, b) {
        (Some(x), Some(y)) => if y < x {
            Some(y)
        } else {
            Some(x)
        },
        (Some(x), None) => Some(x),
        (None, _) => b,
    }
}

/// The earlier of two moments.
pub fn soonest(a: Option<Moment>, b: Option<Moment>) -> (r: Option<Moment>)
    ensures
        r == sooner(a, b),
{
    match (a, b) {
        (Some(x), Some(y)) => if y < x {
            Some(y)
        } else {
            Some(x)
        },
        (Some(x), None) => Some(x),
        (None, _) => b,
    }
}

/// The soonest that any source wants to be polled.
pub open spec fn first_due(sources: Seq<UpstreamSource>) -> Option<Moment>
    decreases sources.len(),
{
    if sources.len() == 0 {
        None
    } else {
        sooner(first_due(sources.drop_last()), sources.last().due())
    }
}

/// The source that an entry of the configuration stands for.
pub open spec fn source_is(source: UpstreamSource, config: UpstreamConfig, now: Moment) -> bool {
    match config.kind {
        UpstreamKind::Static { addr } => source matches UpstreamSource::Fixed(s) && made_for(
            s.backend,
            Found { addr, weight: 1, sni: config.peer.sni_for(Seq::empty()) },
            config.peer,
        ) && s.description@ == net::addr_text(addr),
        UpstreamKind::Dns { host, port, refresh } => source matches UpstreamSource::Polling(p)
            && p.policy == refresh && p.state.due() == now && !p.state.have_result
            && p.state.backends@.len() == 0 && p.state.failures == 0 && (
        p.job matches ResolveJob::Dns(job) && job.host@ == host@ && job.port == port
            && job.template == config.peer && job.description@ == "dns "@ + host@ + ":"@
            + text::decimal(port as nat)),
        UpstreamKind::Srv { name, refresh } => source matches UpstreamSource::Polling(p)
            && p.policy == refresh && p.state.due() == now && !p.state.have_result
            && p.state.backends@.len() == 0 && p.state.failures == 0 && (
        p.job matches ResolveJob::Srv(job) && job.name@ == name@ && job.template == config.peer
            && job.description@ == "srv "@ + name@),
    }
}

proof fn lemma_joined_at(set: Seq<Backend>, b: Backend, at: int)
    requires
        0 <= at <= set.len(),
        forall|k: int|
            at <= k < set.len() ==> addr_before(b.addr, (#[trigger] set[k]).addr),
        at > 0 ==> !addr_before(b.addr, set[at - 1].addr),
    ensures
        joined(set, b) == if at > 0 && set[at - 1].addr == b.addr {
            set
        } else {
            set.insert(at, b)
        },
    decreases set.len(),
{
    if at == set.len() {
        if at > 0 {
            assert(set.last() == set[at - 1]);
            if set.last().addr != b.addr {
                lemma_addresses_compare(set.last().addr, b.addr);
            }
        }
        assert(set.insert(at, b) == set.push(b));
    } else {
        assert(addr_before(b.addr, set[set.len() - 1].addr));
        lemma_joined_at(set.drop_last(), b, at);
        assert(set.insert(at, b) == set.drop_last().insert(at, b).push(set.last()));
        assert(set.drop_last().push(set.last()) == set);
    }
}

proof fn lemma_addresses_compare(a: SocketAddr, b: SocketAddr)
    ensures
        !(addr_before(a, b) && addr_before(b, a)),
        !addr_before(a, a),
        addr_before(a, b) || addr_before(b, a) || a == b,
{
}

fn add_to(set: &mut Vec<Backend>, b: &Backend)
    ensures
        final(set)@ == joined(old(set)@, *b),
{
    let mut at: usize = set.len();
    while at > 0 && is_addr_before(&b.addr, &set[at - 1].addr)
        invariant
            at <= set@.len(),
            forall|k: int|
                at <= k < set@.len() ==> addr_before(b.addr, (#[trigger] set@[k]).addr),
        decreases at,
    {
        at = at - 1;
    }
    proof {
        lemma_joined_at(set@, *b, at as int);
    }
    if at > 0 && set[at - 1].addr == b.addr {
        return ;
    }
    set.insert(at, b.clone());
}

fn add_all(set: &mut Vec<Backend>, found: &[Backend], Ghost(before): Ghost<Seq<Backend>>)
    requires
        old(set)@ == gathered(before),
    ensures
        final(set)@ == gathered(before + found@),
{
    let mut i: usize = 0;
    assert(before + found@.take(0) == before);
    while i < found.len()
        invariant
            i <= found@.len(),
            set@ == gathered(before + found@.take(i as int)),
        decreases found@.len() - i,
    {
        let ghost next = before + found@.take(i + 1);
        assert(next.drop_last() == before + found@.take(i as int));
        assert(next.last() == found@[i as int]);
        add_to(set, &found[i]);
        i = i + 1;
    }
    assert(found@.take(found@.len() as int) == found@);
}

impl RiverDiscovery {
    pub fn new(sources: Vec<UpstreamSource>) -> (r: Self)
        ensures
            r.sources == sources,
    {
        RiverDiscovery { sources }
    }

    /// Builds the sources that a `connectors` block names, in order.
    pub fn from_config(upstreams: Vec<UpstreamConfig>, now: Moment) -> (r: Self)
        ensures
            r.sources@.len() == upstreams@.len(),
            forall|i: int|
                0 <= i < upstreams@.len() ==> source_is(
                    #[trigger] r.sources@[i],
                    upstreams@[i],
                    now,
                ),
    {
        let mut rest = upstreams;
        let mut sources: Vec<UpstreamSource> = Vec::new();
        let ghost mut done: int = 0;
        while rest.len() > 0
            invariant
                0 <= done <= upstreams@.len(),
                rest@ == upstreams@.skip(done),
                sources@.len() == done,
                forall|i: int|
                    0 <= i < done ==> source_is(#[trigger] sources@[i], upstreams@[i], now),
            decreases rest@.len(),
        {
            let config = rest.remove(0);
            assert(config == upstreams@[done]);
            let source = match config.kind {
                UpstreamKind::Static { addr } => UpstreamSource::Fixed(
                    StaticSource::new(addr, &config.peer),
                ),
                UpstreamKind::Dns { host, port, refresh } => UpstreamSource::Polling(
                    PollingSource::new(
                        ResolveJob::Dns(DnsJob::new(host.as_str(), port, config.peer)),
                        refresh,
                        now,
                    ),
                ),
                UpstreamKind::Srv { name, refresh } => UpstreamSource::Polling(
                    PollingSource::new(
                        ResolveJob::Srv(SrvJob::new(name.as_str(), config.peer)),
                        refresh,
                        now,
                    ),
                ),
            };
            sources.push(source);
            proof {
                done = done + 1;
            }
            assert(rest@ == upstreams@.skip(done));
        }
        RiverDiscovery { sources }
    }

    /// Does anything here need resolving again while the service runs?
    pub fn is_dynamic(&self) -> (r: bool)
        ensures
            r == exists|i: int|
                0 <= i < self.sources@.len() && (#[trigger] self.sources@[i]).due() is Some,
    {
        let mut i: usize = 0;
        while i < self.sources.len()
            invariant
                i <= self.sources@.len(),
                forall|k: int| 0 <= k < i ==> (#[trigger] self.sources@[k]).due() is None,
            decreases self.sources@.len() - i,
        {
            if self.sources[i].next_due().is_some() {
                return true;
            }
            i = i + 1;
        }
        false
    }

    /// The soonest that any source wants to be polled.
    pub fn next_due(&self) -> (r: Option<Moment>)
        ensures
            r == first_due(self.sources@),
    {
        let mut due: Option<Moment> = None;
        let mut i: usize = 0;
        while i < self.sources.len()
            invariant
                i <= self.sources@.len(),
                due == first_due(self.sources@.take(i as int)),
            decreases self.sources@.len() - i,
        {
            assert(self.sources@.take(i + 1).drop_last() == self.sources@.take(i as int));
            due = soonest(due, self.sources[i].next_due());
            i = i + 1;
        }
        assert(self.sources@.take(self.sources@.len() as int) == self.sources@);
        due
    }

    /// The servers of every source as one set, in the order of their addresses.
    ///
    /// Where two sources name one address the earlier source says how to
    /// connect to it. Nothing but an error can be said while no source has ever
    /// had an answer, so that whoever asks keeps the set it has.
    pub fn collect(&self) -> (r: Result<Vec<Backend>, String>)
        ensures
            r is Ok == any_answered(self.sources@),
            match r {
                Ok(set) => {
                    let whole = gathered(all_known(self.sources@));
                    set@ == if whole.len() > MAX_BACKENDS {
                        whole.take(MAX_BACKENDS as int)
                    } else {
                        whole
                    }
                },
                Err(msg) => msg@ == "no upstream source has produced a result yet: "@ + text::join(
                    labels(self.sources@),
                    ", "@,
                ),
            },
    {
        let mut set: Vec<Backend> = Vec::new();
        let mut names: Vec<String> = Vec::new();
        let mut known = false;
        let mut i: usize = 0;
        while i < self.sources.len()
            invariant
                i <= self.sources@.len(),
                known == exists|k: int| 0 <= k < i && (#[trigger] self.sources@[k]).answered(),
                text::texts(names@) == labels(self.sources@).take(i as int),
                set@ == gathered(all_known(self.sources@.take(i as int))),
            decreases self.sources@.len() - i,
        {
            let ghost before = all_known(self.sources@.take(i as int));
            let ghost names_before = names@;
            assert(self.sources@.take(i + 1).drop_last() == self.sources@.take(i as int));
            assert(self.sources@.take(i + 1).last() == self.sources@[i as int]);
            if self.sources[i].has_result() {
                known = true;
            }
            match &self.sources[i] {
                UpstreamSource::Fixed(s) => {
                    add_to(&mut set, &s.backend);
                    assert((before + seq![s.backend]).drop_last() == before);
                },
                UpstreamSource::Polling(p) => {
                    add_all(&mut set, p.state.backends.as_slice(), Ghost(before));
                },
            }
            let name = self.sources[i].describe().to_owned();
            names.push(name);
            assert(text::texts(names@) == text::texts(names_before).push(name@));
            assert(labels(self.sources@).take(i + 1) == labels(self.sources@).take(i as int).push(
                labels(self.sources@)[i as int],
            ));
            i = i + 1;
        }
        assert(self.sources@.take(self.sources@.len() as int) == self.sources@);
        assert(labels(self.sources@).take(self.sources@.len() as int) == labels(self.sources@));
        if !known {
            let list = text::join_text(names.as_slice(), ", ");
            return Err(
                text::concat2("no upstream source has produced a result yet: ", list.as_str()),
            );
        }
        if set.len() > MAX_BACKENDS {
            set.truncate(MAX_BACKENDS);
        }
        Ok(set)
    }
}

/// The servers stand in the order of their addresses, none of them twice.
pub open spec fn is_set(set: Seq<Backend>) -> bool {
    forall|i: int, j: int|
        0 <= i < j < set.len() ==> addr_before(
            (#[trigger] set[i]).addr,
            (#[trigger] set[j]).addr,
        )
}

/// Is there a server at that address?
pub open spec fn at_address(set: Seq<Backend>, addr: SocketAddr) -> bool {
    exists|i: int| 0 <= i < set.len() && (#[trigger] set[i]).addr == addr
}

proof fn lemma_joined(set: Seq<Backend>, b: Backend)
    requires
        is_set(set),
    ensures
        is_set(joined(set, b)),
        forall|x: Backend| #[trigger]
            joined(set, b).contains(x) <==> set.contains(x) || x == b && !at_address(set, b.addr),
    decreases set.len(),
{
    let result = joined(set, b);
    if set.len() == 0 {
        assert(result.contains(b)) by {
            assert(result[0] == b);
        }
    } else if addr_before(set.last().addr, b.addr) {
        assert forall|i: int, j: int| 0 <= i < j < result.len() implies addr_before(
            (#[trigger] result[i]).addr,
            (#[trigger] result[j]).addr,
        ) by {
            if j == set.len() && i < set.len() - 1 {
                assert(addr_before(set[i].addr, set[set.len() - 1].addr));
            }
        }
        assert(!at_address(set, b.addr)) by {
            if at_address(set, b.addr) {
                let k = choose|k: int| 0 <= k < set.len() && (#[trigger] set[k]).addr == b.addr;
                if k < set.len() - 1 {
                    assert(addr_before(set[k].addr, set[set.len() - 1].addr));
                }
            }
        }
        assert forall|x: Backend| #[trigger] result.contains(x) <==> set.contains(x) || x == b by {
            if set.contains(x) {
                assert(result[set.index_of(x)] == x);
            }
            if x == b {
                assert(result[set.len() as int] == x);
            }
        }
    } else if set.last().addr == b.addr {
        assert(set[set.len() - 1].addr == b.addr);
    } else {
        let front = set.drop_last();
        let last = set.last();
        lemma_joined(front, b);
        lemma_addresses_compare(last.addr, b.addr);
        let inner = joined(front, b);
        assert forall|x: Backend| #[trigger] inner.contains(x) implies addr_before(
            x.addr,
            last.addr,
        ) by {
            if front.contains(x) {
                let k = front.index_of(x);
                assert(addr_before(set[k].addr, set[set.len() - 1].addr));
            }
        }
        assert forall|i: int, j: int| 0 <= i < j < result.len() implies addr_before(
            (#[trigger] result[i]).addr,
            (#[trigger] result[j]).addr,
        ) by {
            if j == inner.len() {
                assert(inner.contains(inner[i]));
            } else {
                assert(result[i] == inner[i] && result[j] == inner[j]);
            }
        }
        assert(at_address(front, b.addr) <==> at_address(set, b.addr)) by {
            if at_address(front, b.addr) {
                let k = choose|k: int| 0 <= k < front.len() && (#[trigger] front[k]).addr == b.addr;
                assert(set[k].addr == b.addr);
            }
            if at_address(set, b.addr) {
                let k = choose|k: int| 0 <= k < set.len() && (#[trigger] set[k]).addr == b.addr;
                assert(front[k].addr == b.addr);
            }
        }
        assert forall|x: Backend| #[trigger] result.contains(x) <==> set.contains(x) || x == b
            && !at_address(set, b.addr) by {
            if result.contains(x) {
                let k = result.index_of(x);
                if k < inner.len() {
                    assert(inner[k] == x);
                    assert(inner.contains(x));
                    if front.contains(x) {
                        assert(set[front.index_of(x)] == x);
                    }
                } else {
                    assert(set[set.len() - 1] == x);
                }
            }
            if set.contains(x) {
                let k = set.index_of(x);
                if k < front.len() {
                    assert(front[k] == x);
                    assert(inner.contains(x));
                    assert(result[inner.index_of(x)] == x);
                } else {
                    assert(result[inner.len() as int] == x);
                }
            }
            if x == b && !at_address(set, b.addr) {
                assert(inner.contains(x));
                assert(result[inner.index_of(x)] == x);
            }
        }
    }
}

/// Is `b` in the list, with nothing of its address before it?
pub open spec fn is_first_at_its_address(found: Seq<Backend>, b: Backend) -> bool {
    exists|i: int| 0 <= i < found.len() && #[trigger] found[i] == b && !at_address(found.take(i), b.addr)
}

/// No address is in the set twice, and of the servers that were found at one
/// address the first is in it: the order of the sources decides how to connect.
pub proof fn the_first_source_of_an_address_wins(found: Seq<Backend>)
    ensures
        is_set(gathered(found)),
        forall|b: Backend| #[trigger]
            gathered(found).contains(b) <==> is_first_at_its_address(found, b),
    decreases found.len(),
{
    if found.len() > 0 {
        let front = found.drop_last();
        let last = found.last();
        the_first_source_of_an_address_wins(front);
        lemma_joined(gathered(front), last);
        assert(at_address(gathered(front), last.addr) <==> at_address(front, last.addr)) by {
            if at_address(gathered(front), last.addr) {
                let k = choose|k: int|
                    0 <= k < gathered(front).len() && (#[trigger] gathered(front)[k]).addr
                        == last.addr;
                assert(gathered(front).contains(gathered(front)[k]));
                let i = choose|i: int|
                    0 <= i < front.len() && #[trigger] front[i] == gathered(front)[k];
                assert(front[i].addr == last.addr);
            }
            if at_address(front, last.addr) {
                lemma_first_exists(front, last.addr);
                let b = choose|b: Backend|
                    #[trigger] is_first_at_its_address(front, b) && b.addr == last.addr;
                assert(gathered(front).contains(b));
                let k = gathered(front).index_of(b);
                assert(gathered(front)[k].addr == last.addr);
            }
        }
        assert forall|b: Backend| #[trigger] gathered(found).contains(b) <==> is_first_at_its_address(
            found,
            b,
        ) by {
            if is_first_at_its_address(front, b) {
                let i = choose|i: int|
                    0 <= i < front.len() && #[trigger] front[i] == b && !at_address(
                        front.take(i),
                        b.addr,
                    );
                assert(found[i] == b);
                assert(found.take(i) == front.take(i));
            }
            if b == last && !at_address(front, last.addr) {
                assert(found[found.len() - 1] == b);
                assert(found.take(found.len() - 1) == front);
            }
            if is_first_at_its_address(found, b) {
                let i = choose|i: int|
                    0 <= i < found.len() && #[trigger] found[i] == b && !at_address(
                        found.take(i),
                        b.addr,
                    );
                if i < front.len() {
                    assert(front[i] == b);
                    assert(found.take(i) == front.take(i));
                    assert(is_first_at_its_address(front, b));
                } else {
                    assert(found.take(i) == front);
                }
            }
        }
    } else {
        assert forall|b: Backend| !gathered(found).contains(b) by {}
    }
}

proof fn lemma_first_exists(found: Seq<Backend>, addr: SocketAddr)
    requires
        at_address(found, addr),
    ensures
        exists|b: Backend| #[trigger] is_first_at_its_address(found, b) && b.addr == addr,
    decreases found.len(),
{
    let k = choose|k: int| 0 <= k < found.len() && (#[trigger] found[k]).addr == addr;
    if at_address(found.take(k), addr) {
        lemma_first_exists(found.take(k), addr);
        let b = choose|b: Backend|
            #[trigger] is_first_at_its_address(found.take(k), b) && b.addr == addr;
        let i = choose|i: int|
            0 <= i < k && #[trigger] found.take(k)[i] == b && !at_address(
                found.take(k).take(i),
                b.addr,
            );
        assert(found[i] == b);
        assert(found.take(k).take(i) == found.take(i));
        assert(is_first_at_its_address(found, b));
    } else {
        assert(is_first_at_its_address(found, found[k]));
    }
}

proof fn lemma_all_known(sources: Seq<UpstreamSource>)
    ensures
        all_known(sources) == sources.map_values(|s: UpstreamSource| s.known()).flatten(),
    decreases sources.len(),
{
    let all = sources.map_values(|s: UpstreamSource| s.known());
    if sources.len() > 0 {
        lemma_all_known(sources.drop_last());
        lists::lemma_joined_last(all);
        assert(all.drop_last() == sources.drop_last().map_values(|s: UpstreamSource| s.known()));
    }
}

/// The servers of a pool are those of all its sources, in the order of the sources: a fixed
/// source has its one server, and one that is polled has all of its last answer.
pub proof fn every_source_adds_its_servers(sources: Seq<UpstreamSource>, i: int, b: Backend)
    requires
        0 <= i < sources.len(),
    ensures
        all_known(sources) == sources.map_values(|s: UpstreamSource| s.known()).flatten(),
        match sources[i] {
            UpstreamSource::Fixed(s) => all_known(sources).contains(s.backend),
            UpstreamSource::Polling(p) => p.state.backends@.contains(b) ==> all_known(
                sources,
            ).contains(b),
        },
{
    let all = sources.map_values(|s: UpstreamSource| s.known());
    lemma_all_known(sources);
    match sources[i] {
        UpstreamSource::Fixed(s) => {
            assert(all[i][0] == s.backend);
            lists::lemma_joined_has(all, i, s.backend);
        },
        UpstreamSource::Polling(p) => {
            if p.state.backends@.contains(b) {
                lists::lemma_joined_has(all, i, b);
            }
        },
    }
}

/// Every address that a source knows of is one of the pool's, and a pool has no address
/// that no source knows of.
pub proof fn a_pool_has_every_address(sources: Seq<UpstreamSource>, addr: SocketAddr)
    ensures
        at_address(gathered(all_known(sources)), addr) <==> at_address(all_known(sources), addr),
{
    let found = all_known(sources);
    let set = gathered(found);
    the_first_source_of_an_address_wins(found);
    if at_address(found, addr) {
        lemma_first_exists(found, addr);
        let b = choose|b: Backend| #[trigger] is_first_at_its_address(found, b) && b.addr == addr;
        assert(set.contains(b));
        assert(set[set.index_of(b)].addr == addr);
    }
    if at_address(set, addr) {
        let k = choose|k: int| 0 <= k < set.len() && (#[trigger] set[k]).addr == addr;
        assert(set.contains(set[k]));
        let i = choose|i: int| 0 <= i < found.len() && #[trigger] found[i] == set[k];
        assert(found[i].addr == addr);
    }
}

/// A pool has had an answer if and only if one of its sources has, whichever that is. A
/// fixed source counts as answered.
pub proof fn any_answer_will_do(sources: Seq<UpstreamSource>, i: int)
    ensures
        0 <= i < sources.len() && sources[i] is Fixed ==> any_answered(sources),
        0 <= i < sources.len() && (sources[i] matches UpstreamSource::Polling(p)
            && p.state.have_result) ==> any_answered(sources),
        (forall|k: int|
            0 <= k < sources.len() ==> ((#[trigger] sources[k]) matches UpstreamSource::Polling(p)
                && !p.state.have_result)) ==> !any_answered(sources),
{
    if 0 <= i < sources.len() && sources[i].answered() {
        assert(any_answered(sources));
    }
}

/// A pool wants to be polled when the first of its sources does: no source is due before,
/// and one is due then. It never does only where no source ever does.
pub proof fn a_pool_is_due_with_its_first_source(sources: Seq<UpstreamSource>)
    ensures
        match first_due(sources) {
            Some(due) => {
                &&& exists|i: int| 0 <= i < sources.len() && (#[trigger] sources[i]).due() == Some(due)
                &&& forall|i: int|
                    0 <= i < sources.len() ==> ((#[trigger] sources[i]).due() matches Some(other)
                        ==> due <= other)
            },
            None => forall|i: int| 0 <= i < sources.len() ==> (#[trigger] sources[i]).due() is None,
        },
    decreases sources.len(),
{
    if sources.len() > 0 {
        let front = sources.drop_last();
        let last = sources.len() - 1;
        a_pool_is_due_with_its_first_source(front);
        assert forall|i: int| 0 <= i < front.len() implies #[trigger] front[i] == sources[i] by {}
        match first_due(sources) {
            Some(due) => {
                if first_due(front) == Some(due) {
                    let i = choose|i: int|
                        0 <= i < front.len() && (#[trigger] front[i]).due() == Some(due);
                    assert(sources[i].due() == Some(due));
                } else {
                    assert(sources[last].due() == Some(due));
                }
                assert forall|i: int| 0 <= i < sources.len() implies ((
                #[trigger] sources[i]).due() matches Some(other) ==> due <= other) by {
                    if i < last {
                        assert(front[i] == sources[i]);
                    }
                }
            },
            None => {
                assert forall|i: int| 0 <= i < sources.len() implies (
                #[trigger] sources[i]).due() is None by {
                    if i < last {
                        assert(front[i] == sources[i]);
                    }
                }
            },
        }
    }
}

/// A source is named by its description, and all of them are, in order.
pub proof fn every_source_is_named(sources: Seq<UpstreamSource>, i: int)
    requires
        0 <= i < sources.len(),
    ensures
        labels(sources).len() == sources.len(),
        labels(sources)[i] == (match sources[i] {
            UpstreamSource::Fixed(s) => s.description@,
            UpstreamSource::Polling(p) => match p.job {
                ResolveJob::Dns(job) => job.description@,
                ResolveJob::Srv(job) => job.description@,
            },
        }),
{
}

/// Each server that was found has a backend, in its place: at its address, with its share,
/// and reached as the template says.
pub proof fn every_server_found_has_a_backend(
    backends: Seq<Backend>,
    found: Seq<Found>,
    template: PeerTemplate,
    i: int,
)
    requires
        stands_for(backends, found, template),
        0 <= i < found.len(),
    ensures
        backends.len() == found.len(),
        backends[i].addr == found[i].addr,
        backends[i].weight == found[i].weight,
        backends[i].peer.addr == found[i].addr,
        backends[i].peer.tls <==> !(template.tls is Plain),
        backends[i].peer.sni@ == found[i].sni,
        backends[i].peer.alpn == template.alpn,
        backends[i].peer.timeouts == template.timeouts,
{
    assert(made_for(backends[i], found[i], template));
}

/// Of two different addresses one stands before the other, and not both; no address stands
/// before itself, and the order carries over.
pub proof fn addresses_stand_in_one_order(a: SocketAddr, b: SocketAddr, c: SocketAddr)
    ensures
        !addr_before(a, a),
        a != b ==> addr_before(a, b) != addr_before(b, a),
        addr_before(a, b) && addr_before(b, c) ==> addr_before(a, c),
        a.ip is V4 && b.ip is V6 ==> addr_before(a, b),
{
}

/// The sooner of two moments is one of them, and neither comes before it.
pub proof fn the_sooner_is_the_first(a: Option<Moment>, b: Option<Moment>)
    ensures
        sooner(a, b) == sooner(b, a),
        sooner(a, b) == a || sooner(a, b) == b,
        a matches Some(x) ==> (sooner(a, b) matches Some(s) && s <= x),
        b matches Some(y) ==> (sooner(a, b) matches Some(s) && s <= y),
{
}

/// Each entry of the configuration becomes the source that it names: an address that is
/// served at once, or a name that is looked up at once and as often as the entry says.
pub proof fn an_entry_becomes_its_source(
    source: UpstreamSource,
    config: UpstreamConfig,
    now: Moment,
)
    requires
        source_is(source, config, now),
    ensures
        match config.kind {
            UpstreamKind::Static { addr } => source matches UpstreamSource::Fixed(s)
                && s.backend.addr == addr && s.backend.weight == 1 && s.backend.peer.alpn
                == config.peer.alpn && source.known() == seq![s.backend] && source.due() is None,
            UpstreamKind::Dns { host, port, refresh } => source matches UpstreamSource::Polling(p)
                && p.policy == refresh && p.state.due() == now && source.known().len() == 0
                && !source.answered() && (p.job matches ResolveJob::Dns(job) && job.host@ == host@
                && job.port == port && job.template == config.peer),
            UpstreamKind::Srv { name, refresh } => source matches UpstreamSource::Polling(p)
                && p.policy == refresh && p.state.due() == now && source.known().len() == 0
                && !source.answered() && (p.job matches ResolveJob::Srv(job) && job.name@ == name@
                && job.template == config.peer),
        },
{
}

} // verus!
