//! What happens to a request on its way through a service.

pub mod buckets;
pub mod canonical;
pub mod client_ip;
pub mod discovery;
pub mod glob;
pub mod headers;
pub mod health_check;
pub mod message;
pub mod normalize;
pub mod overload;
pub mod query;
pub mod rate_limiting;
pub mod request_filters;
pub mod request_modifiers;
pub mod response_modifiers;
pub mod routing;

use crate::acme::http01::{self, ChallengeStore, Reply};
use crate::config::internal::{
    BodySizeLimit, ClientIpConfig, HealthCheckKind, HeaderModifier, Normalization, PathControl,
    ProxyConfig, Rejection, RequestFilterConfig, RequestSelector, RouteConfig, SelectionKind,
    UpstreamConfig,
};
use crate::net::{self, IpAddr};
use crate::proxy::buckets::RateLimiters;
use crate::proxy::discovery::resolver::Moment;
use crate::proxy::headers::Headers;
use crate::proxy::message::{RequestHead, ResponseHead};
use crate::proxy::overload::Overload;
use crate::proxy::request_filters::{CidrRangeFilter, CidrSense};
use crate::proxy::routing::{Route, Routes};
use crate::text;
use crate::wire;
use vstd::prelude::*;

verus! {

/// All modifiers of a service, by the stage they run at.
#[derive(Debug)]
pub struct Modifiers {
    /// Asked when a request has arrived.
    pub request_filters: Vec<CidrRangeFilter>,
    /// Applied to the request that goes to the upstream server.
    pub upstream_request_filters: Vec<request_modifiers::HeaderMod>,
    /// Applied to the response that comes from the upstream server.
    pub upstream_response_filters: Vec<response_modifiers::HeaderMod>,
    /// Applied to the response that goes downstream.
    pub response_filters: Vec<response_modifiers::HeaderMod>,
    /// Bound on the request body.
    pub request_body_limit: Option<BodySizeLimit>,
    /// Bound on the response body.
    pub response_body_limit: Option<BodySizeLimit>,
}

/// The servers of one route, before any of them is known.
#[derive(Debug)]
pub struct PoolPlan {
    pub upstreams: Vec<UpstreamConfig>,
    pub selection: SelectionKind,
    pub health_checks: HealthCheckKind,
}

/// What a service decides requests with.
#[derive(Debug)]
pub struct RiverProxyService {
    pub modifiers: Modifiers,
    /// Where a request goes.
    pub routes: Routes,
    /// The answer when no route claims the request.
    pub no_route: Rejection,
    /// How the client address is worked out, when there is a proxy in front.
    pub client_ip: Option<ClientIpConfig>,
    /// Checks and rewrites made before anything else looks at the request.
    /// `None` when every check is turned off.
    pub normalization: Option<Normalization>,
}

/// Per-request state.
#[derive(Debug)]
pub struct RiverContext {
    /// Request body bytes seen so far.
    pub request_body_bytes: usize,
    /// Response body bytes seen so far.
    pub response_body_bytes: usize,
    /// The route that claimed this request.
    pub route: Option<String>,
    /// Whether this request is counted against the concurrency limit.
    pub holds_slot: bool,
    /// The address this request is attributed to.
    pub client_addr: Option<IpAddr>,
}

/// What is done about a request.
#[derive(Debug)]
pub enum Handling {
    /// It is malformed, and answered so.
    Malformed(Rejection),
    /// It asks for the response to a challenge, and gets it.
    Challenge(Reply),
    /// It is more than the service takes on, and answered so.
    Shed(Rejection),
    /// A rule turns it away, or no route claims it.
    Refused(Rejection),
    /// It goes to the servers of its route.
    Forward,
}

/// How a request that has arrived is dealt with, before the rate limiters are
/// asked.
#[derive(Debug)]
pub enum Admission {
    /// It goes on to the rate limiters.
    Go,
    /// It is malformed, and is answered so.
    Malformed(Rejection),
    /// It is a challenge, and is answered with the response to it.
    Challenge(Reply),
    /// It is more than the service takes on, and is answered so.
    Shed(Rejection),
}

/// The ranges of a filter are ranges.
pub open spec fn filter_config_wf(config: RequestFilterConfig) -> bool {
    match config {
        RequestFilterConfig::BlockCidr { blocks, .. } => client_ip::ranges(blocks@),
        RequestFilterConfig::AllowCidr { blocks, .. } => client_ip::ranges(blocks@),
    }
}

/// The filter that a configuration stands for.
pub open spec fn filter_of(config: RequestFilterConfig) -> CidrRangeFilter {
    match config {
        RequestFilterConfig::BlockCidr { blocks, rejection } => CidrRangeFilter {
            blocks,
            sense: CidrSense::Deny,
            rejection,
        },
        RequestFilterConfig::AllowCidr { blocks, rejection } => CidrRangeFilter {
            blocks,
            sense: CidrSense::Allow,
            rejection,
        },
    }
}

/// The filters that a list of configurations stands for.
pub open spec fn filters_of(configs: Seq<RequestFilterConfig>) -> Seq<CidrRangeFilter> {
    configs.map_values(|c: RequestFilterConfig| filter_of(c))
}

/// The changes of the modifiers.
pub open spec fn request_changes(mods: Seq<request_modifiers::HeaderMod>) -> Seq<HeaderModifier> {
    mods.map_values(|m: request_modifiers::HeaderMod| m.modifier)
}

/// The changes of the modifiers.
pub open spec fn response_changes(mods: Seq<response_modifiers::HeaderMod>) -> Seq<
    HeaderModifier,
> {
    mods.map_values(|m: response_modifiers::HeaderMod| m.modifier)
}

fn build_filters(configs: Vec<RequestFilterConfig>) -> (r: Vec<CidrRangeFilter>)
    ensures
        r@ == filters_of(configs@),
{
    let mut rest = configs;
    let mut out: Vec<CidrRangeFilter> = Vec::new();
    let ghost mut done: int = 0;
    while rest.len() > 0
        invariant
            0 <= done <= configs@.len(),
            rest@ == configs@.skip(done),
            out@ == filters_of(configs@.take(done)),
        decreases rest@.len(),
    {
        let config = rest.remove(0);
        assert(config == configs@[done]);
        let filter = match config {
            RequestFilterConfig::BlockCidr { blocks, rejection } => CidrRangeFilter::new(
                blocks,
                CidrSense::Deny,
                rejection,
            ),
            RequestFilterConfig::AllowCidr { blocks, rejection } => CidrRangeFilter::new(
                blocks,
                CidrSense::Allow,
                rejection,
            ),
        };
        let ghost before = out@;
        out.push(filter);
        proof {
            assert(filters_of(configs@.take(done + 1)) == before.push(filter_of(configs@[done])));
            done = done + 1;
        }
        assert(rest@ == configs@.skip(done));
    }
    assert(configs@.take(done) == configs@);
    out
}

fn build_request_mods(configs: Vec<HeaderModifier>) -> (r: Vec<request_modifiers::HeaderMod>)
    ensures
        request_changes(r@) == configs@,
{
    let mut rest = configs;
    let mut out: Vec<request_modifiers::HeaderMod> = Vec::new();
    let ghost mut done: int = 0;
    while rest.len() > 0
        invariant
            0 <= done <= configs@.len(),
            rest@ == configs@.skip(done),
            request_changes(out@) == configs@.take(done),
        decreases rest@.len(),
    {
        let config = rest.remove(0);
        let ghost before = out@;
        let made = request_modifiers::HeaderMod::new(config);
        out.push(made);
        proof {
            assert(request_changes(out@) == request_changes(before).push(config));
            assert(configs@.take(done + 1) == configs@.take(done).push(configs@[done]));
            done = done + 1;
        }
        assert(rest@ == configs@.skip(done));
    }
    assert(configs@.take(done) == configs@);
    out
}

fn build_response_mods(configs: Vec<HeaderModifier>) -> (r: Vec<response_modifiers::HeaderMod>)
    ensures
        response_changes(r@) == configs@,
{
    let mut rest = configs;
    let mut out: Vec<response_modifiers::HeaderMod> = Vec::new();
    let ghost mut done: int = 0;
    while rest.len() > 0
        invariant
            0 <= done <= configs@.len(),
            rest@ == configs@.skip(done),
            response_changes(out@) == configs@.take(done),
        decreases rest@.len(),
    {
        let config = rest.remove(0);
        let ghost before = out@;
        let made = response_modifiers::HeaderMod::new(config);
        out.push(made);
        proof {
            assert(response_changes(out@) == response_changes(before).push(config));
            assert(configs@.take(done + 1) == configs@.take(done).push(configs@[done]));
            done = done + 1;
        }
        assert(rest@ == configs@.skip(done));
    }
    assert(configs@.take(done) == configs@);
    out
}

impl Modifiers {
    /// The modifiers that a configuration stands for, each list in its order.
    pub open spec fn stand_for(self, conf: PathControl) -> bool {
        &&& self.request_filters@ == filters_of(conf.request_filters@)
        &&& request_changes(self.upstream_request_filters@) == conf.upstream_request_filters@
        &&& response_changes(self.upstream_response_filters@) == conf.upstream_response_filters@
        &&& response_changes(self.response_filters@) == conf.response_filters@
        &&& self.request_body_limit == conf.request_body_limit
        &&& self.response_body_limit == conf.response_body_limit
    }

    /// Builds all modifiers. This cannot fail: what they are made of was checked
    /// when the configuration was read.
    pub fn from_conf(conf: PathControl) -> (r: Self)
        ensures
            r.stand_for(conf),
    {
        Modifiers {
            request_filters: build_filters(conf.request_filters),
            upstream_request_filters: build_request_mods(conf.upstream_request_filters),
            upstream_response_filters: build_response_mods(conf.upstream_response_filters),
            response_filters: build_response_mods(conf.response_filters),
            request_body_limit: conf.request_body_limit,
            response_body_limit: conf.response_body_limit,
        }
    }

    /// The ranges are ranges, and the patterns patterns.
    pub open spec fn wf(self) -> bool {
        &&& forall|i: int|
            0 <= i < self.request_filters@.len() ==> (#[trigger] self.request_filters@[i]).wf()
        &&& forall|i: int|
            0 <= i < self.upstream_request_filters@.len() ==> headers::modifier_wf(
                (#[trigger] self.upstream_request_filters@[i]).modifier,
            )
        &&& forall|i: int|
            0 <= i < self.upstream_response_filters@.len() ==> headers::modifier_wf(
                (#[trigger] self.upstream_response_filters@[i]).modifier,
            )
        &&& forall|i: int|
            0 <= i < self.response_filters@.len() ==> headers::modifier_wf(
                (#[trigger] self.response_filters@[i]).modifier,
            )
    }
}

/// A route and a pool plan hold what the configuration says of route number `n`.
pub open spec fn carries(route: Route, plan: PoolPlan, config: RouteConfig, n: int) -> bool {
    &&& route.name@ == routing::name_of(config.matcher)
    &&& route.matcher == config.matcher
    &&& route.methods == config.methods
    &&& route.pool == n
    &&& route.selector == config.upstream_options.selector
    &&& plan.upstreams == config.upstreams
    &&& plan.selection == config.upstream_options.selection
    &&& plan.health_checks == config.upstream_options.health_checks
}

/// Parts each route into what claims requests and what serves them.
fn build_routes(configs: Vec<RouteConfig>) -> (r: (Vec<Route>, Vec<PoolPlan>))
    ensures
        r.0@.len() == configs@.len(),
        r.1@.len() == configs@.len(),
        forall|i: int|
            0 <= i < configs@.len() ==> carries(
                #[trigger] r.0@[i],
                r.1@[i],
                configs@[i],
                i,
            ),
{
    let mut rest = configs;
    let mut routes: Vec<Route> = Vec::new();
    let mut plans: Vec<PoolPlan> = Vec::new();
    let ghost mut done: int = 0;
    while rest.len() > 0
        invariant
            0 <= done <= configs@.len(),
            rest@ == configs@.skip(done),
            routes@.len() == done,
            plans@.len() == done,
            forall|i: int|
                0 <= i < done ==> carries(#[trigger] routes@[i], plans@[i], configs@[i], i),
        decreases rest@.len(),
    {
        let config = rest.remove(0);
        assert(config == configs@[done]);
        let number = plans.len();
        let route = Route::new(
            config.matcher,
            config.methods,
            number,
            config.upstream_options.selector,
        );
        routes.push(route);
        plans.push(
            PoolPlan {
                upstreams: config.upstreams,
                selection: config.upstream_options.selection,
                health_checks: config.upstream_options.health_checks,
            },
        );
        proof {
            done = done + 1;
        }
        assert(rest@ == configs@.skip(done));
    }
    (routes, plans)
}

/// Everything that a service is started with.
#[derive(Debug)]
pub struct ServicePlan {
    pub service: RiverProxyService,
    /// `None` when nothing is limited.
    pub overload: Option<Overload>,
    pub rate_limiters: RateLimiters,
    /// The pools, by the number that a route knows its pool by.
    pub pools: Vec<PoolPlan>,
}

/// Are the ranges that a service is configured with ranges, and its patterns
/// patterns?
pub open spec fn config_wf(conf: ProxyConfig) -> bool {
    let pc = conf.path_control;
    &&& forall|i: int|
        0 <= i < pc.request_filters@.len() ==> filter_config_wf(#[trigger] pc.request_filters@[i])
    &&& forall|i: int|
        0 <= i < pc.upstream_request_filters@.len() ==> headers::modifier_wf(
            #[trigger] pc.upstream_request_filters@[i],
        )
    &&& forall|i: int|
        0 <= i < pc.upstream_response_filters@.len() ==> headers::modifier_wf(
            #[trigger] pc.upstream_response_filters@[i],
        )
    &&& forall|i: int|
        0 <= i < pc.response_filters@.len() ==> headers::modifier_wf(
            #[trigger] pc.response_filters@[i],
        )
    &&& conf.client_ip matches Some(c) ==> client_ip::ranges(c.trusted_proxies@)
}

proof fn lemma_modifiers_wf(m: Modifiers, conf: ProxyConfig)
    requires
        m.stand_for(conf.path_control),
        config_wf(conf),
    ensures
        m.wf(),
{
    let pc = conf.path_control;
    assert forall|i: int| 0 <= i < m.request_filters@.len() implies (
    #[trigger] m.request_filters@[i]).wf() by {
        assert(filter_config_wf(pc.request_filters@[i]));
    }
    assert forall|i: int| 0 <= i < m.upstream_request_filters@.len() implies headers::modifier_wf(
        (#[trigger] m.upstream_request_filters@[i]).modifier,
    ) by {
        assert(request_changes(m.upstream_request_filters@)[i]
            == pc.upstream_request_filters@[i]);
    }
    assert forall|i: int| 0 <= i < m.upstream_response_filters@.len() implies headers::modifier_wf(
        (#[trigger] m.upstream_response_filters@[i]).modifier,
    ) by {
        assert(response_changes(m.upstream_response_filters@)[i]
            == pc.upstream_response_filters@[i]);
    }
    assert forall|i: int| 0 <= i < m.response_filters@.len() implies headers::modifier_wf(
        (#[trigger] m.response_filters@[i]).modifier,
    ) by {
        assert(response_changes(m.response_filters@)[i] == pc.response_filters@[i]);
    }
}

/// Works out a proxy service from its configuration, at the moment `now`. What binds the listeners
/// is left to the caller.
pub fn river_proxy_service(conf: ProxyConfig, now: Moment) -> (r: ServicePlan)
    ensures
        config_wf(conf) ==> r.service.wf(),
        r.service.modifiers.stand_for(conf.path_control),
        r.service.no_route == conf.no_route,
        r.service.client_ip == conf.client_ip,
        r.service.normalization == (if conf.normalization.all(false) {
            None
        } else {
            Some(conf.normalization)
        }),
        match r.overload {
            Some(o) => !conf.overload.unlimited() && o.limits() == conf.overload && o.slots() == 0
                && o.wf(),
            None => conf.overload.unlimited(),
        },
        r.rate_limiters.wf(),
        r.rate_limiters.are_new(conf.rate_limiting.rules@, now),
        r.pools@.len() == conf.routes@.len(),
        exists|written: Seq<Route>|
            r.service.routes.routes@ == routing::in_order(written) && written.len()
                == conf.routes@.len() && forall|i: int|
                0 <= i < written.len() ==> carries(
                    #[trigger] written[i],
                    r.pools@[i],
                    conf.routes@[i],
                    i,
                ),
{
    let (routes, pools) = build_routes(conf.routes);
    let ghost written = routes@;
    let normalization = if conf.normalization.is_noop() {
        None
    } else {
        Some(conf.normalization)
    };
    let overload = if conf.overload.is_noop() {
        None
    } else {
        Some(Overload::new(conf.overload))
    };
    let service = RiverProxyService {
        modifiers: Modifiers::from_conf(conf.path_control),
        routes: Routes::new(routes),
        no_route: conf.no_route,
        client_ip: conf.client_ip,
        normalization,
    };
    assert(service.routes.routes@ == routing::in_order(written));
    proof {
        if config_wf(conf) {
            lemma_modifiers_wf(service.modifiers, conf);
        }
    }
    ServicePlan {
        service,
        overload,
        rate_limiters: RateLimiters::new(conf.rate_limiting.rules, now),
        pools,
    }
}

/// The number that a text spells the way `usize` is read: digits, with a plus
/// sign before them if one likes.
pub open spec fn size_of_text(s: Seq<char>) -> Option<nat> {
    net::number_of(
        if s.len() > 1 && s[0] == '+' {
            s.skip(1)
        } else {
            s
        },
        usize::MAX as nat,
    )
}

/// The body length that a request declares, if it declares one. A
/// `Content-Length` that is not a number is not a length.
pub open spec fn declared_len(head: RequestHead) -> Option<nat> {
    let lines = message::values_of(message::pairs(head.headers@), "content-length"@);
    if lines.len() == 0 {
        None
    } else {
        match message::value_text(lines[0]) {
            Some(line) => size_of_text(text::trimmed(line)),
            None => None,
        }
    }
}

/// The body length that a request declares, if it declares one.
pub fn declared_body_len(head: &RequestHead) -> (r: Option<usize>)
    ensures
        match r {
            Some(n) => declared_len(*head) == Some(n as nat),
            None => declared_len(*head) is None,
        },
{
    let (_, first) = message::find_header(head.headers.as_slice(), "content-length");
    let line = match first {
        Some(i) => match message::to_text(head.headers[i].value.as_slice()) {
            Some(line) => line,
            None => return None,
        },
        None => return None,
    };
    let trimmed = text::trim(line.as_str());
    let chars = text::chars_of(trimmed.as_str());
    let digits = if chars.len() > 1 && chars[0] == '+' {
        let rest = text::substring(&chars, 1, chars.len());
        assert(rest@ == chars@.skip(1));
        text::chars_of(rest.as_str())
    } else {
        chars
    };
    match text::parse_digits(&digits, usize::MAX as u64) {
        Some(n) => Some(n as usize),
        None => None,
    }
}

/// The answer to a request that asks too often.
pub open spec fn too_many() -> Rejection {
    Rejection { status: 429, body: None }
}

impl RiverContext {
    /// The state of a request that has just arrived.
    pub fn new() -> (r: Self)
        ensures
            r == (RiverContext {
                request_body_bytes: 0,
                response_body_bytes: 0,
                route: None,
                holds_slot: false,
                client_addr: None,
            }),
    {
        RiverContext {
            request_body_bytes: 0,
            response_body_bytes: 0,
            route: None,
            holds_slot: false,
            client_addr: None,
        }
    }
}

/// `a` and `b` added up, as far as a `usize` goes.
pub open spec fn capped_sum(a: usize, b: usize) -> int {
    if a + b > usize::MAX {
        usize::MAX as int
    } else {
        a + b
    }
}

fn add_up(a: usize, b: usize) -> (r: usize)
    ensures
        r == capped_sum(a, b),
{
    if a > usize::MAX - b {
        usize::MAX
    } else {
        a + b
    }
}

/// The request that comes out of normalization.
pub open spec fn tidied(
    before: RequestHead,
    after: RequestHead,
    normalization: Option<Normalization>,
) -> bool {
    match normalization {
        None => after == before,
        Some(config) => {
            &&& after.method == before.method
            &&& after.headers == before.headers
            &&& after.uri.scheme == before.uri.scheme
            &&& after.uri.authority == before.uri.authority
            &&& normalize::normal_request(before, config) == Ok::<
                Option<(Seq<char>, Option<Seq<char>>)>,
                normalize::Rejected,
            >(
                match after.uri.target {
                    Some(t) => Some(wire::target_parts(t)),
                    None => None,
                },
            )
        },
    }
}

/// The challenge response that a request is owed.
pub open spec fn owed_challenge(
    challenges: Option<&ChallengeStore>,
    head: RequestHead,
) -> Option<Seq<char>> {
    match challenges {
        Some(store) => http01::answer_of(store@, head.method@, head.asked_path()),
        None => None,
    }
}

/// Has a request that was answered at once left everything as it was?
pub open spec fn held_off(
    before: RiverContext,
    after: RiverContext,
    overload: Option<Overload>,
    still: Option<Overload>,
) -> bool {
    after == before && (overload is Some ==> still->0.slots() == overload->0.slots())
}

/// Is a request larger than the service takes, or one more than it takes on?
pub open spec fn too_much(overload: Option<Overload>, head: RequestHead) -> bool {
    overload matches Some(o) && (!overload::small_enough(
        o.limits(),
        message::pairs(head.headers@),
    ) || o.full())
}

/// Makes the changes in turn.
fn change_request(mods: &[request_modifiers::HeaderMod], header: &mut RequestHead)
    requires
        forall|i: int|
            0 <= i < mods@.len() ==> headers::modifier_wf((#[trigger] mods@[i]).modifier),
    ensures
        final(header).list() == headers::all_changed(request_changes(mods@), old(header).list()),
        final(header).rest() == old(header).rest(),
{
    let ghost first = header.list();
    let ghost kept = header.rest();
    let ghost all = request_changes(mods@);
    let mut i: usize = 0;
    while i < mods.len()
        invariant
            i <= mods@.len(),
            forall|k: int|
                0 <= k < mods@.len() ==> headers::modifier_wf((#[trigger] mods@[k]).modifier),
            all == request_changes(mods@),
            header.list() == headers::all_changed(all.take(i as int), first),
            header.rest() == kept,
        decreases mods@.len() - i,
    {
        assert(all.take(i + 1).drop_last() == all.take(i as int));
        assert(all.take(i + 1).last() == mods@[i as int].modifier);
        mods[i].upstream_request_filter(header);
        i = i + 1;
    }
    assert(all.take(all.len() as int) == all);
}

/// Makes the changes in turn.
fn change_response(mods: &[response_modifiers::HeaderMod], header: &mut ResponseHead)
    requires
        forall|i: int|
            0 <= i < mods@.len() ==> headers::modifier_wf((#[trigger] mods@[i]).modifier),
    ensures
        final(header).list() == headers::all_changed(response_changes(mods@), old(header).list()),
        final(header).rest() == old(header).rest(),
{
    let ghost first = header.list();
    let ghost kept = header.rest();
    let ghost all = response_changes(mods@);
    let mut i: usize = 0;
    while i < mods.len()
        invariant
            i <= mods@.len(),
            forall|k: int|
                0 <= k < mods@.len() ==> headers::modifier_wf((#[trigger] mods@[k]).modifier),
            all == response_changes(mods@),
            header.list() == headers::all_changed(all.take(i as int), first),
            header.rest() == kept,
        decreases mods@.len() - i,
    {
        assert(all.take(i + 1).drop_last() == all.take(i as int));
        assert(all.take(i + 1).last() == mods@[i as int].modifier);
        mods[i].upstream_response_filter(header);
        i = i + 1;
    }
    assert(all.take(all.len() as int) == all);
}

impl RiverProxyService {
    /// The parts are well formed.
    pub open spec fn wf(self) -> bool {
        self.modifiers.wf() && client_ip::config_wf(
            match self.client_ip {
                Some(c) => Some(&c),
                None => None,
            },
        )
    }

    /// The reason that a request is malformed for, if it is.
    pub open spec fn malformed(self, head: RequestHead) -> bool {
        self.normalization matches Some(config) && normalize::normal_request(head, config) is Err
    }

    /// Deals with a request that has arrived, up to the point where the rate
    /// limiters are asked.
    ///
    /// Normalization comes first: everything after it decides by the path, and
    /// must see one spelling of it. A challenge is answered before anything can
    /// turn it away. Then the request is shed if it is more than the service
    /// takes on, and otherwise attributed to a client.
    pub fn request_arrival(
        &self,
        ctx: &mut RiverContext,
        head: &mut RequestHead,
        peer: Option<IpAddr>,
        challenges: Option<&ChallengeStore>,
        overload: &mut Option<Overload>,
    ) -> (r: Admission)
        requires
            self.wf(),
            challenges matches Some(store) ==> store.wf(),
            *old(overload) matches Some(o) ==> o.wf(),
        ensures
            *final(overload) is Some == *old(overload) is Some,
            *final(overload) matches Some(o) ==> o.wf() && o.limits() == old(overload)->0.limits(),
            final(ctx).route == old(ctx).route,
            final(ctx).request_body_bytes == old(ctx).request_body_bytes,
            final(ctx).response_body_bytes == old(ctx).response_body_bytes,
            // What a malformed request is answered, and nothing else happens.
            self.malformed(*old(head)) == r is Malformed,
            r matches Admission::Malformed(answer) ==> answer == self.normalization->0.rejection
                && *final(head) == *old(head),
            !(r is Malformed) ==> tidied(*old(head), *final(head), self.normalization),
            // The query goes through as it came.
            self.normalization matches Some(config) ==> (old(head).uri.target matches Some(target)
                ==> (query::is_target(target) && !(r is Malformed) ==> final(head).uri.target
                is Some && query::only_the_path_changed(
                target,
                final(head).uri.target->0,
                config,
            ))),
            // A challenge is answered whatever else holds.
            !(r is Malformed) ==> (owed_challenge(challenges, *final(head)) is Some
                == r is Challenge),
            r matches Admission::Challenge(reply) ==> owed_challenge(challenges, *final(head))
                == Some(reply.body@) && reply.is_plain(),
            // What is too large or too much is shed.
            !(r is Malformed) && !(r is Challenge) ==> r is Shed == too_much(
                *old(overload),
                *final(head),
            ),
            r matches Admission::Shed(answer) ==> answer == old(overload)->0.limits().rejection,
            // Only a request that goes on takes a slot and is attributed.
            r is Go ==> final(ctx).client_addr == client_ip::client_of(
                peer,
                message::pairs(final(head).headers@),
                self.client_ip,
            ),
            !(r is Go) ==> *final(ctx) == *old(ctx),
            r is Go && *old(overload) is Some ==> final(ctx).holds_slot
                && final(overload)->0.slots() == old(overload)->0.with_one_more(),
            r is Go && *old(overload) is None ==> final(ctx).holds_slot == old(ctx).holds_slot,
            !(r is Go) && *old(overload) is Some ==> final(overload)->0.slots()
                == old(overload)->0.slots(),
    {
        match &self.normalization {
            Some(config) => {
                match normalize::apply(head, config) {
                    Ok(()) => {},
                    Err(_) => {
                        return Admission::Malformed(config.rejection.clone());
                    },
                }
            },
            None => {},
        }
        match challenges {
            Some(store) => {
                match http01::try_serve(store, head) {
                    Some(reply) => {
                        return Admission::Challenge(reply);
                    },
                    None => {},
                }
            },
            None => {},
        }
        match overload {
            Some(limits) => {
                if !limits.header_within_limits(head.headers.as_slice()) {
                    return Admission::Shed(limits.config().rejection.clone());
                }
                if !limits.acquire() {
                    return Admission::Shed(limits.config().rejection.clone());
                }
                ctx.holds_slot = true;
            },
            None => {},
        }
        ctx.client_addr = client_ip::resolve(
            peer,
            head.headers.as_slice(),
            self.client_ip.as_ref(),
        );
        Admission::Go
    }

    /// The answer to a request that goes no further, once the rate limiters have
    /// spoken.
    pub open spec fn refusal(
        self,
        client: Option<IpAddr>,
        head: RequestHead,
        limited: bool,
    ) -> Option<Rejection> {
        let filtered = request_filters::first_rejection(
            self.modifiers.request_filters@,
            client,
        );
        if limited {
            Some(too_many())
        } else if filtered is Some {
            filtered
        } else if self.modifiers.request_body_limit is Some && declared_len(head) is Some
            && declared_len(head)->0 > self.modifiers.request_body_limit->0.max_bytes {
            Some(Rejection { status: self.modifiers.request_body_limit->0.status, body: None })
        } else if routing::first_to_take(
            self.routes.routes@,
            head.asked_path(),
            head.method@,
        ) is None {
            Some(self.no_route)
        } else {
            None
        }
    }

    /// Decides about a request.
    ///
    /// The rate limiters come first, then the address filters, then the length
    /// that the request declares, and last the search for a route.
    pub fn request_filter(
        &self,
        ctx: &mut RiverContext,
        head: &RequestHead,
        limiters: &mut RateLimiters,
        now: Moment,
    ) -> (r: Option<Rejection>)
        requires
            self.wf(),
            old(limiters).wf(),
        ensures
            final(limiters).wf(),
            old(limiters).have_stepped(
                *final(limiters),
                old(ctx).client_addr,
                head.asked_path(),
                now,
            ),
            r == self.refusal(
                old(ctx).client_addr,
                *head,
                old(limiters).declines(old(ctx).client_addr, head.asked_path(), now),
            ),
            final(ctx).client_addr == old(ctx).client_addr,
            final(ctx).holds_slot == old(ctx).holds_slot,
            final(ctx).request_body_bytes == old(ctx).request_body_bytes,
            final(ctx).response_body_bytes == old(ctx).response_body_bytes,
            r is Some ==> final(ctx).route == old(ctx).route,
            r is None ==> final(ctx).route is Some && final(ctx).route->0@
                == routing::first_to_take(
                self.routes.routes@,
                head.asked_path(),
                head.method@,
            )->0.name@,
    {
        if limiters.any_declined(ctx.client_addr, head.path(), now) {
            return Some(Rejection { status: 429, body: None });
        }
        match request_filters::run(self.modifiers.request_filters.as_slice(), ctx.client_addr) {
            Some(rejection) => {
                return Some(rejection.clone());
            },
            None => {},
        }
        match self.modifiers.request_body_limit {
            Some(limit) => {
                match declared_body_len(head) {
                    Some(declared) => {
                        if declared > limit.max_bytes {
                            return Some(Rejection { status: limit.status, body: None });
                        }
                    },
                    None => {},
                }
            },
            None => {},
        }
        match self.routes.find(head) {
            Some(route) => {
                ctx.route = Some(route.name.clone());
                None
            },
            None => Some(self.no_route.clone()),
        }
    }

    /// Decides about a request from its arrival to its route.
    ///
    /// Each stage sees only what the ones before it let through: normalization, the
    /// challenges, what the service takes on, the rate limiters, the address filters, the
    /// length that the request declares, and the routes.
    pub fn handle_request(
        &self,
        ctx: &mut RiverContext,
        head: &mut RequestHead,
        peer: Option<IpAddr>,
        challenges: Option<&ChallengeStore>,
        overload: &mut Option<Overload>,
        limiters: &mut RateLimiters,
        now: Moment,
    ) -> (r: Handling)
        requires
            self.wf(),
            challenges matches Some(store) ==> store.wf(),
            *old(overload) matches Some(o) ==> o.wf(),
            old(limiters).wf(),
        ensures
            final(limiters).wf(),
            *final(overload) is Some == *old(overload) is Some,
            *final(overload) matches Some(o) ==> o.wf() && o.limits() == old(overload)->0.limits(),
            final(ctx).request_body_bytes == old(ctx).request_body_bytes,
            final(ctx).response_body_bytes == old(ctx).response_body_bytes,
            ({
                let arrived = *final(head);
                let client = client_ip::client_of(
                    peer,
                    message::pairs(arrived.headers@),
                    self.client_ip,
                );
                let limited = old(limiters).declines(client, arrived.asked_path(), now);
                if self.malformed(*old(head)) {
                    &&& r == Handling::Malformed(self.normalization->0.rejection)
                    &&& arrived == *old(head)
                    &&& held_off(*old(ctx), *final(ctx), *old(overload), *final(overload))
                    &&& *final(limiters) == *old(limiters)
                } else {
                    &&& tidied(*old(head), arrived, self.normalization)
                    &&& if owed_challenge(challenges, arrived) is Some {
                        &&& r matches Handling::Challenge(reply) && reply.is_plain() && Some(
                            reply.body@,
                        ) == owed_challenge(challenges, arrived)
                        &&& held_off(*old(ctx), *final(ctx), *old(overload), *final(overload))
                        &&& *final(limiters) == *old(limiters)
                    } else if too_much(*old(overload), arrived) {
                        &&& r == Handling::Shed(old(overload)->0.limits().rejection)
                        &&& held_off(*old(ctx), *final(ctx), *old(overload), *final(overload))
                        &&& *final(limiters) == *old(limiters)
                    } else {
                        &&& old(limiters).have_stepped(
                            *final(limiters),
                            client,
                            arrived.asked_path(),
                            now,
                        )
                        &&& final(ctx).client_addr == client
                        &&& *old(overload) is Some ==> final(ctx).holds_slot
                            && final(overload)->0.slots() == old(overload)->0.with_one_more()
                        &&& *old(overload) is None ==> final(ctx).holds_slot == old(ctx).holds_slot
                        &&& match self.refusal(client, arrived, limited) {
                            Some(rejection) => r == Handling::Refused(rejection)
                                && final(ctx).route == old(ctx).route,
                            None => r is Forward && final(ctx).route is Some
                                && final(ctx).route->0@ == routing::first_to_take(
                                self.routes.routes@,
                                arrived.asked_path(),
                                arrived.method@,
                            )->0.name@,
                        }
                    }
                }
            }),
            // The query goes through as it came.
            self.normalization matches Some(config) ==> (old(head).uri.target matches Some(target)
                ==> (query::is_target(target) && !(r is Malformed) ==> final(head).uri.target
                is Some && query::only_the_path_changed(
                target,
                final(head).uri.target->0,
                config,
            ))),
    {
        match self.request_arrival(ctx, head, peer, challenges, overload) {
            Admission::Malformed(rejection) => Handling::Malformed(rejection),
            Admission::Challenge(reply) => Handling::Challenge(reply),
            Admission::Shed(rejection) => Handling::Shed(rejection),
            Admission::Go => match self.request_filter(ctx, head, limiters, now) {
                Some(rejection) => Handling::Refused(rejection),
                None => Handling::Forward,
            },
        }
    }

    /// The route whose pool a request is served from.
    pub fn upstream_route(&self, head: &RequestHead) -> (r: Option<&Route>)
        ensures
            match r {
                Some(route) => routing::first_to_take(
                    self.routes.routes@,
                    head.asked_path(),
                    head.method@,
                ) == Some(*route),
                None => routing::first_to_take(
                    self.routes.routes@,
                    head.asked_path(),
                    head.method@,
                ) is None,
            },
    {
        self.routes.find(head)
    }

    /// Makes the configured changes to the request that goes to the server.
    pub fn upstream_request_filter(&self, header: &mut RequestHead)
        requires
            self.wf(),
        ensures
            final(header).list() == headers::all_changed(
                request_changes(self.modifiers.upstream_request_filters@),
                old(header).list(),
            ),
            final(header).rest() == old(header).rest(),
    {
        change_request(self.modifiers.upstream_request_filters.as_slice(), header);
    }

    /// Makes the configured changes to the response that the server gave.
    pub fn upstream_response_filter(&self, header: &mut ResponseHead)
        requires
            self.wf(),
        ensures
            final(header).list() == headers::all_changed(
                response_changes(self.modifiers.upstream_response_filters@),
                old(header).list(),
            ),
            final(header).rest() == old(header).rest(),
    {
        change_response(self.modifiers.upstream_response_filters.as_slice(), header);
    }

    /// Makes the configured changes to the response that goes downstream.
    pub fn response_filter(&self, header: &mut ResponseHead)
        requires
            self.wf(),
        ensures
            final(header).list() == headers::all_changed(
                response_changes(self.modifiers.response_filters@),
                old(header).list(),
            ),
            final(header).rest() == old(header).rest(),
    {
        change_response(self.modifiers.response_filters.as_slice(), header);
    }

    /// Counts a piece of the request body, and says with which status the
    /// request is rejected once there is too much of it. The body is counted,
    /// never held.
    pub fn request_body_filter(&self, ctx: &mut RiverContext, chunk: Option<usize>) -> (r: Result<
        (),
        u16,
    >)
        ensures
            *final(ctx) == (RiverContext {
                request_body_bytes: final(ctx).request_body_bytes,
                ..*old(ctx)
            }),
            match (self.modifiers.request_body_limit, chunk) {
                (Some(limit), Some(n)) => {
                    &&& final(ctx).request_body_bytes == capped_sum(
                        old(ctx).request_body_bytes,
                        n,
                    )
                    &&& r == (if final(ctx).request_body_bytes > limit.max_bytes {
                        Err::<(), u16>(limit.status)
                    } else {
                        Ok::<(), u16>(())
                    })
                },
                _ => r is Ok && final(ctx).request_body_bytes == old(ctx).request_body_bytes,
            },
    {
        match (&self.modifiers.request_body_limit, chunk) {
            (Some(limit), Some(n)) => {
                ctx.request_body_bytes = add_up(ctx.request_body_bytes, n);
                if ctx.request_body_bytes > limit.max_bytes {
                    Err(limit.status)
                } else {
                    Ok(())
                }
            },
            _ => Ok(()),
        }
    }

    /// Counts a piece of the response body, and says with which status the
    /// exchange is cut short once there is too much of it.
    pub fn response_body_filter(&self, ctx: &mut RiverContext, chunk: Option<usize>) -> (r: Result<
        (),
        u16,
    >)
        ensures
            *final(ctx) == (RiverContext {
                response_body_bytes: final(ctx).response_body_bytes,
                ..*old(ctx)
            }),
            match (self.modifiers.response_body_limit, chunk) {
                (Some(limit), Some(n)) => {
                    &&& final(ctx).response_body_bytes == capped_sum(
                        old(ctx).response_body_bytes,
                        n,
                    )
                    &&& r == (if final(ctx).response_body_bytes > limit.max_bytes {
                        Err::<(), u16>(limit.status)
                    } else {
                        Ok::<(), u16>(())
                    })
                },
                _ => r is Ok && final(ctx).response_body_bytes == old(ctx).response_body_bytes,
            },
    {
        match (&self.modifiers.response_body_limit, chunk) {
            (Some(limit), Some(n)) => {
                ctx.response_body_bytes = add_up(ctx.response_body_bytes, n);
                if ctx.response_body_bytes > limit.max_bytes {
                    Err(limit.status)
                } else {
                    Ok(())
                }
            },
            _ => Ok(()),
        }
    }
}

/// Gives back the slot that a request holds. This is owed at the end of every
/// request, however it ended, and gives back what was taken and nothing else.
pub fn logging(ctx: &mut RiverContext, overload: &mut Option<Overload>)
    requires
        *old(overload) matches Some(o) ==> o.wf() && (old(ctx).holds_slot
            && o.limits().max_concurrent_requests is Some ==> o.slots() > 0),
    ensures
        *final(ctx) == (RiverContext { holds_slot: false, ..*old(ctx) }),
        *final(overload) is Some == *old(overload) is Some,
        *final(overload) matches Some(o) ==> o.wf() && o.limits() == old(overload)->0.limits()
            && (if old(ctx).holds_slot {
            o.with_one_more() == old(overload)->0.slots()
        } else {
            o.slots() == old(overload)->0.slots()
        }),
{
    if ctx.holds_slot {
        ctx.holds_slot = false;
        match overload {
            Some(limits) => limits.release(),
            None => {},
        }
    }
}

/// How much of a body has been counted once these pieces of it have gone by.
pub open spec fn counted(pieces: Seq<usize>) -> usize
    decreases pieces.len(),
{
    if pieces.len() == 0 {
        0
    } else {
        capped_sum(counted(pieces.drop_last()), pieces.last()) as usize
    }
}

/// How long the pieces are together.
pub open spec fn total(pieces: Seq<usize>) -> int
    decreases pieces.len(),
{
    if pieces.len() == 0 {
        0
    } else {
        total(pieces.drop_last()) + pieces.last()
    }
}

/// However a body is cut into pieces, it is turned away exactly when it is longer
/// than the limit. A limit that no count can pass turns nothing away.
pub proof fn a_body_is_judged_by_its_length(pieces: Seq<usize>, limit: BodySizeLimit)
    requires
        limit.max_bytes < usize::MAX,
    ensures
        counted(pieces) > limit.max_bytes <==> total(pieces) > limit.max_bytes,
{
    lemma_counted(pieces);
}

proof fn lemma_counted(pieces: Seq<usize>)
    ensures
        total(pieces) >= 0,
        counted(pieces) == (if total(pieces) > usize::MAX {
            usize::MAX as int
        } else {
            total(pieces)
        }),
    decreases pieces.len(),
{
    if pieces.len() > 0 {
        lemma_counted(pieces.drop_last());
    }
}

/// What picks the server for a request: nothing, its path, or the client's
/// address written out and the path.
pub open spec fn key_of(selector: RequestSelector, client: Seq<char>, path: Seq<char>) -> Seq<u8> {
    match selector {
        RequestSelector::Null => Seq::empty(),
        RequestSelector::UriPath => text::utf8(path),
        RequestSelector::SourceAddrAndUriPath => text::utf8(client) + text::utf8(path),
    }
}

/// The key that the server for a request is selected by. `client` is the
/// client's address written out.
pub fn selection_key(selector: RequestSelector, client: &str, head: &RequestHead) -> (r: Vec<u8>)
    ensures
        r@ == key_of(selector, client@, head.asked_path()),
{
    match selector {
        RequestSelector::Null => Vec::new(),
        RequestSelector::UriPath => text::bytes_of(head.path()),
        RequestSelector::SourceAddrAndUriPath => {
            let mut key = text::bytes_of(client);
            let mut path = text::bytes_of(head.path());
            key.append(&mut path);
            key
        },
    }
}

/// Each configured filter is there, in its place: with its ranges, its answer, and the
/// sense of its kind. Each configured change is there as well, in its place.
pub proof fn every_modifier_is_built(m: Modifiers, conf: PathControl, i: int)
    requires
        m.stand_for(conf),
        0 <= i,
    ensures
        m.request_filters@.len() == conf.request_filters@.len(),
        i < conf.request_filters@.len() ==> match conf.request_filters@[i] {
            RequestFilterConfig::BlockCidr { blocks, rejection } => {
                &&& m.request_filters@[i].blocks == blocks
                &&& m.request_filters@[i].rejection == rejection
                &&& m.request_filters@[i].sense is Deny
            },
            RequestFilterConfig::AllowCidr { blocks, rejection } => {
                &&& m.request_filters@[i].blocks == blocks
                &&& m.request_filters@[i].rejection == rejection
                &&& m.request_filters@[i].sense is Allow
            },
        },
        m.upstream_request_filters@.len() == conf.upstream_request_filters@.len(),
        i < conf.upstream_request_filters@.len() ==> m.upstream_request_filters@[i].modifier
            == conf.upstream_request_filters@[i],
        m.upstream_response_filters@.len() == conf.upstream_response_filters@.len(),
        i < conf.upstream_response_filters@.len() ==> m.upstream_response_filters@[i].modifier
            == conf.upstream_response_filters@[i],
        m.response_filters@.len() == conf.response_filters@.len(),
        i < conf.response_filters@.len() ==> m.response_filters@[i].modifier
            == conf.response_filters@[i],
        m.request_body_limit == conf.request_body_limit,
        m.response_body_limit == conf.response_body_limit,
{
    assert(request_changes(m.upstream_request_filters@).len()
        == m.upstream_request_filters@.len());
    assert(response_changes(m.upstream_response_filters@).len()
        == m.upstream_response_filters@.len());
    assert(response_changes(m.response_filters@).len() == m.response_filters@.len());
    if i < conf.upstream_request_filters@.len() {
        assert(request_changes(m.upstream_request_filters@)[i]
            == m.upstream_request_filters@[i].modifier);
    }
    if i < conf.upstream_response_filters@.len() {
        assert(response_changes(m.upstream_response_filters@)[i]
            == m.upstream_response_filters@[i].modifier);
    }
    if i < conf.response_filters@.len() {
        assert(response_changes(m.response_filters@)[i] == m.response_filters@[i].modifier);
    }
}

/// A request goes on to its servers if and only if the rate limiters let it, no filter
/// turns its client away, it does not declare a body longer than the limit, and some route
/// takes it.
pub proof fn what_is_not_refused_by_any_goes_on(
    service: RiverProxyService,
    client: Option<IpAddr>,
    head: RequestHead,
    limited: bool,
)
    ensures
        service.refusal(client, head, limited) is None <==> {
            &&& !limited
            &&& forall|i: int|
                0 <= i < service.modifiers.request_filters@.len() ==> !(
                #[trigger] service.modifiers.request_filters@[i]).turns_away(client)
            &&& !(service.modifiers.request_body_limit matches Some(limit) && (
            declared_len(head) matches Some(n) && n > limit.max_bytes))
            &&& exists|i: int|
                0 <= i < service.routes.routes@.len() && (
                #[trigger] service.routes.routes@[i]).takes(head.asked_path(), head.method@)
        },
{
    let filters = service.modifiers.request_filters@;
    let routes = service.routes.routes@;
    let (path, method) = (head.asked_path(), head.method@);
    if forall|i: int| 0 <= i < filters.len() ==> !(#[trigger] filters[i]).turns_away(client) {
        request_filters::the_first_filter_answers(filters, client, filters.len() as int);
    } else {
        let n = lemma_first_filter(filters, client, 0);
        request_filters::the_first_filter_answers(filters, client, n);
    }
    if forall|i: int| 0 <= i < routes.len() ==> !(#[trigger] routes[i]).takes(path, method) {
        routing::the_first_route_that_takes_it_wins(routes, path, method, routes.len() as int);
    } else {
        let n = lemma_first_route(routes, path, method, 0);
        routing::the_first_route_that_takes_it_wins(routes, path, method, n);
    }
}

proof fn lemma_first_filter(
    filters: Seq<CidrRangeFilter>,
    client: Option<IpAddr>,
    from: int,
) -> (n: int)
    requires
        0 <= from <= filters.len(),
        forall|k: int| 0 <= k < from ==> !(#[trigger] filters[k]).turns_away(client),
        exists|k: int| 0 <= k < filters.len() && (#[trigger] filters[k]).turns_away(client),
    ensures
        from <= n < filters.len(),
        filters[n].turns_away(client),
        forall|k: int| 0 <= k < n ==> !(#[trigger] filters[k]).turns_away(client),
    decreases filters.len() - from,
{
    if filters[from].turns_away(client) {
        from
    } else {
        lemma_first_filter(filters, client, from + 1)
    }
}

proof fn lemma_first_route(
    routes: Seq<Route>,
    path: Seq<char>,
    method: Seq<char>,
    from: int,
) -> (n: int)
    requires
        0 <= from <= routes.len(),
        forall|k: int| 0 <= k < from ==> !(#[trigger] routes[k]).takes(path, method),
        exists|k: int| 0 <= k < routes.len() && (#[trigger] routes[k]).takes(path, method),
    ensures
        from <= n < routes.len(),
        routes[n].takes(path, method),
        forall|k: int| 0 <= k < n ==> !(#[trigger] routes[k]).takes(path, method),
    decreases routes.len() - from,
{
    if routes[from].takes(path, method) {
        from
    } else {
        lemma_first_route(routes, path, method, from + 1)
    }
}

/// Who asks too often is told so, whatever else is wrong. Else the first filter that turns
/// the client away answers, then the limit on the body, and where no route takes the
/// request, what is set for that.
pub proof fn refusals_come_in_turn(
    service: RiverProxyService,
    client: Option<IpAddr>,
    head: RequestHead,
    i: int,
)
    requires
        0 <= i <= service.modifiers.request_filters@.len(),
        forall|k: int|
            0 <= k < i ==> !(#[trigger] service.modifiers.request_filters@[k]).turns_away(client),
        i < service.modifiers.request_filters@.len()
            ==> service.modifiers.request_filters@[i].turns_away(client),
    ensures
        service.refusal(client, head, true) matches Some(r) && r.status == 429 && r.body is None,
        ({
            let filters = service.modifiers.request_filters@;
            let refused = service.refusal(client, head, false);
            let taken = routing::first_to_take(
                service.routes.routes@,
                head.asked_path(),
                head.method@,
            );
            if i < filters.len() {
                refused == Some(filters[i].rejection)
            } else if service.modifiers.request_body_limit matches Some(limit) && (
            declared_len(head) matches Some(n) && n > limit.max_bytes) {
                refused matches Some(r) && r.status
                    == service.modifiers.request_body_limit->0.status && r.body is None
            } else {
                refused == (if taken is None {
                    Some(service.no_route)
                } else {
                    None
                })
            }
        }),
{
    request_filters::the_first_filter_answers(service.modifiers.request_filters@, client, i);
}

/// The length of pieces together is that of each, added up.
pub proof fn pieces_add_up(one: Seq<usize>, other: Seq<usize>, single: usize)
    ensures
        total(one + other) == total(one) + total(other),
        total(seq![single]) == single,
        total(Seq::empty()) == 0,
    decreases other.len(),
{
    assert(seq![single].drop_last() == Seq::<usize>::empty());
    assert(total(seq![single].drop_last()) == 0);
    if other.len() > 0 {
        assert((one + other).drop_last() == one + other.drop_last());
        pieces_add_up(one, other.drop_last(), single);
    } else {
        assert(one + other == one);
    }
}

/// A request declares the length that its first `Content-Length` spells.
pub proof fn the_first_length_is_the_declared_one(head: RequestHead, i: int)
    requires
        0 <= i < head.headers@.len(),
        head.headers@[i].name@ == "content-length"@,
        forall|k: int|
            0 <= k < i ==> (#[trigger] head.headers@[k]).name@ != "content-length"@,
    ensures
        declared_len(head) == (match message::value_text(head.headers@[i].value@) {
            Some(line) => size_of_text(text::trimmed(line)),
            None => None,
        }),
{
    let pairs = message::pairs(head.headers@);
    assert(pairs[i] == (head.headers@[i].name@, head.headers@[i].value@));
    assert forall|k: int| 0 <= k < i implies (#[trigger] pairs[k]).0 != "content-length"@ by {
        assert(head.headers@[k].name@ != "content-length"@);
    }
    lemma_first_value(pairs, "content-length"@, i);
}

proof fn lemma_first_value(pairs: Seq<(Seq<char>, Seq<u8>)>, name: Seq<char>, i: int)
    requires
        0 <= i < pairs.len(),
        pairs[i].0 == name,
        forall|k: int| 0 <= k < i ==> (#[trigger] pairs[k]).0 != name,
    ensures
        message::values_of(pairs, name).len() > 0,
        message::values_of(pairs, name)[0] == pairs[i].1,
    decreases pairs.len(),
{
    let front = pairs.drop_last();
    assert forall|k: int| 0 <= k < front.len() implies #[trigger] front[k] == pairs[k] by {}
    if i < front.len() {
        lemma_first_value(front, name, i);
    } else {
        lemma_no_value(front, name);
    }
}

proof fn lemma_no_value(pairs: Seq<(Seq<char>, Seq<u8>)>, name: Seq<char>)
    requires
        forall|k: int| 0 <= k < pairs.len() ==> (#[trigger] pairs[k]).0 != name,
    ensures
        message::values_of(pairs, name).len() == 0,
    decreases pairs.len(),
{
    if pairs.len() > 0 {
        let front = pairs.drop_last();
        assert forall|k: int| 0 <= k < front.len() implies (#[trigger] front[k]).0 != name by {
            assert(front[k] == pairs[k]);
        }
        lemma_no_value(front, name);
        assert(pairs[pairs.len() - 1].0 != name);
    }
}

/// A service that selects by nothing has one key for all, one that selects by the path has
/// a key for each path whoever asks, and one that selects by the client as well has the
/// client's address before the path.
pub proof fn the_key_goes_by_what_is_configured(
    client: Seq<char>,
    other: Seq<char>,
    path: Seq<char>,
)
    ensures
        key_of(RequestSelector::Null, client, path).len() == 0,
        key_of(RequestSelector::UriPath, client, path) == text::utf8(path),
        key_of(RequestSelector::UriPath, client, path) == key_of(
            RequestSelector::UriPath,
            other,
            path,
        ),
        key_of(RequestSelector::SourceAddrAndUriPath, client, path) == text::utf8(client) + key_of(
            RequestSelector::UriPath,
            client,
            path,
        ),
{
}

/// A route keeps everything that is configured for it: how its path is matched, every
/// method, what its servers are selected by, every server and how they are checked.
pub proof fn a_route_keeps_its_configuration(
    route: Route,
    plan: PoolPlan,
    config: RouteConfig,
    n: int,
    path: Seq<char>,
    method: Seq<char>,
)
    requires
        carries(route, plan, config, n),
    ensures
        route.pool == n,
        route.matcher == config.matcher,
        route.methods@ == config.methods@,
        route.takes(path, method) <==> config.matcher.claims(path) && (config.methods@.len() == 0
            || exists|i: int|
            0 <= i < config.methods@.len() && (#[trigger] config.methods@[i])@ == method),
        route.selector == config.upstream_options.selector,
        plan.upstreams@ == config.upstreams@,
        plan.selection == config.upstream_options.selection,
        plan.health_checks == config.upstream_options.health_checks,
{
    let i = choose|i: int|
        0 <= i < config.methods@.len() && (#[trigger] config.methods@[i])@ == method;
    if exists|i: int|
        0 <= i < config.methods@.len() && (#[trigger] config.methods@[i])@ == method {
        routing::every_listed_method_is_taken(route, path, method, i);
    } else {
        routing::every_listed_method_is_taken(route, path, method, 0);
    }
}

} // verus!
