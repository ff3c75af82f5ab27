//! Matching a request to the set of upstream servers that should serve it.
use crate::config::internal::{RequestSelector, RouteConfig, RouteMatch};
use crate::proxy::message::RequestHead;
use crate::text;
use vstd::prelude::*;

verus! {

/// One route, built and ready to serve.
#[derive(Debug)]
pub struct Route {
    /// For logs, so an operator can tell which route claimed a request.
    pub name: String,
    pub matcher: RouteMatch,
    /// Empty means any method.
    pub methods: Vec<String>,
    /// Which of the service's pools the route's servers are in.
    pub pool: usize,
    /// How the selection key is computed for the route's pool.
    pub selector: RequestSelector,
}

/// A service's routes, in the order they should be tried.
#[derive(Debug)]
pub struct Routes {
    pub routes: Vec<Route>,
}

/// The name used for a route in logs.
pub open spec fn name_of(matcher: RouteMatch) -> Seq<char> {
    match matcher {
        RouteMatch::Any => "*"@,
        RouteMatch::Exact { path } => "="@ + path@,
        RouteMatch::Prefix { path } => path@,
        RouteMatch::Regex { pattern } => "~"@ + pattern.source(),
    }
}

/// The name used for a route in logs.
pub fn route_name(config: &RouteConfig) -> (r: String)
    ensures
        r@ == name_of(config.matcher),
{
    matcher_name(&config.matcher)
}

fn matcher_name(matcher: &RouteMatch) -> (r: String)
    ensures
        r@ == name_of(*matcher),
{
    match matcher {
        RouteMatch::Any => "*".to_owned(),
        RouteMatch::Exact { path } => text::concat2("=", path.as_str()),
        RouteMatch::Prefix { path } => path.clone(),
        RouteMatch::Regex { pattern } => text::concat2("~", pattern.as_str()),
    }
}

impl Route {
    /// The requests that the route claims.
    pub open spec fn takes(self, path: Seq<char>, method: Seq<char>) -> bool {
        (self.methods@.len() == 0 || text::texts(self.methods@).contains(method))
            && self.matcher.claims(path)
    }

    /// Puts a route together. `pool` says where the pool that goes with it
    /// stands among the pools of the service.
    pub fn new(
        matcher: RouteMatch,
        methods: Vec<String>,
        pool: usize,
        selector: RequestSelector,
    ) -> (r: Self)
        ensures
            r.name@ == name_of(matcher),
            r.matcher == matcher,
            r.methods == methods,
            r.pool == pool,
            r.selector == selector,
    {
        Route { name: matcher_name(&matcher), matcher, methods, pool, selector }
    }

    /// Does the route claim this request?
    pub fn claims(&self, path: &str, method: &str) -> (r: bool)
        ensures
            r == self.takes(path@, method@),
    {
        let mut listed = self.methods.len() == 0;
        let mut i: usize = 0;
        while i < self.methods.len()
            invariant
                i <= self.methods@.len(),
                listed == (self.methods@.len() == 0 || exists|k: int|
                    0 <= k < i && text::texts(self.methods@)[k] == method@),
            decreases self.methods@.len() - i,
        {
            assert(text::texts(self.methods@)[i as int] == self.methods@[i as int]@);
            if text::same_text(self.methods[i].as_str(), method) {
                listed = true;
            }
            i = i + 1;
        }
        assert(listed ==> self.methods@.len() == 0 || text::texts(self.methods@).contains(method@));
        listed && self.matcher.matches(path)
    }
}

/// Is rank `a` tried before rank `b`?
pub open spec fn ahead(a: (u8, usize), b: (u8, usize)) -> bool {
    a.0 < b.0 || a.0 == b.0 && a.1 < b.1
}

fn is_ahead(a: (u8, usize), b: (u8, usize)) -> (r: bool)
    ensures
        r == ahead(a, b),
{
    a.0 < b.0 || (a.0 == b.0 && a.1 < b.1)
}

/// A route put into its place among routes that are in order: behind those that
/// it is not ahead of.
pub open spec fn placed(routes: Seq<Route>, route: Route) -> Seq<Route>
    decreases routes.len(),
{
    if routes.len() == 0 || !ahead(route.matcher.rank(), routes.last().matcher.rank()) {
        routes.push(route)
    } else {
        placed(routes.drop_last(), route).push(routes.last())
    }
}

/// The routes in the order they are tried in.
pub open spec fn in_order(routes: Seq<Route>) -> Seq<Route>
    decreases routes.len(),
{
    if routes.len() == 0 {
        Seq::empty()
    } else {
        placed(in_order(routes.drop_last()), routes.last())
    }
}

proof fn lemma_placed_at(routes: Seq<Route>, route: Route, at: int)
    requires
        0 <= at <= routes.len(),
        forall|k: int|
            at <= k < routes.len() ==> ahead(
                route.matcher.rank(),
                (#[trigger] routes[k]).matcher.rank(),
            ),
        at > 0 ==> !ahead(route.matcher.rank(), routes[at - 1].matcher.rank()),
    ensures
        placed(routes, route) == routes.insert(at, route),
    decreases routes.len(),
{
    if at == routes.len() {
        assert(routes.insert(at, route) == routes.push(route));
    } else {
        assert(ahead(route.matcher.rank(), routes[routes.len() - 1].matcher.rank()));
        lemma_placed_at(routes.drop_last(), route, at);
        assert(routes.insert(at, route) == routes.drop_last().insert(at, route).push(
            routes.last(),
        ));
    }
}

/// The first of the routes that claims the request.
pub open spec fn first_to_take(
    routes: Seq<Route>,
    path: Seq<char>,
    method: Seq<char>,
) -> Option<Route>
    decreases routes.len(),
{
    if routes.len() == 0 {
        None
    } else {
        match first_to_take(routes.drop_last(), path, method) {
            Some(r) => Some(r),
            None => if routes.last().takes(path, method) {
                Some(routes.last())
            } else {
                None
            },
        }
    }
}

proof fn lemma_first_stays(routes: Seq<Route>, n: int, path: Seq<char>, method: Seq<char>)
    requires
        0 <= n <= routes.len(),
        first_to_take(routes.take(n), path, method) is Some,
    ensures
        first_to_take(routes, path, method) == first_to_take(routes.take(n), path, method),
    decreases routes.len() - n,
{
    if n < routes.len() {
        assert(routes.take(n + 1).drop_last() == routes.take(n));
        lemma_first_stays(routes, n + 1, path, method);
    } else {
        assert(routes.take(n) == routes);
    }
}

impl Routes {
    /// Sorts the routes into matching order. Routes of one rank, which regular
    /// expressions all are, keep the order they were written in.
    pub fn new(routes: Vec<Route>) -> (r: Self)
        ensures
            r.routes@ == in_order(routes@),
    {
        let mut rest = routes;
        let mut sorted: Vec<Route> = Vec::new();
        let ghost mut done: int = 0;
        while rest.len() > 0
            invariant
                0 <= done <= routes@.len(),
                rest@ == routes@.skip(done),
                sorted@ == in_order(routes@.take(done)),
            decreases rest@.len(),
        {
            let route = rest.remove(0);
            let rank = route.matcher.precedence();
            assert(route == routes@[done]);
            let mut at: usize = sorted.len();
            while at > 0 && is_ahead(rank, sorted[at - 1].matcher.precedence())
                invariant
                    at <= sorted@.len(),
                    rank == route.matcher.rank(),
                    forall|k: int|
                        at <= k < sorted@.len() ==> ahead(
                            rank,
                            (#[trigger] sorted@[k]).matcher.rank(),
                        ),
                decreases at,
            {
                at = at - 1;
            }
            proof {
                lemma_placed_at(sorted@, route, at as int);
                assert(routes@.take(done + 1).drop_last() == routes@.take(done));
            }
            sorted.insert(at, route);
            proof {
                done = done + 1;
            }
            assert(rest@ == routes@.skip(done));
        }
        assert(routes@.take(done) == routes@);
        Routes { routes: sorted }
    }

    /// The route that claims this request, if any.
    pub fn find(&self, head: &RequestHead) -> (r: Option<&Route>)
        ensures
            match r {
                Some(route) => first_to_take(self.routes@, head.asked_path(), head.method@) == Some(
                    *route,
                ),
                None => first_to_take(self.routes@, head.asked_path(), head.method@) is None,
            },
    {
        let mut i: usize = 0;
        while i < self.routes.len()
            invariant
                i <= self.routes@.len(),
                first_to_take(self.routes@.take(i as int), head.asked_path(), head.method@) is None,
            decreases self.routes@.len() - i,
        {
            let ghost next = self.routes@.take(i + 1);
            assert(next.drop_last() == self.routes@.take(i as int));
            assert(next.last() == self.routes@[i as int]);
            if self.routes[i].claims(head.path(), head.method.as_str()) {
                proof {
                    lemma_first_stays(self.routes@, i + 1, head.asked_path(), head.method@);
                }
                return Some(&self.routes[i]);
            }
            i = i + 1;
        }
        assert(self.routes@.take(self.routes@.len() as int) == self.routes@);
        None
    }
}

/// No route stands behind one that it is ahead of.
pub open spec fn sorted(routes: Seq<Route>) -> bool {
    forall|i: int, j: int|
        0 <= i < j < routes.len() ==> !ahead(
            (#[trigger] routes[j]).matcher.rank(),
            (#[trigger] routes[i]).matcher.rank(),
        )
}

/// The routes of one rank, in order.
pub open spec fn of_rank(routes: Seq<Route>, rank: (u8, usize)) -> Seq<Route>
    decreases routes.len(),
{
    if routes.len() == 0 {
        Seq::empty()
    } else {
        let front = of_rank(routes.drop_last(), rank);
        if routes.last().matcher.rank() == rank {
            front.push(routes.last())
        } else {
            front
        }
    }
}

proof fn lemma_placed(routes: Seq<Route>, route: Route)
    requires
        sorted(routes),
    ensures
        sorted(placed(routes, route)),
        placed(routes, route).to_multiset() == routes.to_multiset().insert(route),
        forall|x: Route| #[trigger]
            placed(routes, route).contains(x) <==> x == route || routes.contains(x),
        forall|rank: (u8, usize)| #[trigger]
            of_rank(placed(routes, route), rank) == of_rank(routes.push(route), rank),
    decreases routes.len(),
{
    broadcast use vstd::seq_lib::group_to_multiset_ensures;

    let result = placed(routes, route);
    if routes.len() == 0 || !ahead(route.matcher.rank(), routes.last().matcher.rank()) {
        assert forall|i: int, j: int| 0 <= i < j < result.len() implies !ahead(
            (#[trigger] result[j]).matcher.rank(),
            (#[trigger] result[i]).matcher.rank(),
        ) by {
            if j == routes.len() && i < routes.len() - 1 {
                assert(!ahead(routes.last().matcher.rank(), routes[i].matcher.rank()));
            }
        }
        assert forall|x: Route| #[trigger] result.contains(x) <==> x == route || routes.contains(
            x,
        ) by {
            if routes.contains(x) {
                let k = routes.index_of(x);
                assert(result[k] == x);
            }
            if x == route {
                assert(result[routes.len() as int] == x);
            }
        }
    } else {
        let front = routes.drop_last();
        let last = routes.last();
        lemma_placed(front, route);
        let inner = placed(front, route);
        assert forall|x: Route| inner.contains(x) implies !ahead(
            last.matcher.rank(),
            x.matcher.rank(),
        ) by {
            if x != route {
                let k = front.index_of(x);
                assert(front.contains(x));
                assert(routes[k] == x);
                assert(!ahead(routes[routes.len() - 1].matcher.rank(), routes[k].matcher.rank()));
            }
        }
        assert forall|i: int, j: int| 0 <= i < j < result.len() implies !ahead(
            (#[trigger] result[j]).matcher.rank(),
            (#[trigger] result[i]).matcher.rank(),
        ) by {
            if j == inner.len() {
                assert(inner.contains(inner[i]));
            } else {
                assert(result[i] == inner[i] && result[j] == inner[j]);
            }
        }
        assert(routes == front.push(last));
        assert(result.to_multiset() == inner.to_multiset().insert(last));
        assert(routes.to_multiset() == front.to_multiset().insert(last));
        assert(result.to_multiset() =~= routes.to_multiset().insert(route));
        assert forall|x: Route| #[trigger] result.contains(x) <==> x == route || routes.contains(
            x,
        ) by {
            if result.contains(x) {
                let k = result.index_of(x);
                if k < inner.len() {
                    assert(inner[k] == x);
                    assert(inner.contains(x));
                    if x != route {
                        let m = front.index_of(x);
                        assert(routes[m] == x);
                    }
                } else {
                    assert(routes[routes.len() - 1] == x);
                }
            }
            if x == route {
                let k = inner.index_of(x);
                assert(inner.contains(x));
                assert(result[k] == x);
            }
            if routes.contains(x) {
                let k = routes.index_of(x);
                if k < front.len() {
                    assert(front[k] == x);
                    assert(inner.contains(x));
                    let m = inner.index_of(x);
                    assert(result[m] == x);
                } else {
                    assert(result[inner.len() as int] == x);
                }
            }
        }
        assert forall|rank: (u8, usize)| #[trigger] of_rank(result, rank) == of_rank(
            routes.push(route),
            rank,
        ) by {
            let here = of_rank(front, rank);
            assert(result.drop_last() == inner && result.last() == last);
            assert(front.push(route).drop_last() == front);
            assert(routes.push(route).drop_last() == routes);
            assert(of_rank(front.push(route), rank) == if route.matcher.rank() == rank {
                here.push(route)
            } else {
                here
            });
            assert(of_rank(routes, rank) == if last.matcher.rank() == rank {
                here.push(last)
            } else {
                here
            });
            assert(of_rank(inner, rank) == of_rank(front.push(route), rank));
        }
    }
}

/// Routes are tried in the order of their ranks, none is dropped, none is made
/// up, and routes of one rank keep the order they were written in.
pub proof fn routes_are_tried_by_precedence(routes: Seq<Route>)
    ensures
        sorted(in_order(routes)),
        in_order(routes).to_multiset() == routes.to_multiset(),
        forall|rank: (u8, usize)| #[trigger]
            of_rank(in_order(routes), rank) == of_rank(routes, rank),
    decreases routes.len(),
{
    broadcast use vstd::seq_lib::group_to_multiset_ensures;

    if routes.len() > 0 {
        let front = routes.drop_last();
        routes_are_tried_by_precedence(front);
        lemma_placed(in_order(front), routes.last());
        assert(routes == front.push(routes.last()));
        assert(routes.to_multiset() =~= front.to_multiset().insert(routes.last()));
        assert forall|rank: (u8, usize)| #[trigger] of_rank(in_order(routes), rank) == of_rank(
            routes,
            rank,
        ) by {
            assert(in_order(front).push(routes.last()).drop_last() == in_order(front));
            assert(front.push(routes.last()).drop_last() == front);
            assert(of_rank(in_order(front), rank) == of_rank(front, rank));
        }
    } else {
        assert(routes == Seq::<Route>::empty());
    }
}

proof fn lemma_first_is_ahead(routes: Seq<Route>, path: Seq<char>, method: Seq<char>)
    requires
        sorted(routes),
    ensures
        match first_to_take(routes, path, method) {
            Some(r) => routes.contains(r) && r.takes(path, method) && forall|q: Route|
                #![trigger routes.contains(q)]
                routes.contains(q) && q.takes(path, method) ==> !ahead(
                    q.matcher.rank(),
                    r.matcher.rank(),
                ),
            None => forall|q: Route| #[trigger] routes.contains(q) ==> !q.takes(path, method),
        },
    decreases routes.len(),
{
    if routes.len() > 0 {
        let front = routes.drop_last();
        lemma_first_is_ahead(front, path, method);
        assert forall|q: Route| #[trigger] routes.contains(q) implies q == routes.last()
            || front.contains(q) by {
            let k = routes.index_of(q);
            if k < front.len() {
                assert(front[k] == q);
            }
        }
        match first_to_take(front, path, method) {
            Some(r) => {
                let k = front.index_of(r);
                assert(routes[k] == r);
                assert(!ahead(routes[routes.len() - 1].matcher.rank(), routes[k].matcher.rank()));
            },
            None => {
                assert(routes.contains(routes.last())) by {
                    assert(routes[routes.len() - 1] == routes.last());
                }
            },
        }
    }
}

/// The route that gets a request claims it, and no route that claims it as well
/// is ahead of the one that gets it. Where no route gets it, none claims it.
/// The order in which the routes were written does not come into it.
pub proof fn the_most_specific_route_wins(
    routes: Seq<Route>,
    path: Seq<char>,
    method: Seq<char>,
)
    ensures
        match first_to_take(in_order(routes), path, method) {
            Some(r) => routes.contains(r) && r.takes(path, method) && forall|q: Route|
                #![trigger routes.contains(q)]
                routes.contains(q) && q.takes(path, method) ==> !ahead(
                    q.matcher.rank(),
                    r.matcher.rank(),
                ),
            None => forall|q: Route| #[trigger] routes.contains(q) ==> !q.takes(path, method),
        },
{
    broadcast use vstd::seq_lib::group_to_multiset_ensures;

    routes_are_tried_by_precedence(routes);
    lemma_first_is_ahead(in_order(routes), path, method);
    assert forall|q: Route| #[trigger] routes.contains(q) <==> in_order(routes).contains(q) by {
        routes.to_multiset_ensures();
        in_order(routes).to_multiset_ensures();
        assert(routes.contains(q) <==> routes.to_multiset().count(q) > 0);
        assert(in_order(routes).contains(q) <==> in_order(routes).to_multiset().count(q) > 0);
    }
}

/// A prefix that reaches further is tried before one that it continues.
pub proof fn a_longer_prefix_is_ahead(short: RouteMatch, long: RouteMatch)
    requires
        short is Prefix,
        long is Prefix,
        text::utf8(short->Prefix_path@).len() < text::utf8(long->Prefix_path@).len()
            <= usize::MAX,
    ensures
        ahead(long.rank(), short.rank()),
{
}

/// Exact routes come before prefixes, prefixes before regular expressions, and
/// the catch-all comes last.
pub proof fn kinds_are_tried_in_turn(
    exact: RouteMatch,
    prefix: RouteMatch,
    regex: RouteMatch,
    any: RouteMatch,
)
    requires
        exact is Exact,
        prefix is Prefix,
        regex is Regex,
        any is Any,
    ensures
        ahead(exact.rank(), prefix.rank()),
        ahead(prefix.rank(), regex.rank()),
        ahead(regex.rank(), any.rank()),
{
}

/// Could the two claim the same requests without one of them being ahead of the
/// other? Regular expressions could, and so could two routes for the same path.
pub open spec fn rivals(a: RouteMatch, b: RouteMatch) -> bool {
    match (a, b) {
        (RouteMatch::Any, RouteMatch::Any) => true,
        (RouteMatch::Exact { path: p }, RouteMatch::Exact { path: q }) => p@ == q@,
        (RouteMatch::Prefix { path: p }, RouteMatch::Prefix { path: q }) => p@ == q@,
        (RouteMatch::Regex { .. }, RouteMatch::Regex { .. }) => true,
        _ => false,
    }
}

/// No more bytes than a text can have.
pub open spec fn is_held(m: RouteMatch) -> bool {
    m matches RouteMatch::Prefix { path } ==> text::utf8(path@).len() <= usize::MAX
}

proof fn lemma_longer_takes_more_bytes(s: Seq<char>, n: int, m: int)
    requires
        0 <= n < m <= s.len(),
    ensures
        text::utf8(s.take(n)).len() < text::utf8(s.take(m)).len(),
    decreases n,
{
    let short = s.take(n);
    let long = s.take(m);
    if n > 0 {
        lemma_longer_takes_more_bytes(s.drop_first(), n - 1, m - 1);
        assert(short.drop_first() == s.drop_first().take(n - 1));
        assert(long.drop_first() == s.drop_first().take(m - 1));
        assert(short[0] == long[0]);
    } else {
        assert(text::utf8(short).len() == 0);
        assert(text::utf8(long) == vstd::utf8::encode_scalar(long[0] as u32) + text::utf8(
            long.drop_first(),
        ));
    }
}

proof fn lemma_one_is_ahead(a: RouteMatch, b: RouteMatch, path: Seq<char>)
    requires
        a.claims(path),
        b.claims(path),
        !rivals(a, b),
        is_held(a),
        is_held(b),
    ensures
        ahead(a.rank(), b.rank()) || ahead(b.rank(), a.rank()),
{
    match (a, b) {
        (RouteMatch::Prefix { path: p }, RouteMatch::Prefix { path: q }) => {
            assert(p@ == path.take(p@.len() as int));
            assert(q@ == path.take(q@.len() as int));
            if p@.len() < q@.len() {
                lemma_longer_takes_more_bytes(path, p@.len() as int, q@.len() as int);
            } else if q@.len() < p@.len() {
                lemma_longer_takes_more_bytes(path, q@.len() as int, p@.len() as int);
            }
        },
        _ => {},
    }
}

/// The routes that claim a request, in order.
pub open spec fn claimants(routes: Seq<Route>, path: Seq<char>, method: Seq<char>) -> Seq<Route>
    decreases routes.len(),
{
    if routes.len() == 0 {
        Seq::empty()
    } else {
        let front = claimants(routes.drop_last(), path, method);
        if routes.last().takes(path, method) {
            front.push(routes.last())
        } else {
            front
        }
    }
}

/// Who gets a request is the first of the routes of its rank that claim it.
proof fn lemma_first_of_rank(
    routes: Seq<Route>,
    rank: (u8, usize),
    path: Seq<char>,
    method: Seq<char>,
)
    ensures
        match first_to_take(routes, path, method) {
            Some(r) => r.matcher.rank() == rank ==> {
                let found = claimants(of_rank(routes, rank), path, method);
                found.len() > 0 && found[0] == r
            },
            None => claimants(of_rank(routes, rank), path, method).len() == 0,
        },
    decreases routes.len(),
{
    if routes.len() > 0 {
        let front = routes.drop_last();
        lemma_first_of_rank(front, rank, path, method);
        let here = of_rank(front, rank);
        assert(here.push(routes.last()).drop_last() == here);
    }
}

/// Where the routes stand in the file makes no difference to who gets a request. The
/// one exception are routes that claim it with equal right: several regular expressions,
/// or several routes for the same path. Those have to keep their order among themselves.
pub proof fn moving_a_route_changes_nothing(
    written: Seq<Route>,
    moved: Seq<Route>,
    path: Seq<char>,
    method: Seq<char>,
)
    requires
        forall|q: Route| #[trigger] written.contains(q) <==> moved.contains(q),
        forall|q: Route| #[trigger] written.contains(q) ==> is_held(q.matcher),
        forall|q: Route, r: Route|
            #![trigger written.contains(q), written.contains(r)]
            written.contains(q) && written.contains(r) && q != r && q.takes(path, method)
                && r.takes(path, method) && rivals(q.matcher, r.matcher) ==> claimants(
                of_rank(written, q.matcher.rank()),
                path,
                method,
            ) == claimants(of_rank(moved, q.matcher.rank()), path, method),
    ensures
        first_to_take(in_order(written), path, method) == first_to_take(
            in_order(moved),
            path,
            method,
        ),
{
    the_most_specific_route_wins(written, path, method);
    the_most_specific_route_wins(moved, path, method);
    match (
        first_to_take(in_order(written), path, method),
        first_to_take(in_order(moved), path, method),
    ) {
        (Some(q), Some(r)) => {
            assert(written.contains(q) && written.contains(r));
            assert(moved.contains(q) && moved.contains(r));
            if q != r {
                if rivals(q.matcher, r.matcher) {
                    let rank = q.matcher.rank();
                    assert(r.matcher.rank() == rank);
                    routes_are_tried_by_precedence(written);
                    routes_are_tried_by_precedence(moved);
                    lemma_first_of_rank(in_order(written), rank, path, method);
                    lemma_first_of_rank(in_order(moved), rank, path, method);
                    assert(of_rank(in_order(written), rank) == of_rank(written, rank));
                    assert(of_rank(in_order(moved), rank) == of_rank(moved, rank));
                } else {
                    lemma_one_is_ahead(q.matcher, r.matcher, path);
                }
            }
        },
        (Some(q), None) => {
            assert(written.contains(q));
            assert(moved.contains(q));
        },
        (None, Some(r)) => {
            assert(moved.contains(r));
            assert(written.contains(r));
        },
        (None, None) => {},
    }
}

/// A route takes a request with any of the methods that it lists, wherever in the list
/// that one stands, where its matcher claims the path. It takes no other method, unless it
/// lists none: then it takes them all.
pub proof fn every_listed_method_is_taken(
    route: Route,
    path: Seq<char>,
    method: Seq<char>,
    i: int,
)
    ensures
        !route.matcher.claims(path) ==> !route.takes(path, method),
        0 <= i < route.methods@.len() && route.methods@[i]@ == method && route.matcher.claims(path)
            ==> route.takes(path, method),
        0 <= i < route.methods@.len() && route.matcher.claims(path) ==> route.takes(
            path,
            route.methods@[i]@,
        ),
        route.methods@.len() == 0 ==> route.takes(path, method) == route.matcher.claims(path),
        route.methods@.len() > 0 && (forall|k: int|
            0 <= k < route.methods@.len() ==> (#[trigger] route.methods@[k])@ != method)
            ==> !route.takes(path, method),
{
    let listed = text::texts(route.methods@);
    if 0 <= i < listed.len() {
        assert(listed[i] == route.methods@[i]@);
        assert(listed.contains(listed[i]));
    }
    if listed.contains(method) {
        let k = listed.index_of(method);
        assert(route.methods@[k]@ == method);
    }
}

/// A request goes to the first route that takes it, and to none only where none does.
pub proof fn the_first_route_that_takes_it_wins(
    routes: Seq<Route>,
    path: Seq<char>,
    method: Seq<char>,
    i: int,
)
    requires
        0 <= i <= routes.len(),
        forall|k: int| 0 <= k < i ==> !(#[trigger] routes[k]).takes(path, method),
        i < routes.len() ==> routes[i].takes(path, method),
    ensures
        first_to_take(routes, path, method) == (if i < routes.len() {
            Some(routes[i])
        } else {
            None
        }),
    decreases routes.len(),
{
    if routes.len() > 0 {
        let front = routes.drop_last();
        assert forall|k: int| 0 <= k < front.len() implies #[trigger] front[k] == routes[k] by {}
        if i < front.len() {
            the_first_route_that_takes_it_wins(front, path, method, i);
        } else {
            the_first_route_that_takes_it_wins(front, path, method, front.len() as int);
        }
    }
}

} // verus!
