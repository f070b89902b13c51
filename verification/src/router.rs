//! Path-based routing.

use crate::config::{Config, LoadBalancingAlgorithm, RouteConfig, Upstream};
use crate::lb;
use crate::lb::LoadBalancer;
use crate::text;
use vstd::prelude::*;

verus! {

/// One route: path prefix and its own load balancer.
pub struct Route {
    pub path_prefix: String,
    pub lb: LoadBalancer,
}

/// Ordered route table (first match wins).
pub struct Router {
    routes: Vec<Route>,
    /// Fallback when no path-specific route matches.
    default: Option<LoadBalancer>,
}

/// The empty prefix stands for `/`.
pub open spec fn normalized(p: Seq<char>) -> Seq<char> {
    if p.len() == 0 {
        "/"@
    } else {
        p
    }
}

/// The prefix itself, and `/` in place of the empty one.
pub fn normalize_prefix(p: &str) -> (r: String)
    ensures
        r@ == normalized(p@),
{
    if p.is_empty() {
        "/".to_owned()
    } else {
        p.to_owned()
    }
}

/// Whether a path is served under a prefix: the prefix is `/`, or the path is the prefix, or the
/// path goes on with `/` after the prefix.
pub open spec fn matches_prefix(path: Seq<char>, prefix: Seq<char>) -> bool {
    prefix == "/"@ || path == prefix || text::without_trailing(prefix, '/').push(
        '/',
    ).is_prefix_of(path)
}

/// Whether a path is served under a prefix.
pub fn path_matches(path: &str, prefix: &str) -> (r: bool)
    ensures
        r == matches_prefix(path@, prefix@),
{
    if text::same_str(prefix, "/") {
        return true;
    }
    if text::same_str(path, prefix) {
        return true;
    }
    let p: Vec<char> = text::chars(prefix);
    let stem: &[char] = text::trim_end_char(p.as_slice(), '/');
    let mut start: Vec<char> = text::chars(text::text(stem).as_str());
    start.push('/');
    text::starts_with(text::chars(path).as_slice(), start.as_slice())
}

/// The prefixes of the configured routes.
pub open spec fn prefixes(routes: Seq<RouteConfig>) -> Seq<Seq<char>> {
    Seq::new(routes.len(), |i: int| normalized(routes[i].path_prefix@))
}

/// The algorithm of a route: its own, or else the global one.
pub open spec fn route_algorithm(
    r: RouteConfig,
    global: LoadBalancingAlgorithm,
) -> LoadBalancingAlgorithm {
    match r.load_balancing {
        Some(a) => a,
        None => global,
    }
}

/// Whether a balancer is new, over the given upstreams.
pub open spec fn fresh(
    b: LoadBalancer,
    upstreams: Seq<Upstream>,
    algorithm: LoadBalancingAlgorithm,
) -> bool {
    b.wf() && b.chosen_by() == algorithm && b.counter() == 0 && lb::starts(b.pool(), upstreams)
}

/// Whether a route was made from its configuration.
pub open spec fn made_from(
    route: Route,
    r: RouteConfig,
    global: LoadBalancingAlgorithm,
) -> bool {
    route.path_prefix@ == normalized(r.path_prefix@) && fresh(
        route.lb,
        r.upstreams@,
        route_algorithm(r, global),
    )
}

/// Whether a table lists the routes of a configuration, in their order.
pub open spec fn table_of(
    routes: Seq<Route>,
    configured: Seq<RouteConfig>,
    global: LoadBalancingAlgorithm,
) -> bool {
    routes.len() == configured.len() && forall|k: int|
        0 <= k < routes.len() ==> made_from(#[trigger] routes[k], configured[k], global)
}

/// Whether a balancer is one over the given upstreams, whatever their health, their connections
/// and the turns that were taken.
pub open spec fn balances(
    b: LoadBalancer,
    upstreams: Seq<Upstream>,
    algorithm: LoadBalancingAlgorithm,
) -> bool {
    b.wf() && b.chosen_by() == algorithm && b.pool().len() == upstreams.len() && forall|i: int|
        0 <= i < b.pool().len() ==> (#[trigger] b.pool()[i]).address@ == upstreams[i].address@
            && b.pool()[i].weight == upstreams[i].weight
}

/// Whether a route is the one of its configuration.
pub open spec fn serves_as(route: Route, r: RouteConfig, global: LoadBalancingAlgorithm) -> bool {
    route.path_prefix@ == normalized(r.path_prefix@) && balances(
        route.lb,
        r.upstreams@,
        route_algorithm(r, global),
    )
}

/// Whether a table serves the routes of a configuration, in their order.
pub open spec fn serves_in_order(
    routes: Seq<Route>,
    configured: Seq<RouteConfig>,
    global: LoadBalancingAlgorithm,
) -> bool {
    routes.len() == configured.len() && forall|k: int|
        0 <= k < routes.len() ==> serves_as(#[trigger] routes[k], configured[k], global)
}

/// The first route in the table that serves a path.
pub open spec fn first_match(routes: Seq<Route>, path: Seq<char>) -> Option<int>
    decreases routes.len(),
{
    if routes.len() == 0 {
        None
    } else if first_match(routes.drop_last(), path) is Some {
        first_match(routes.drop_last(), path)
    } else if matches_prefix(path, routes.last().path_prefix@) {
        Some(routes.len() - 1)
    } else {
        None
    }
}

impl Router {
    /// The routes, in the order in which they are tried.
    pub closed spec fn routes(&self) -> Seq<Route> {
        self.routes@
    }

    /// The balancer for paths that no route serves.
    pub closed spec fn fallback(&self) -> Option<LoadBalancer> {
        self.default
    }

    /// Every balancer is well-formed.
    pub open spec fn wf(&self) -> bool {
        &&& forall|k: int| 0 <= k < self.routes().len() ==> (#[trigger] self.routes()[k]).lb.wf()
        &&& self.fallback() matches Some(b) ==> b.wf()
    }

    /// Whether the table is the one of a configuration: its routes in the order in which they are
    /// listed, and a fallback where there is a default pool.
    pub open spec fn built_from(&self, config: Config) -> bool {
        &&& table_of(self.routes(), config.routes@, config.load_balancing)
        &&& match self.fallback() {
            Some(b) => config.upstreams@.len() > 0 && fresh(
                b,
                config.upstreams@,
                config.load_balancing,
            ),
            None => config.upstreams@.len() == 0,
        }
    }

    /// Whether the table is the one of a configuration, whatever became of its upstreams.
    pub open spec fn serves(&self, config: Config) -> bool {
        &&& serves_in_order(self.routes(), config.routes@, config.load_balancing)
        &&& match self.fallback() {
            Some(b) => config.upstreams@.len() > 0 && balances(
                b,
                config.upstreams@,
                config.load_balancing,
            ),
            None => config.upstreams@.len() == 0,
        }
    }

    /// The table of a configuration: its routes in the order in which they are listed.
    pub fn from_config(config: &Config) -> (r: Self)
        ensures
            r.wf(),
            r.built_from(*config),
    {
        let mut routes: Vec<Route> = Vec::new();
        let n: usize = config.routes.len();
        let mut i: usize = 0;
        while i < n
            invariant
                n == config.routes@.len(),
                i <= n,
                table_of(routes@, config.routes@.take(i as int), config.load_balancing),
            decreases n - i,
        {
            let ghost before = routes@;
            let rc: &RouteConfig = &config.routes[i];
            let algorithm: LoadBalancingAlgorithm = match rc.load_balancing {
                Some(a) => a,
                None => config.load_balancing,
            };
            let route: Route = Route {
                path_prefix: normalize_prefix(rc.path_prefix.as_str()),
                lb: LoadBalancer::from_upstreams(rc.upstreams.as_slice(), algorithm),
            };
            routes.push(route);
            proof {
                let listed = config.routes@.take(i as int + 1);
                assert forall|k: int| 0 <= k < routes@.len() implies made_from(
                    #[trigger] routes@[k],
                    listed[k],
                    config.load_balancing,
                ) by {
                    if k < i {
                        assert(routes@[k] == before[k]);
                        assert(made_from(
                            before[k],
                            config.routes@.take(i as int)[k],
                            config.load_balancing,
                        ));
                    }
                }
            }
            i = i + 1;
        }
        assert(config.routes@.take(n as int) =~= config.routes@);
        let default: Option<LoadBalancer> = if config.upstreams.len() > 0 {
            Some(LoadBalancer::from_config(config))
        } else {
            None
        };
        Router { routes, default }
    }

    /// The position of the first route that serves a path.
    fn find(&self, path: &str) -> (r: Option<usize>)
        ensures
            match first_match(self.routes(), path@) {
                Some(k) => r matches Some(i) && i == k && 0 <= k < self.routes().len(),
                None => r is None,
            },
    {
        let n: usize = self.routes.len();
        let mut i: usize = 0;
        assert(self.routes().take(0) =~= Seq::empty());
        while i < n
            invariant
                n == self.routes@.len(),
                i <= n,
                first_match(self.routes().take(i as int), path@) is None,
            decreases n - i,
        {
            assert(self.routes().take(i as int + 1).drop_last() =~= self.routes().take(i as int));
            if path_matches(path, self.routes[i].path_prefix.as_str()) {
                proof {
                    lemma_first_match(self.routes(), path@, i as int + 1);
                }
                return Some(i);
            }
            i = i + 1;
        }
        assert(self.routes().take(n as int) =~= self.routes());
        None
    }

    /// Resolve load balancer for a request path: that of the first route that serves it, or else
    /// the fallback.
    pub fn resolve(&self, path: &str) -> (r: Option<&LoadBalancer>)
        ensures
            match first_match(self.routes(), path@) {
                Some(k) => r matches Some(b) && *b == self.routes()[k].lb,
                None => match self.fallback() {
                    Some(d) => r matches Some(b) && *b == d,
                    None => r is None,
                },
            },
    {
        match self.find(path) {
            Some(i) => Some(&self.routes[i].lb),
            None => match &self.default {
                Some(d) => Some(d),
                None => None,
            },
        }
    }

    /// The balancer that `resolve` gives, to be changed.
    pub fn resolve_mut(&mut self, path: &str) -> (r: Option<&mut LoadBalancer>)
        ensures
            match first_match(old(self).routes(), path@) {
                Some(k) => r matches Some(b) && *b == old(self).routes()[k].lb
                    && final(self).fallback() == old(self).fallback() && final(self).routes()
                    == old(self).routes().update(
                    k,
                    (Route { path_prefix: old(self).routes()[k].path_prefix, lb: *final(b) }),
                ),
                None => final(self).routes() == old(self).routes() && match old(self).fallback() {
                    Some(d) => r matches Some(b) && *b == d && final(self).fallback() == Some(
                        *final(b),
                    ),
                    None => r is None && final(self).fallback() is None,
                },
            },
    {
        match self.find(path) {
            Some(i) => Some(&mut self.routes[i].lb),
            None => match &mut self.default {
                Some(d) => Some(d),
                None => None,
            },
        }
    }

    /// All load balancers (for health checks): those of the routes in their order, and the
    /// fallback.
    pub fn all_lbs(&self) -> (r: Vec<&LoadBalancer>)
        ensures
            r@.len() == self.routes().len() + (if self.fallback() is Some {
                1int
            } else {
                0
            }),
            forall|k: int|
                0 <= k < self.routes().len() ==> *(#[trigger] r@[k]) == self.routes()[k].lb,
            self.fallback() matches Some(d) ==> *r@[self.routes().len() as int] == d,
    {
        let mut out: Vec<&LoadBalancer> = Vec::new();
        let n: usize = self.routes.len();
        let mut i: usize = 0;
        while i < n
            invariant
                n == self.routes@.len(),
                i <= n,
                out@.len() == i,
                forall|k: int| 0 <= k < i ==> *(#[trigger] out@[k]) == self.routes()[k].lb,
            decreases n - i,
        {
            out.push(&self.routes[i].lb);
            i = i + 1;
        }
        match &self.default {
            Some(d) => {
                out.push(d);
            },
            None => {},
        }
        out
    }

    /// The balancer at a position of `all_lbs`, to be changed.
    pub fn lb_mut(&mut self, i: usize) -> (r: Option<&mut LoadBalancer>)
        ensures
            if i < old(self).routes().len() {
                r matches Some(b) && *b == old(self).routes()[i as int].lb
                    && final(self).fallback() == old(self).fallback() && final(self).routes()
                    == old(self).routes().update(
                    i as int,
                    (Route {
                        path_prefix: old(self).routes()[i as int].path_prefix,
                        lb: *final(b),
                    }),
                )
            } else if i == old(self).routes().len() && old(self).fallback() is Some {
                r matches Some(b) && *b == old(self).fallback()->0 && final(self).fallback()
                    == Some(*final(b)) && final(self).routes() == old(self).routes()
            } else {
                r is None && final(self).routes() == old(self).routes() && final(self).fallback()
                    == old(self).fallback()
            },
    {
        if i < self.routes.len() {
            Some(&mut self.routes[i].lb)
        } else if i == self.routes.len() {
            match &mut self.default {
                Some(d) => Some(d),
                None => None,
            }
        } else {
            None
        }
    }
}

/// An early match is the match.
proof fn lemma_first_match(routes: Seq<Route>, path: Seq<char>, k: int)
    requires
        0 <= k <= routes.len(),
        first_match(routes.take(k), path) is Some,
    ensures
        first_match(routes, path) == first_match(routes.take(k), path),
    decreases routes.len() - k,
{
    if k < routes.len() {
        assert(routes.take(k + 1).drop_last() =~= routes.take(k));
        lemma_first_match(routes, path, k + 1);
    } else {
        assert(routes.take(k) =~= routes);
    }
}

/// What the first match is: a route that serves the path, while no earlier one does.
pub proof fn law_first_match(routes: Seq<Route>, path: Seq<char>)
    ensures
        match first_match(routes, path) {
            Some(k) => 0 <= k < routes.len() && matches_prefix(path, routes[k].path_prefix@)
                && forall|j: int|
                0 <= j < k ==> !matches_prefix(path, (#[trigger] routes[j]).path_prefix@),
            None => forall|j: int|
                0 <= j < routes.len() ==> !matches_prefix(
                    path,
                    (#[trigger] routes[j]).path_prefix@,
                ),
        },
    decreases routes.len(),
{
    if routes.len() > 0 {
        let p = routes.drop_last();
        law_first_match(p, path);
        assert(forall|j: int| 0 <= j < p.len() ==> #[trigger] routes[j] == p[j]);
    }
}

/// A new table serves its configuration.
pub proof fn law_new_table_serves(router: Router, config: Config)
    requires
        router.built_from(config),
    ensures
        router.serves(config),
{
    let rs = router.routes();
    assert forall|k: int| 0 <= k < rs.len() implies serves_as(
        #[trigger] rs[k],
        config.routes@[k],
        config.load_balancing,
    ) by {
        assert(made_from(rs[k], config.routes@[k], config.load_balancing));
    }
}

/// Whether a balancer is another one at a later time: the same algorithm over the same addresses
/// and weights.
pub open spec fn grown_from(b: LoadBalancer, from: LoadBalancer) -> bool {
    b.wf() && b.chosen_by() == from.chosen_by() && b.pool().len() == from.pool().len()
        && forall|i: int|
        0 <= i < b.pool().len() ==> (#[trigger] b.pool()[i]).address@ == from.pool()[i].address@
            && b.pool()[i].weight == from.pool()[i].weight
}

/// A table goes on serving its configuration when selections, connections and health checks change
/// its balancers: they leave the prefixes, the addresses, the weights and the algorithms alone.
pub proof fn law_table_kept(before: Router, after: Router, config: Config)
    requires
        before.serves(config),
        after.routes().len() == before.routes().len(),
        forall|k: int|
            0 <= k < after.routes().len() ==> (#[trigger] after.routes()[k]).path_prefix@
                == before.routes()[k].path_prefix@ && grown_from(
                after.routes()[k].lb,
                before.routes()[k].lb,
            ),
        match (before.fallback(), after.fallback()) {
            (Some(b), Some(a)) => grown_from(a, b),
            (None, None) => true,
            _ => false,
        },
    ensures
        after.serves(config),
{
    let rs = before.routes();
    assert forall|j: int| 0 <= j < rs.len() implies serves_as(
        #[trigger] after.routes()[j],
        config.routes@[j],
        config.load_balancing,
    ) by {
        assert(serves_as(rs[j], config.routes@[j], config.load_balancing));
    }
}

/// First match wins: in the table of a configuration a path goes to the first listed route that
/// serves it, and to the fallback exactly where no configured route does.
pub proof fn law_first_listed_wins(router: Router, config: Config, path: Seq<char>)
    requires
        router.serves(config),
    ensures
        match first_match(router.routes(), path) {
            Some(k) => {
                &&& 0 <= k < config.routes@.len()
                &&& serves_as(router.routes()[k], config.routes@[k], config.load_balancing)
                &&& matches_prefix(path, prefixes(config.routes@)[k])
                &&& forall|j: int|
                    0 <= j < k ==> !matches_prefix(path, #[trigger] prefixes(config.routes@)[j])
            },
            None => forall|j: int|
                0 <= j < config.routes@.len() ==> !matches_prefix(
                    path,
                    #[trigger] prefixes(config.routes@)[j],
                ),
        },
{
    let ps = prefixes(config.routes@);
    let rs = router.routes();
    law_first_match(rs, path);
    assert forall|j: int| 0 <= j < rs.len() implies #[trigger] ps[j] == rs[j].path_prefix@ by {
        assert(serves_as(rs[j], config.routes@[j], config.load_balancing));
    }
    match first_match(rs, path) {
        Some(k) => {
            assert(serves_as(rs[k], config.routes@[k], config.load_balancing));
            assert(ps[k] == rs[k].path_prefix@);
        },
        None => {},
    }
}

/// Where the routes are listed from the longest prefix to the shortest, a path goes to the route
/// with the longest prefix that serves it.
pub proof fn law_longest_first_list(router: Router, config: Config, path: Seq<char>, j: int)
    requires
        router.serves(config),
        forall|a: int, b: int|
            0 <= a < b < config.routes@.len() ==> (#[trigger] prefixes(config.routes@)[a]).len()
                >= (#[trigger] prefixes(config.routes@)[b]).len(),
        0 <= j < config.routes@.len(),
        matches_prefix(path, prefixes(config.routes@)[j]),
    ensures
        first_match(router.routes(), path) matches Some(k) && prefixes(config.routes@)[k].len()
            >= prefixes(config.routes@)[j].len(),
{
    law_first_listed_wins(router, config, path);
}

/// A prefix matches whole path segments only: where a path is longer than a prefix that serves it
/// (other than `/`, and without a slash at its end), a slash follows the prefix.
pub proof fn law_segment_boundary(path: Seq<char>, prefix: Seq<char>)
    requires
        prefix.len() > 0,
        prefix.last() != '/',
        matches_prefix(path, prefix),
    ensures
        path == prefix || (prefix.is_prefix_of(path) && path.len() > prefix.len()
            && path[prefix.len() as int] == '/'),
{
    reveal_strlit("/");
    assert("/"@.last() == '/');
    if path != prefix {
        let s = prefix.push('/');
        assert(text::without_trailing(prefix, '/') == prefix);
        assert(path[prefix.len() as int] == s[prefix.len() as int]);
        assert(prefix =~= path.take(prefix.len() as int)) by {
            assert(s =~= path.take(s.len() as int));
            assert forall|i: int| 0 <= i < prefix.len() implies prefix[i] == path[i] by {
                assert(s[i] == prefix[i]);
            }
        }
    }
}

/// The prefix `/`, and the empty one that stands for it, serve every path.
pub proof fn law_root_serves_all(path: Seq<char>)
    ensures
        matches_prefix(path, normalized(Seq::empty())),
        matches_prefix(path, normalized("/"@)),
{
    reveal_strlit("/");
}

/// A prefix that is not empty stands for itself, and the empty one for a slash.
pub proof fn law_normalized(p: Seq<char>)
    ensures
        p.len() > 0 ==> normalized(p) == p,
        p.len() == 0 ==> normalized(p) == seq!['/'],
{
    reveal_strlit("/");
}

/// Which paths a prefix serves: slashes at its end aside, those that go on after it with a slash,
/// whatever comes then; the prefix itself; and every path, where the prefix is a single slash.
pub proof fn law_served_paths(path: Seq<char>, stem: Seq<char>, slashes: nat)
    requires
        stem.len() > 0 ==> stem.last() != '/',
    ensures
        matches_prefix(path, stem + text::repeated('/', slashes)) <==> {
            ||| stem.len() == 0 && slashes == 1
            ||| path == stem + text::repeated('/', slashes)
            ||| path.len() > stem.len() && path[stem.len() as int] == '/' && path.take(
                stem.len() as int,
            ) == stem
        },
{
    reveal_strlit("/");
    let prefix = stem + text::repeated('/', slashes);
    text::law_run_is_taken_off(stem, '/', slashes);
    let start = stem.push('/');
    assert(prefix == "/"@ <==> stem.len() == 0 && slashes == 1) by {
        if prefix == "/"@ {
            assert(prefix.len() == 1);
            if stem.len() > 0 {
                assert(prefix[0] == stem[0]);
                assert("/"@[0] == '/');
            }
        }
        if stem.len() == 0 && slashes == 1 {
            assert(prefix =~= "/"@);
        }
    }
    let goes_on = path.len() > stem.len() && path[stem.len() as int] == '/' && path.take(
        stem.len() as int,
    ) == stem;
    assert(start.is_prefix_of(path) <==> goes_on) by {
        if start.is_prefix_of(path) {
            assert(start =~= path.take(start.len() as int));
            assert(path[stem.len() as int] == start[stem.len() as int]);
            assert forall|i: int| 0 <= i < stem.len() implies path[i] == stem[i] by {
                assert(path.take(start.len() as int)[i] == start[i]);
            }
            assert(path.take(stem.len() as int) =~= stem);
        }
        if goes_on {
            assert forall|i: int| 0 <= i < stem.len() implies path[i] == stem[i] by {
                assert(path.take(stem.len() as int)[i] == stem[i]);
            }
            assert(start =~= path.take(start.len() as int));
        }
    }
}

/// Everything below a prefix is served, however deep it lies: a path that is the prefix, a slash
/// and any rest. It makes no difference whether the prefix is written with a slash at its end.
pub proof fn law_below_is_served(prefix: Seq<char>, rest: Seq<char>)
    requires
        prefix.len() > 0 ==> prefix.last() != '/',
    ensures
        matches_prefix(prefix + seq!['/'] + rest, prefix),
        matches_prefix(prefix + seq!['/'] + rest, prefix + seq!['/']),
{
    let path = prefix + seq!['/'] + rest;
    assert(path.take(prefix.len() as int) =~= prefix);
    law_served_paths(path, prefix, 0);
    law_served_paths(path, prefix, 1);
    assert(prefix + text::repeated('/', 0) =~= prefix);
    assert(prefix + text::repeated('/', 1) =~= prefix + seq!['/']);
}

/// A prefix serves itself, and no path that goes on after it with anything but a slash.
pub proof fn law_beside_is_not_served(prefix: Seq<char>, c: char, rest: Seq<char>)
    requires
        prefix.len() > 0,
        prefix.last() != '/',
        c != '/',
    ensures
        matches_prefix(prefix, prefix),
        !matches_prefix(prefix + seq![c] + rest, prefix),
        !matches_prefix(prefix + seq![c] + rest, prefix + seq!['/']),
{
    let path = prefix + seq![c] + rest;
    assert(path[prefix.len() as int] == c);
    law_served_paths(path, prefix, 0);
    law_served_paths(path, prefix, 1);
    assert(prefix + text::repeated('/', 0) =~= prefix);
    assert(prefix + text::repeated('/', 1) =~= prefix + seq!['/']);
    assert((prefix + seq!['/'])[prefix.len() as int] == '/');
    assert(path.len() > prefix.len());
}

/// Whether a pool is new, over the given upstreams: their addresses and weights in their order, all
/// of them healthy and without a connection.
pub open spec fn new_pool(pool: Seq<lb::UpstreamRuntime>, upstreams: Seq<Upstream>) -> bool {
    pool.len() == upstreams.len() && forall|i: int|
        0 <= i < pool.len() ==> (#[trigger] pool[i]).address@ == upstreams[i].address@
            && pool[i].weight == upstreams[i].weight && pool[i].healthy
            && pool[i].active_connections == 0
}

/// A new table has one route for each that is configured, at the same place: under the configured
/// prefix, with the route's own algorithm where it names one and the global one elsewhere, over the
/// route's own upstreams. The fallback is over the default upstreams, with the global algorithm,
/// and is there exactly where there are such upstreams.
pub proof fn law_new_table(router: Router, config: Config, k: int)
    requires
        router.built_from(config),
    ensures
        router.routes().len() == config.routes@.len(),
        0 <= k < config.routes@.len() ==> {
            let route = router.routes()[k];
            let r = config.routes@[k];
            &&& r.path_prefix@.len() > 0 ==> route.path_prefix@ == r.path_prefix@
            &&& r.path_prefix@.len() == 0 ==> route.path_prefix@ == seq!['/']
            &&& r.load_balancing is Some ==> route.lb.chosen_by() == r.load_balancing->0
            &&& r.load_balancing is None ==> route.lb.chosen_by() == config.load_balancing
            &&& route.lb.counter() == 0
            &&& new_pool(route.lb.pool(), r.upstreams@)
        },
        router.fallback() is Some <==> config.upstreams@.len() > 0,
        router.fallback() matches Some(b) ==> b.chosen_by() == config.load_balancing
            && b.counter() == 0 && new_pool(b.pool(), config.upstreams@),
{
    if 0 <= k < config.routes@.len() {
        assert(made_from(router.routes()[k], config.routes@[k], config.load_balancing));
        law_normalized(config.routes@[k].path_prefix@);
    }
}

} // verus!
