//! The decisions on a request: whether it is let in, how often and where it is tried, and what is
//! answered where it fails.

use crate::addr::IpAddr;
use crate::config::{HeaderConfig, StickyConfig};
use crate::headers;
use crate::lb;
use crate::lb::laws;
use crate::lb::LoadBalancer;
use crate::proxy::body_limit::BodyLimitError;
use crate::proxy::forward;
use crate::ratelimit::RateLimiter;
use crate::router;
use crate::router::Router;
use crate::security;
use crate::security::Acl;
use crate::span;
use crate::span::Span;
use crate::text;
use vstd::prelude::*;

verus! {

/// What the handling of a request goes by.
pub struct ProxyContext {
    pub retries: u32,
    pub request_timeout: Span,
    pub sticky: Option<StickyConfig>,
    pub headers: HeaderConfig,
    pub access_log: bool,
    pub max_body_bytes: usize,
    pub retry_idempotent_only: bool,
    pub force_retry_with_body: bool,
    pub acl: Option<Acl>,
    pub security_headers: bool,
    /// Whether the client connection is TLS-terminated by us.
    pub client_is_tls: bool,
    pub idle_timeout: Span,
}

/// An answer of the proxy itself.
pub struct Answer {
    pub status: u16,
    pub message: &'static str,
    /// Whether the answer is counted among the requests.
    pub counted: bool,
}

/// Whether a request is let in, and if not, why.
#[derive(Clone, Copy, Debug, PartialEq, Eq, Structural)]
pub enum Admission {
    Admitted,
    /// As many requests as allowed are in flight.
    Busy,
    /// The address lists keep the client out.
    Forbidden,
    /// The rate limiter keeps the client out.
    Limited,
    /// No route serves the path.
    NoRoute,
}

/// Whether a request is let in: there has to be a permit, the address has to pass, the rate
/// limiter has to agree, and a route has to serve the path. The first of these that fails is the
/// reason why not.
pub open spec fn admission(permit: bool, passes: bool, allowed: bool, routed: bool) -> Admission {
    if !permit {
        Admission::Busy
    } else if !passes {
        Admission::Forbidden
    } else if !allowed {
        Admission::Limited
    } else if !routed {
        Admission::NoRoute
    } else {
        Admission::Admitted
    }
}

/// Whether an address passes optional lists.
pub open spec fn acl_passes(acl: Option<Acl>, ip: IpAddr) -> bool {
    acl matches Some(a) ==> security::passes(a.allowed(), a.denied(), ip)
}

/// Whether a table has a balancer for a path.
pub open spec fn routed(router: Router, path: Seq<char>) -> bool {
    router::first_match(router.routes(), path) is Some || router.fallback() is Some
}

/// What the admission of a request at an instant returns, and what it leaves of the rate limiter:
/// the limiter is asked only where there is a permit and the address passes.
pub open spec fn admitted_at(
    acl: Option<Acl>,
    permit: bool,
    before: Option<RateLimiter>,
    after: Option<RateLimiter>,
    router: Router,
    path: Seq<char>,
    ip: IpAddr,
    now: u128,
    r: Admission,
) -> bool {
    match before {
        Some(b) if permit && acl_passes(acl, ip) => {
            &&& after matches Some(a)
            &&& {
                ||| RateLimiter::checked(&b, &a, ip, now, true) && r == admission(
                    true,
                    true,
                    true,
                    routed(router, path),
                )
                ||| RateLimiter::checked(&b, &a, ip, now, false) && r == Admission::Limited
            }
        },
        _ => after == before && r == admission(
            permit,
            acl_passes(acl, ip),
            true,
            routed(router, path),
        ),
    }
}

fn passes_acl(acl: &Option<Acl>, ip: IpAddr) -> (r: bool)
    ensures
        r == acl_passes(*acl, ip),
{
    match acl {
        Some(a) => a.is_allowed(ip),
        None => true,
    }
}

fn is_routed(router: &Router, path: &str) -> (r: bool)
    ensures
        r == routed(*router, path@),
{
    router.resolve(path).is_some()
}

/// Decides at the given instant whether a request is let in.
pub fn admission_at(
    acl: &Option<Acl>,
    permit: bool,
    limiter: &mut Option<RateLimiter>,
    router: &Router,
    path: &str,
    ip: IpAddr,
    now: u128,
) -> (r: Admission)
    requires
        *old(limiter) is Some ==> (*old(limiter))->0.wf(),
        now <= span::MAX_NANOS,
    ensures
        admitted_at(*acl, permit, *old(limiter), *final(limiter), *router, path@, ip, now, r),
{
    if !permit {
        return Admission::Busy;
    }
    if !passes_acl(acl, ip) {
        return Admission::Forbidden;
    }
    match limiter {
        Some(l) => {
            if !l.check_at(ip, now) {
                return Admission::Limited;
            }
        },
        None => {},
    }
    if is_routed(router, path) {
        Admission::Admitted
    } else {
        Admission::NoRoute
    }
}

/// Decides whether a request is let in.
///
/// What the rate limiter says depends on the clock; the decision is that of `admission_at` at the
/// instant that the clock gives the limiter, if it is asked.
pub fn admit_request(
    acl: &Option<Acl>,
    permit: bool,
    limiter: &mut Option<RateLimiter>,
    router: &Router,
    path: &str,
    ip: IpAddr,
) -> (r: Admission)
    requires
        *old(limiter) is Some ==> (*old(limiter))->0.wf(),
    ensures
        exists|now: u128|
            now <= span::MAX_NANOS && (permit && *old(limiter) is Some ==> (*old(
                limiter,
            ))->0.clocked(now)) && #[trigger] admitted_at(
                *acl,
                permit,
                *old(limiter),
                *final(limiter),
                *router,
                path@,
                ip,
                now,
                r,
            ),
{
    if !permit {
        assert(admitted_at(
            *acl,
            permit,
            *limiter,
            *limiter,
            *router,
            path@,
            ip,
            0,
            Admission::Busy,
        ));
        return Admission::Busy;
    }
    let now: u128 = match limiter {
        Some(l) => l.now(),
        None => 0,
    };
    admission_at(acl, permit, limiter, router, path, ip, now)
}

/// Whether the rate limiter let a request pass, where there is one: it was asked and did not keep
/// the client out.
pub fn limiter_passed(a: Admission, has_limiter: bool) -> (r: bool)
    ensures
        r == (has_limiter && (a == Admission::Admitted || a == Admission::NoRoute)),
{
    has_limiter && match a {
        Admission::Admitted | Admission::NoRoute => true,
        _ => false,
    }
}

/// The status that a request is answered with that is not let in.
pub open spec fn refusal_status(a: Admission) -> Option<u16> {
    match a {
        Admission::Admitted => None,
        Admission::Busy => Some(503),
        Admission::Forbidden => Some(403),
        Admission::Limited => Some(429),
        Admission::NoRoute => Some(404),
    }
}

/// What a request is told that is not let in.
pub open spec fn refusal_message(a: Admission) -> Seq<char> {
    match a {
        Admission::Admitted => Seq::empty(),
        Admission::Busy => "Too Many Concurrent Requests"@,
        Admission::Forbidden => "Forbidden"@,
        Admission::Limited => "Too Many Requests"@,
        Admission::NoRoute => "No route matched"@,
    }
}

/// The answer to a request that is not let in.
pub fn refusal(a: Admission) -> (r: Option<Answer>)
    ensures
        match refusal_status(a) {
            Some(status) => r matches Some(x) && x.status == status && x.message@
                == refusal_message(a) && x.counted,
            None => r is None,
        },
{
    match a {
        Admission::Admitted => None,
        Admission::Busy => Some(
            Answer { status: 503, message: "Too Many Concurrent Requests", counted: true },
        ),
        Admission::Forbidden => Some(
            Answer { status: 403, message: "Forbidden", counted: true },
        ),
        Admission::Limited => Some(
            Answer { status: 429, message: "Too Many Requests", counted: true },
        ),
        Admission::NoRoute => Some(
            Answer { status: 404, message: "No route matched", counted: true },
        ),
    }
}

/// The answer to a request whose body could not be read: 413 where it is too large, 408 where it
/// paused for too long, and 400 otherwise, which is not counted.
pub fn body_refusal(e: &BodyLimitError) -> (r: Answer)
    ensures
        match *e {
            BodyLimitError::TooLarge => r.status == 413 && r.message@ == "Payload Too Large"@
                && r.counted,
            BodyLimitError::IdleTimeout => r.status == 408 && r.message@
                == "Request Body Idle Timeout"@ && r.counted,
            BodyLimitError::Other(_) => r.status == 400 && r.message@ == "Bad Request"@
                && !r.counted,
        },
{
    match e {
        BodyLimitError::TooLarge => Answer {
            status: 413,
            message: "Payload Too Large",
            counted: true,
        },
        BodyLimitError::IdleTimeout => Answer {
            status: 408,
            message: "Request Body Idle Timeout",
            counted: true,
        },
        BodyLimitError::Other(_) => Answer {
            status: 400,
            message: "Bad Request",
            counted: false,
        },
    }
}

/// The answer to a request for an upgrade whose body could not be read: 413 where it is too large,
/// as for any request, and 400 otherwise.
pub fn upgrade_body_refusal(e: &BodyLimitError) -> (r: Answer)
    ensures
        !r.counted,
        match *e {
            BodyLimitError::TooLarge => r.status == 413 && r.message@ == "Payload Too Large"@,
            _ => r.status == 400 && r.message@ == "Bad Request"@,
        },
{
    match e {
        BodyLimitError::TooLarge => Answer {
            status: 413,
            message: "Payload Too Large",
            counted: false,
        },
        _ => Answer { status: 400, message: "Bad Request", counted: false },
    }
}

/// The answer where no attempt succeeded; a failed upgrade is not counted.
pub fn gateway_refusal(upgrade: bool) -> (r: Answer)
    ensures
        r.status == 502,
        r.message@ == "Bad Gateway"@,
        r.counted == !upgrade,
{
    Answer { status: 502, message: "Bad Gateway", counted: !upgrade }
}

/// The answer to a request for an upgrade where no upstream is healthy.
pub fn no_upstream_refusal() -> (r: Answer)
    ensures
        r.status == 503,
        r.message@ == "No healthy upstreams"@,
        !r.counted,
{
    Answer { status: 503, message: "No healthy upstreams", counted: false }
}

/// The headers of an answer of the proxy itself, before the configured ones.
pub open spec fn error_fields() -> Map<Seq<char>, Seq<Seq<u8>>> {
    headers::two_fields(
        "Content-Type"@,
        "text/plain; charset=utf-8"@,
        "Connection"@,
        "close"@,
    )
}

/// The headers of an answer of the proxy itself, with the configured ones, which are set on every
/// response. It fails only where there is no room for them.
pub fn error_headers(response_set: &Vec<(String, String)>) -> (r: Option<
    http::HeaderMap<http::HeaderValue>,
>)
    ensures
        r matches Some(m) ==> headers::fields(m) == forward::with_set(
            error_fields(),
            response_set@,
        ),
        2 + response_set@.len() <= headers::ROOM ==> r is Some,
{
    proof {
        reveal_strlit("Content-Type");
        reveal_strlit("text/plain; charset=utf-8");
        reveal_strlit("Connection");
        reveal_strlit("close");
        security::lemma_plain_value("text/plain; charset=utf-8"@);
        security::lemma_plain_value("close"@);
        assert(text::lowered("Content-Type"@).len() == 12);
        assert(text::lowered("Connection"@).len() == 10);
    }
    let mut m: http::HeaderMap<http::HeaderValue> = headers::pair(
        "Content-Type",
        "text/plain; charset=utf-8",
        "Connection",
        "close",
    );
    if forward::set_all(&mut m, response_set) {
        Some(m)
    } else {
        None
    }
}

/// What the access log says of a request.
pub struct AccessLine {
    pub status: u16,
    /// The address of the upstream that answered, or `none`.
    pub upstream: String,
    /// How many attempts were made.
    pub attempt: usize,
}

/// The line of a request in the access log: there is one for every request, whoever answers it,
/// unless the log is off.
pub fn access_line(
    ctx: &ProxyContext,
    status: u16,
    upstream: Option<&str>,
    attempt: usize,
) -> (r: Option<AccessLine>)
    ensures
        r is Some <==> ctx.access_log,
        r matches Some(l) ==> l.status == status && l.attempt == attempt && l.upstream@ == (
        match upstream {
            Some(a) => a@,
            None => "none"@,
        }),
{
    if !ctx.access_log {
        return None;
    }
    let answered_by: String = match upstream {
        Some(a) => a.to_owned(),
        None => "none".to_owned(),
    };
    Some(AccessLine { status, upstream: answered_by, attempt })
}

/// Whether a method may be repeated without harm.
pub open spec fn idempotent(method: Seq<char>) -> bool {
    method == "GET"@ || method == "HEAD"@ || method == "OPTIONS"@ || method == "PUT"@ || method
        == "DELETE"@
}

/// Whether a request may be tried again: retries with a body are forced, or there is no body, or
/// every method is retried, or the method may be repeated without harm.
pub open spec fn retriable(ctx: ProxyContext, method: Seq<char>, body_is_empty: bool) -> bool {
    ctx.force_retry_with_body || body_is_empty || !ctx.retry_idempotent_only || idempotent(method)
}

/// Whether a request may be tried again.
pub fn may_retry(ctx: &ProxyContext, method: &str, body_is_empty: bool) -> (r: bool)
    ensures
        r == retriable(*ctx, method@, body_is_empty),
{
    ctx.force_retry_with_body || body_is_empty || !ctx.retry_idempotent_only || text::same_str(
        method,
        "GET",
    ) || text::same_str(method, "HEAD") || text::same_str(method, "OPTIONS") || text::same_str(
        method,
        "PUT",
    ) || text::same_str(method, "DELETE")
}

/// How often a request is tried at most: once, and as many times more as are configured where it
/// may be tried again.
pub fn max_attempts(ctx: &ProxyContext, method: &str, body_is_empty: bool) -> (r: u32)
    ensures
        r == (if !retriable(*ctx, method@, body_is_empty) {
            1
        } else if ctx.retries == u32::MAX {
            u32::MAX
        } else {
            (ctx.retries + 1) as u32
        }),
{
    if may_retry(ctx, method, body_is_empty) {
        ctx.retries.saturating_add(1)
    } else {
        1
    }
}

/// The attempts at a request.
pub struct Attempts {
    max: u32,
    tried: Vec<String>,
}

/// What to do next with a request.
#[derive(Clone, Copy, Debug, PartialEq, Eq, Structural)]
pub enum Next {
    /// Try the upstream at a position.
    Try { upstream: usize, retry: bool },
    /// No attempt is left, or no upstream.
    GiveUp { retry: bool },
}

impl Attempts {
    /// How many attempts there are at most.
    pub closed spec fn limit(&self) -> u32 {
        self.max
    }

    /// The addresses that were tried.
    pub closed spec fn addresses(&self) -> Seq<Seq<char>> {
        Seq::new(self.tried@.len(), |i: int| self.tried@[i]@)
    }

    /// No more attempts were made than allowed, and no address was tried twice.
    pub open spec fn wf(&self) -> bool {
        &&& self.addresses().len() <= self.limit()
        &&& self.addresses().no_duplicates()
    }

    /// No attempt was made.
    pub fn new(max: u32) -> (r: Self)
        ensures
            r.wf(),
            r.limit() == max,
            r.addresses().len() == 0,
    {
        Attempts { max, tried: Vec::new() }
    }

    /// How many attempts were made.
    pub fn made(&self) -> (r: usize)
        ensures
            r == self.addresses().len(),
    {
        self.tried.len()
    }

    /// The position that the next attempt goes to: for the first one as the client's cookie says,
    /// and for a later one among the upstreams that were not tried.
    pub open spec fn target(&self, b: &LoadBalancer, sticky: Option<&str>) -> Option<int> {
        if self.addresses().len() == 0 {
            lb::sticky_choice(b, sticky)
        } else {
            lb::choice(b.pool(), b.chosen_by(), b.counter() as int, self.addresses())
        }
    }

    /// The counter of the balancer after the choice.
    pub open spec fn counter_after(&self, b: &LoadBalancer, sticky: Option<&str>) -> usize {
        if self.addresses().len() == 0 {
            lb::sticky_counter(b, sticky)
        } else {
            lb::counter_after(b.pool(), b.chosen_by(), b.counter(), self.addresses())
        }
    }

    fn pick(&self, b: &mut LoadBalancer, sticky: Option<&str>) -> (r: Option<usize>)
        requires
            old(b).wf(),
        ensures
            final(b).wf(),
            final(b).pool() == old(b).pool(),
            final(b).chosen_by() == old(b).chosen_by(),
            lb::chosen(r, self.target(old(b), sticky)),
            final(b).counter() == self.counter_after(old(b), sticky),
    {
        if self.tried.len() == 0 {
            return b.select_sticky(sticky);
        }
        let n: usize = self.tried.len();
        let mut exclude: Vec<&str> = Vec::new();
        let mut i: usize = 0;
        while i < n
            invariant
                n == self.tried@.len(),
                i <= n,
                lb::texts(exclude@) == self.addresses().take(i as int),
                exclude@.len() == i,
            decreases n - i,
        {
            let ghost before = exclude@;
            exclude.push(self.tried[i].as_str());
            proof {
                let t = lb::texts(exclude@);
                let a = self.addresses().take(i as int + 1);
                assert forall|j: int| 0 <= j <= i implies t[j] == a[j] by {
                    if j < i {
                        assert(t[j] == lb::texts(before)[j]);
                        assert(t[j] == self.addresses().take(i as int)[j]);
                    }
                }
                assert(t =~= a);
            }
            i = i + 1;
        }
        assert(self.addresses().take(n as int) =~= self.addresses());
        b.select_excluding(exclude.as_slice())
    }

    /// Takes the next attempt, and counts a connection to the upstream that it goes to.
    pub fn next(&mut self, b: &mut LoadBalancer, sticky: Option<&str>) -> (r: Next)
        requires
            old(self).wf(),
            old(b).wf(),
        ensures
            final(self).wf(),
            final(b).wf(),
            final(self).limit() == old(self).limit(),
            final(b).chosen_by() == old(b).chosen_by(),
            if old(self).addresses().len() == old(self).limit() {
                r == (Next::GiveUp { retry: false }) && final(self).addresses()
                    == old(self).addresses() && final(b).pool() == old(b).pool()
                    && final(b).counter() == old(b).counter()
            } else {
                final(b).counter() == old(self).counter_after(old(b), sticky) && match old(
                    self,
                ).target(old(b), sticky) {
                    None => r == (Next::GiveUp { retry: old(self).addresses().len() > 0 })
                        && final(self).addresses() == old(self).addresses() && final(b).pool()
                        == old(b).pool(),
                    Some(i) => 0 <= i < old(b).pool().len() && (r matches Next::Try {
                        upstream,
                        retry,
                    } && upstream == i && retry == (old(self).addresses().len() > 0))
                        && final(self).addresses() == old(self).addresses().push(
                        old(b).pool()[i].address@,
                    ) && final(b).pool() == old(b).pool().update(
                        i,
                        (lb::UpstreamRuntime {
                            active_connections: lb::wrapped(
                                old(b).pool()[i].active_connections + 1,
                            ),
                            ..old(b).pool()[i]
                        }),
                    ),
                }
            },
    {
        if self.tried.len() as u64 >= self.max as u64 {
            return Next::GiveUp { retry: false };
        }
        let retry: bool = self.tried.len() > 0;
        proof {
            lemma_target_usable(self, b, sticky);
        }
        let ghost pool = b.pool();
        match self.pick(b, sticky) {
            None => Next::GiveUp { retry },
            Some(i) => {
                let ghost before = self.addresses();
                let address: String = b.upstreams()[i].address.clone();
                b.upstream_mut(i).inc_connections();
                self.tried.push(address);
                proof {
                    assert(self.addresses() =~= before.push(pool[i as int].address@));
                    assert(!before.contains(pool[i as int].address@));
                }
                Next::Try { upstream: i, retry }
            },
        }
    }
}

/// What happened to the attempt at a request.
#[derive(Clone, Copy, Debug, PartialEq, Eq, Structural)]
pub enum Outcome {
    /// There was none yet.
    Begin,
    Failed,
    Succeeded,
}

/// What to do with a request.
#[derive(Clone, Copy, Debug, PartialEq, Eq, Structural)]
pub enum Action {
    /// Try the upstream at a position.
    Try { upstream: usize, retry: bool },
    /// Answer that no attempt succeeded.
    Fail { retry: bool },
    /// Pass the response of the upstream at a position on.
    Deliver { upstream: usize },
}

/// A request on its way: its attempts, and the position of the upstream that is being tried.
pub struct Exchange {
    attempts: Attempts,
    current: Option<usize>,
}

/// An upstream with one connection more or less, modulo the range of the counter.
pub open spec fn recounted(u: lb::UpstreamRuntime, by: int) -> lb::UpstreamRuntime {
    lb::UpstreamRuntime { active_connections: lb::wrapped(u.active_connections + by), ..u }
}

/// A pool after the connection to a position is closed, if there is one.
pub open spec fn closed_at(pool: Seq<lb::UpstreamRuntime>, current: Option<int>) -> Seq<
    lb::UpstreamRuntime,
> {
    match current {
        Some(i) => pool.update(i, recounted(pool[i], -1)),
        None => pool,
    }
}

/// A pool after a connection to a position is opened.
pub open spec fn opened_at(pool: Seq<lb::UpstreamRuntime>, i: int) -> Seq<lb::UpstreamRuntime> {
    pool.update(i, recounted(pool[i], 1))
}

impl Exchange {
    /// The attempts.
    pub closed spec fn attempts(&self) -> Attempts {
        self.attempts
    }

    /// The position of the upstream that is being tried.
    pub closed spec fn trying(&self) -> Option<int> {
        match self.current {
            Some(i) => Some(i as int),
            None => None,
        }
    }

    /// A request that was not tried yet.
    pub fn new(ctx: &ProxyContext, method: &str, body_is_empty: bool) -> (r: Self)
        ensures
            r.attempts().wf(),
            r.attempts().addresses().len() == 0,
            r.attempts().limit() == (if !retriable(*ctx, method@, body_is_empty) {
                1
            } else if ctx.retries == u32::MAX {
                u32::MAX
            } else {
                (ctx.retries + 1) as u32
            }),
            r.trying() is None,
    {
        let attempts: Attempts = Attempts::new(max_attempts(ctx, method, body_is_empty));
        Exchange { attempts, current: None }
    }

    /// How many attempts were made.
    pub fn made(&self) -> (r: usize)
        ensures
            r == self.attempts().addresses().len(),
    {
        self.attempts.made()
    }

    /// Goes on with a request after the outcome of an attempt: the connection of the attempt is
    /// closed, a response is passed on, and after a failure the next upstream is tried, if there
    /// is one.
    pub fn advance(
        &mut self,
        b: &mut LoadBalancer,
        sticky: Option<&str>,
        outcome: Outcome,
    ) -> (r: Action)
        requires
            old(self).attempts().wf(),
            old(b).wf(),
            old(self).trying() matches Some(i) ==> 0 <= i < old(b).pool().len(),
        ensures
            final(self).attempts().wf(),
            final(self).attempts().limit() == old(self).attempts().limit(),
            final(b).wf(),
            final(b).chosen_by() == old(b).chosen_by(),
            final(b).pool().len() == old(b).pool().len(),
            final(self).trying() matches Some(i) ==> 0 <= i < final(b).pool().len(),
            advanced(
                *old(self),
                *final(self),
                closed_at(old(b).pool(), old(self).trying()),
                *old(b),
                *final(b),
                sticky,
                outcome,
                r,
            ),
    {
        let ghost p = closed_at(b.pool(), self.trying());
        let current: Option<usize> = self.current;
        match current {
            Some(i) => {
                b.upstream_mut(i).dec_connections();
                assert(b.pool() =~= p);
            },
            None => {},
        }
        self.current = None;
        let ghost between = *b;
        match outcome {
            Outcome::Succeeded => match current {
                Some(i) => {
                    return Action::Deliver { upstream: i };
                },
                None => {},
            },
            _ => {},
        }
        proof {
            lemma_same_choice(self.attempts, between, *old(b), sticky, p);
        }
        match self.attempts.next(b, sticky) {
            Next::GiveUp { retry } => Action::Fail { retry },
            Next::Try { upstream, retry } => {
                self.current = Some(upstream);
                assert(b.pool() =~= opened_at(p, upstream as int));
                Action::Try { upstream, retry }
            },
        }
    }
}

/// What going on with a request returns and leaves behind, given the pool after the connection of
/// the last attempt is closed.
pub open spec fn advanced(
    before: Exchange,
    after: Exchange,
    pool: Seq<lb::UpstreamRuntime>,
    b0: LoadBalancer,
    b1: LoadBalancer,
    sticky: Option<&str>,
    outcome: Outcome,
    r: Action,
) -> bool {
    let tried = before.attempts().addresses();
    &&& after.attempts().limit() == before.attempts().limit()
    &&& if outcome == Outcome::Succeeded && before.trying() is Some {
        &&& r matches Action::Deliver { upstream }
        &&& upstream == before.trying()->0
        &&& after.attempts().addresses() == tried
        &&& after.trying() is None
        &&& b1.pool() == pool
        &&& b1.counter() == b0.counter()
    } else if tried.len() == before.attempts().limit() {
        &&& r == Action::Fail { retry: false }
        &&& after.attempts().addresses() == tried
        &&& after.trying() is None
        &&& b1.pool() == pool
        &&& b1.counter() == b0.counter()
    } else {
        match next_target(tried, pool, b0, sticky) {
            None => {
                &&& r == Action::Fail { retry: tried.len() > 0 }
                &&& after.attempts().addresses() == tried
                &&& after.trying() is None
                &&& b1.pool() == pool
                &&& b1.counter() == next_counter(tried, pool, b0, sticky)
            },
            Some(i) => {
                &&& 0 <= i < pool.len()
                &&& r matches Action::Try { upstream, retry }
                &&& upstream == i
                &&& retry == (tried.len() > 0)
                &&& after.attempts().addresses() == tried.push(pool[i].address@)
                &&& after.trying() == Some(i)
                &&& b1.pool() == opened_at(pool, i)
                &&& b1.counter() == next_counter(tried, pool, b0, sticky)
            },
        }
    }
}

/// The position that the next attempt goes to, from a pool.
pub open spec fn next_target(
    tried: Seq<Seq<char>>,
    pool: Seq<lb::UpstreamRuntime>,
    b: LoadBalancer,
    sticky: Option<&str>,
) -> Option<int> {
    if tried.len() == 0 {
        match sticky {
            Some(v) if lb::healthy_at(pool, v@) is Some => lb::healthy_at(pool, v@),
            _ => lb::choice(pool, b.chosen_by(), b.counter() as int, Seq::empty()),
        }
    } else {
        lb::choice(pool, b.chosen_by(), b.counter() as int, tried)
    }
}

/// The counter of the balancer after the next attempt was chosen.
pub open spec fn next_counter(
    tried: Seq<Seq<char>>,
    pool: Seq<lb::UpstreamRuntime>,
    b: LoadBalancer,
    sticky: Option<&str>,
) -> usize {
    if tried.len() == 0 {
        match sticky {
            Some(v) if lb::healthy_at(pool, v@) is Some => b.counter(),
            _ => lb::counter_after(pool, b.chosen_by(), b.counter(), Seq::empty()),
        }
    } else {
        lb::counter_after(pool, b.chosen_by(), b.counter(), tried)
    }
}

proof fn lemma_same_choice(
    a: Attempts,
    between: LoadBalancer,
    b: LoadBalancer,
    sticky: Option<&str>,
    pool: Seq<lb::UpstreamRuntime>,
)
    requires
        between.pool() == pool,
        between.chosen_by() == b.chosen_by(),
        between.counter() == b.counter(),
    ensures
        a.target(&between, sticky) == next_target(a.addresses(), pool, b, sticky),
        a.counter_after(&between, sticky) == next_counter(a.addresses(), pool, b, sticky),
{
}

/// Connections are counted back: closing the connection that an attempt opened leaves the pool as
/// it was before the attempt.
pub proof fn law_connections_are_counted_back(pool: Seq<lb::UpstreamRuntime>, i: int)
    requires
        0 <= i < pool.len(),
    ensures
        closed_at(opened_at(pool, i), Some(i)) == pool,
{
    lb::law_connection_counted_back(pool[i].active_connections);
    assert(closed_at(opened_at(pool, i), Some(i)) =~= pool);
}

/// The upstream that an attempt goes to was not tried before.
proof fn lemma_target_usable(a: &Attempts, b: &LoadBalancer, sticky: Option<&str>)
    ensures
        a.target(b, sticky) matches Some(i) ==> 0 <= i < b.pool().len() && b.pool()[i].healthy
            && !a.addresses().contains(b.pool()[i].address@),
{
    if a.addresses().len() == 0 {
        match sticky {
            Some(v) => {
                laws::lemma_healthy_at_sound(b.pool(), v@);
            },
            None => {},
        }
        laws::law_choice_is_usable(b.pool(), b.chosen_by(), b.counter(), Seq::empty());
    } else {
        laws::law_choice_is_usable(b.pool(), b.chosen_by(), b.counter(), a.addresses());
    }
}

/// Going on with a request keeps its attempts in order.
pub proof fn lemma_advanced_in_order(
    before: Exchange,
    after: Exchange,
    pool: Seq<lb::UpstreamRuntime>,
    b0: LoadBalancer,
    b1: LoadBalancer,
    sticky: Option<&str>,
    outcome: Outcome,
    r: Action,
)
    requires
        advanced(before, after, pool, b0, b1, sticky, outcome, r),
        before.attempts().wf(),
    ensures
        after.attempts().wf(),
        after.attempts().limit() == before.attempts().limit(),
{
    let tried = before.attempts().addresses();
    if tried.len() == 0 {
        match sticky {
            Some(v) => {
                laws::lemma_healthy_at_sound(pool, v@);
            },
            None => {},
        }
        laws::law_choice_is_usable(pool, b0.chosen_by(), b0.counter(), Seq::empty());
    } else {
        laws::law_choice_is_usable(pool, b0.chosen_by(), b0.counter(), tried);
    }
    match next_target(tried, pool, b0, sticky) {
        Some(i) => {
            assert(!tried.contains(pool[i].address@));
            assert(tried.push(pool[i].address@).no_duplicates());
        },
        None => {},
    }
}

/// An attempt goes to a healthy upstream that was not tried for this request before.
pub proof fn law_attempts_do_not_repeat(a: Attempts, b: LoadBalancer, sticky: Option<&str>)
    ensures
        a.target(&b, sticky) matches Some(i) ==> 0 <= i < b.pool().len() && b.pool()[i].healthy
            && !a.addresses().contains(b.pool()[i].address@),
{
    lemma_target_usable(&a, &b, sticky);
}

/// A request is given up before its last attempt only where every healthy upstream was tried.
pub proof fn law_gives_up_late(a: Attempts, b: LoadBalancer, sticky: Option<&str>, i: int)
    requires
        a.target(&b, sticky) is None,
        0 <= i < b.pool().len(),
        b.pool()[i].healthy,
    ensures
        a.addresses().contains(b.pool()[i].address@),
{
    if a.addresses().len() == 0 {
        match sticky {
            Some(v) => {
                laws::lemma_healthy_at_sound(b.pool(), v@);
            },
            None => {},
        }
        assert(lb::usable(b.pool()[i], Seq::empty()));
        laws::law_choice_is_usable(b.pool(), b.chosen_by(), b.counter(), Seq::empty());
    } else {
        laws::law_choice_is_usable(b.pool(), b.chosen_by(), b.counter(), a.addresses());
    }
}

/// A request with a body whose method may not be repeated is tried once, unless retries are forced
/// or not restricted.
pub proof fn law_unsafe_requests_are_tried_once(ctx: ProxyContext, method: Seq<char>)
    requires
        !idempotent(method),
        ctx.retry_idempotent_only,
        !ctx.force_retry_with_body,
    ensures
        !retriable(ctx, method, false),
{
}

/// Which paths have a balancer: all of them where there is a fallback, and otherwise those under
/// the prefix of a route.
pub proof fn law_routed(router: Router, path: Seq<char>)
    ensures
        router.fallback() is Some ==> routed(router, path),
        router.fallback() is None ==> (routed(router, path) <==> exists|k: int|
            0 <= k < router.routes().len() && router::matches_prefix(
                path,
                (#[trigger] router.routes()[k]).path_prefix@,
            )),
{
    router::law_first_match(router.routes(), path);
}

/// How a request is answered that is not let in: with 503 where there is no permit, whatever else
/// holds; or else with 403 where the address does not pass; or else with 429 where the rate limiter
/// keeps it out; or else with 404 where it has no route. It is let in where nothing of this holds.
pub proof fn law_refusals(permit: bool, passes: bool, allowed: bool, routed: bool)
    ensures
        !permit ==> refusal_status(admission(permit, passes, allowed, routed)) == Some(503u16),
        permit && !passes ==> refusal_status(admission(permit, passes, allowed, routed)) == Some(
            403u16,
        ),
        permit && passes && !allowed ==> refusal_status(
            admission(permit, passes, allowed, routed),
        ) == Some(429u16),
        permit && passes && allowed && !routed ==> refusal_status(
            admission(permit, passes, allowed, routed),
        ) == Some(404u16),
        permit && passes && allowed && routed <==> refusal_status(
            admission(permit, passes, allowed, routed),
        ) is None,
        refusal_status(admission(permit, passes, allowed, routed)) is None <==> admission(
            permit,
            passes,
            allowed,
            routed,
        ) == Admission::Admitted,
{
}

/// What a request is told that is not let in.
pub proof fn law_refusal_messages()
    ensures
        forall|a: Admission|
            #![trigger refusal_message(a)]
            {
                &&& refusal_status(a) == Some(503u16) ==> refusal_message(a)
                    == "Too Many Concurrent Requests"@
                &&& refusal_status(a) == Some(403u16) ==> refusal_message(a) == "Forbidden"@
                &&& refusal_status(a) == Some(429u16) ==> refusal_message(a)
                    == "Too Many Requests"@
                &&& refusal_status(a) == Some(404u16) ==> refusal_message(a)
                    == "No route matched"@
            },
{
}

/// What decides on a request, and when the rate limiter is asked. Without a permit, or with an
/// address that the lists keep out, it is not asked and stays as it is. Without a rate limiter no
/// request is limited.
pub proof fn law_admission(
    acl: Option<Acl>,
    permit: bool,
    before: Option<RateLimiter>,
    after: Option<RateLimiter>,
    router: Router,
    path: Seq<char>,
    ip: IpAddr,
    now: u128,
    r: Admission,
)
    requires
        admitted_at(acl, permit, before, after, router, path, ip, now, r),
    ensures
        ({
            let kept_out = acl matches Some(a) && !security::passes(a.allowed(), a.denied(), ip);
            let served = router::first_match(router.routes(), path) is Some
                || router.fallback() is Some;
            &&& r == Admission::Busy <==> !permit
            &&& r == Admission::Forbidden <==> permit && kept_out
            &&& r == Admission::Limited ==> before is Some
            &&& r == Admission::NoRoute ==> !served
            &&& r == Admission::Admitted ==> permit && !kept_out && served
            &&& before is None || !permit || kept_out ==> after == before
            &&& before is None && permit && !kept_out && served ==> r == Admission::Admitted
            &&& before is Some && permit && !kept_out ==> after is Some && RateLimiter::checked(
                &before->0,
                &after->0,
                ip,
                now,
                r != Admission::Limited,
            )
        }),
{
}

/// Which requests may be tried again: all of them where retries are forced or not restricted, those
/// without a body, and those with one of the five methods that can be repeated.
pub proof fn law_retriable(ctx: ProxyContext, method: Seq<char>, body_is_empty: bool)
    ensures
        retriable(ctx, method, body_is_empty) <==> ctx.force_retry_with_body || body_is_empty
            || !ctx.retry_idempotent_only || seq![
            "GET"@,
            "HEAD"@,
            "OPTIONS"@,
            "PUT"@,
            "DELETE"@,
        ].contains(method),
{
    let five = seq!["GET"@, "HEAD"@, "OPTIONS"@, "PUT"@, "DELETE"@];
    assert(five[0] == "GET"@ && five[1] == "HEAD"@ && five[2] == "OPTIONS"@ && five[3] == "PUT"@
        && five[4] == "DELETE"@);
}

/// The headers of an answer of the proxy itself, before the configured ones: the type of a plain
/// text, and that the connection is closed.
pub proof fn law_error_fields(name: Seq<char>)
    ensures
        error_fields().dom().contains(name) <==> name == "content-type"@ || name == "connection"@,
        error_fields()["content-type"@] == seq![
            vstd::utf8::encode_utf8("text/plain; charset=utf-8"@),
        ],
        error_fields()["connection"@] == seq![vstd::utf8::encode_utf8("close"@)],
{
    reveal_strlit("Content-Type");
    reveal_strlit("Connection");
    reveal_strlit("content-type");
    reveal_strlit("connection");
    assert(text::lowered("Content-Type"@) =~= "content-type"@);
    assert(text::lowered("Connection"@) =~= "connection"@);
    assert("content-type"@.len() == 12 && "connection"@.len() == 10);
}

/// Opening a connection counts one more at its position and changes nothing else, and closing it
/// counts one less. (The count does not wrap.)
pub proof fn law_connection_is_counted(pool: Seq<lb::UpstreamRuntime>, i: int, j: int)
    requires
        0 <= i < pool.len(),
        0 <= j < pool.len(),
        0 < pool[i].active_connections < usize::MAX,
    ensures
        opened_at(pool, i).len() == pool.len(),
        closed_at(pool, Some(i)).len() == pool.len(),
        closed_at(pool, None) == pool,
        j != i ==> opened_at(pool, i)[j] == pool[j] && closed_at(pool, Some(i))[j] == pool[j],
        opened_at(pool, i)[i].active_connections == pool[i].active_connections + 1,
        closed_at(pool, Some(i))[i].active_connections == pool[i].active_connections - 1,
        opened_at(pool, i)[i].address == pool[i].address && opened_at(pool, i)[i].weight
            == pool[i].weight && opened_at(pool, i)[i].healthy == pool[i].healthy,
        closed_at(pool, Some(i))[i].address == pool[i].address && closed_at(
            pool,
            Some(i),
        )[i].weight == pool[i].weight && closed_at(pool, Some(i))[i].healthy == pool[i].healthy,
{
}

/// Where the next attempt goes. It goes to a healthy upstream that was not tried, and there is none
/// only where all the healthy ones were tried. The first attempt goes to the healthy upstream that
/// the cookie names, where there is one. Later ones do not go by the cookie.
pub proof fn law_next_target(
    tried: Seq<Seq<char>>,
    pool: Seq<lb::UpstreamRuntime>,
    b: LoadBalancer,
    sticky: Option<&str>,
)
    ensures
        match next_target(tried, pool, b, sticky) {
            Some(i) => 0 <= i < pool.len() && pool[i].healthy && !tried.contains(pool[i].address@),
            None => forall|i: int|
                0 <= i < pool.len() && (#[trigger] pool[i]).healthy ==> tried.contains(
                    pool[i].address@,
                ),
        },
        tried.len() == 0 ==> (sticky matches Some(v) ==> forall|i: int|
            0 <= i < pool.len() && (#[trigger] pool[i]).healthy && pool[i].address@ == v@ ==> (
            next_target(tried, pool, b, sticky) matches Some(j) && j <= i && pool[j].address@
                == v@)),
        tried.len() > 0 ==> next_target(tried, pool, b, sticky) == next_target(
            tried,
            pool,
            b,
            None,
        ),
        next_target(tried, pool, b, None) == lb::choice(
            pool,
            b.chosen_by(),
            b.counter() as int,
            tried,
        ),
{
    laws::law_choice_is_usable(pool, b.chosen_by(), b.counter(), tried);
    if tried.len() == 0 {
        assert(tried =~= Seq::empty());
        match sticky {
            Some(v) => {
                laws::lemma_healthy_at_sound(pool, v@);
                assert forall|i: int|
                    0 <= i < pool.len() && (#[trigger] pool[i]).healthy && pool[i].address@
                        == v@ implies (next_target(tried, pool, b, sticky) matches Some(j) && j
                    <= i && pool[j].address@ == v@) by {
                    laws::lemma_healthy_found(pool, v@, i);
                }
            },
            None => {},
        }
    }
}

/// A failed attempt is followed by another one as long as attempts are left and a healthy upstream
/// was not tried; it goes to such an upstream, is a retry, and has a connection counted. Otherwise
/// the request fails.
pub proof fn law_failover(
    before: Exchange,
    after: Exchange,
    pool: Seq<lb::UpstreamRuntime>,
    b0: LoadBalancer,
    b1: LoadBalancer,
    sticky: Option<&str>,
    r: Action,
    i: int,
)
    requires
        advanced(before, after, pool, b0, b1, sticky, Outcome::Failed, r),
        before.attempts().wf(),
        0 <= i < pool.len(),
        pool[i].healthy,
        !before.attempts().addresses().contains(pool[i].address@),
    ensures
        before.attempts().addresses().len() < before.attempts().limit() ==> {
            &&& r matches Action::Try { upstream, retry }
            &&& upstream < pool.len()
            &&& retry == (before.attempts().addresses().len() > 0)
            &&& pool[upstream as int].healthy
            &&& !before.attempts().addresses().contains(pool[upstream as int].address@)
            &&& after.attempts().addresses().last() == pool[upstream as int].address@
            &&& after.attempts().addresses().len() == before.attempts().addresses().len() + 1
            &&& after.trying() == Some(upstream as int)
            &&& b1.pool() == opened_at(pool, upstream as int)
        },
        before.attempts().addresses().len() == before.attempts().limit() ==> r == (Action::Fail {
            retry: false,
        }) && b1.pool() == pool && after.trying() is None,
{
    law_next_target(before.attempts().addresses(), pool, b0, sticky);
}

/// Without a healthy upstream that was not tried, a request fails; a retry was due exactly where it
/// was tried before and attempts are left.
pub proof fn law_no_upstream_left(
    before: Exchange,
    after: Exchange,
    pool: Seq<lb::UpstreamRuntime>,
    b0: LoadBalancer,
    b1: LoadBalancer,
    sticky: Option<&str>,
    r: Action,
)
    requires
        advanced(before, after, pool, b0, b1, sticky, Outcome::Failed, r),
        before.attempts().wf(),
        forall|i: int|
            0 <= i < pool.len() && (#[trigger] pool[i]).healthy
                ==> before.attempts().addresses().contains(pool[i].address@),
    ensures
        r == (Action::Fail {
            retry: 0 < before.attempts().addresses().len() < before.attempts().limit(),
        }),
        after.trying() is None,
        b1.pool() == pool,
{
    law_next_target(before.attempts().addresses(), pool, b0, sticky);
}

/// What an attempt does to the turns: one at the upstream of the cookie takes none, and every other
/// takes one among the upstreams that were not tried.
pub proof fn law_next_counter(
    tried: Seq<Seq<char>>,
    pool: Seq<lb::UpstreamRuntime>,
    b: LoadBalancer,
    value: &str,
)
    ensures
        next_counter(tried, pool, b, None) == lb::counter_after(
            pool,
            b.chosen_by(),
            b.counter(),
            tried,
        ),
        tried.len() > 0 ==> next_counter(tried, pool, b, Some(value)) == lb::counter_after(
            pool,
            b.chosen_by(),
            b.counter(),
            tried,
        ),
        tried.len() == 0 ==> {
            let known = exists|i: int|
                0 <= i < pool.len() && (#[trigger] pool[i]).healthy && pool[i].address@ == value@;
            &&& known ==> next_counter(tried, pool, b, Some(value)) == b.counter()
            &&& !known ==> next_counter(tried, pool, b, Some(value)) == lb::counter_after(
                pool,
                b.chosen_by(),
                b.counter(),
                tried,
            )
        },
{
    if tried.len() == 0 {
        assert(tried =~= Seq::empty());
        laws::lemma_healthy_at_sound(pool, value@);
        if exists|i: int|
            0 <= i < pool.len() && (#[trigger] pool[i]).healthy && pool[i].address@ == value@ {
            let i = choose|i: int|
                0 <= i < pool.len() && (#[trigger] pool[i]).healthy && pool[i].address@ == value@;
            laws::lemma_healthy_found(pool, value@, i);
        }
    }
}

/// The first attempt goes by the cookie, and every later one by the algorithm alone, among the
/// upstreams that were not tried.
pub proof fn law_attempt_target(a: Attempts, b: LoadBalancer, sticky: Option<&str>)
    ensures
        a.addresses().len() == 0 ==> a.target(&b, sticky) == lb::sticky_choice(&b, sticky)
            && a.counter_after(&b, sticky) == lb::sticky_counter(&b, sticky),
        a.addresses().len() > 0 ==> a.target(&b, sticky) == lb::choice(
            b.pool(),
            b.chosen_by(),
            b.counter() as int,
            a.addresses(),
        ) && a.counter_after(&b, sticky) == lb::counter_after(
            b.pool(),
            b.chosen_by(),
            b.counter(),
            a.addresses(),
        ),
{
}

/// How a request is answered whose body could not be read. The kind of the failure decides the
/// status, and only an answer that is not 400 is counted; a request for an upgrade is answered the
/// same where its body is too large, and is never counted.
pub proof fn law_body_refusals(e: BodyLimitError, r: Answer, upgrade: Answer)
    requires
        call_ensures(body_refusal, (&e,), r),
        call_ensures(upgrade_body_refusal, (&e,), upgrade),
    ensures
        r.status == 413 <==> e is TooLarge,
        r.status == 408 <==> e is IdleTimeout,
        r.status == 400 <==> e is Other,
        r.counted <==> r.status != 400,
        upgrade.status == 413 <==> e is TooLarge,
        upgrade.status == 400 <==> e !is TooLarge,
        !upgrade.counted,
        upgrade.status == r.status ==> upgrade.message@ == r.message@,
{
}

/// A failed request is answered with 502 and counted, unless it asked for an upgrade; an upgrade
/// without a healthy upstream is answered with 503 and not counted.
pub proof fn law_gateway_refusals(upgrade: bool, r: Answer, none: Answer)
    requires
        call_ensures(gateway_refusal, (upgrade,), r),
        call_ensures(no_upstream_refusal, (), none),
    ensures
        r.status == 502,
        r.counted <==> !upgrade,
        none.status == 503,
        !none.counted,
{
}

/// The rate limiter let a request pass exactly where there is one and the request got as far as the
/// routes.
pub proof fn law_limiter_passed(a: Admission, has_limiter: bool, r: bool)
    requires
        call_ensures(limiter_passed, (a, has_limiter), r),
    ensures
        !has_limiter ==> !r,
        a == Admission::Busy || a == Admission::Forbidden || a == Admission::Limited ==> !r,
        has_limiter && (a == Admission::Admitted || a == Admission::NoRoute) ==> r,
{
}

/// Every request is in the access log exactly once, with its status, its upstream and the number of
/// its attempts, unless the log is off.
pub proof fn law_access_line(
    ctx: ProxyContext,
    status: u16,
    upstream: Option<&str>,
    attempt: usize,
    r: Option<AccessLine>,
)
    requires
        call_ensures(access_line, (&ctx, status, upstream, attempt), r),
    ensures
        r is Some <==> ctx.access_log,
        r matches Some(l) ==> l.status == status && l.attempt == attempt,
        r matches Some(l) ==> (upstream matches Some(a) ==> l.upstream@ == a@),
        r matches Some(l) ==> (upstream is None ==> l.upstream@ == "none"@),
{
}

} // verus!
