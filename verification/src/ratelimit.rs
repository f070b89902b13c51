//! Per-IP GCRA-style rate limiter (Generic Cell Rate Algorithm).
//!
//! Instants are counted in nanoseconds from the making of a limiter.

use crate::addr::IpAddr;
use crate::span::{Span, MAX_NANOS};
use vstd::prelude::*;

verus! {

/// The concurrent map of the `dashmap` crate.
#[verifier::external_type_specification]
#[verifier::external_body]
#[verifier::reject_recursive_types(K)]
#[verifier::reject_recursive_types(V)]
#[verifier::reject_recursive_types(S)]
pub struct ExDashMap<K, V, S>(dashmap::DashMap<K, V, S>);

/// An instant of the monotonic clock.
#[verifier::external_type_specification]
#[verifier::external_body]
pub struct ExInstant(std::time::Instant);

/// What a bucket map holds: for each client the theoretical arrival time of its next request.
pub uninterp spec fn buckets(
    m: dashmap::DashMap<(u8, u128), u128, std::collections::hash_map::RandomState>,
) -> Map<(u8, u128), u128>;

/// A map without buckets.
pub open spec fn no_buckets() -> Map<(u8, u128), u128> {
    Map::empty()
}

/// A map without buckets, from `DashMap::new`.
#[verifier::external_body]
fn empty() -> (r: dashmap::DashMap<(u8, u128), u128, std::collections::hash_map::RandomState>)
    ensures
        buckets(r) == no_buckets(),
{
    dashmap::DashMap::new()
}

/// The bucket of a client, which `DashMap::entry` and `Entry::or_insert` make with the given time
/// where the map has none. No other bucket changes.
#[verifier::external_body]
fn bucket(
    m: &mut dashmap::DashMap<(u8, u128), u128, std::collections::hash_map::RandomState>,
    key: (u8, u128),
    now: u128,
) -> (r: u128)
    ensures
        r == tat_or(buckets(*old(m)), key, now),
        buckets(*final(m)) == buckets(*old(m)).insert(key, r),
{
    *m.entry(key).or_insert(now)
}

/// Sets the bucket of a client with `DashMap::insert`. No other bucket changes.
#[verifier::external_body]
fn set_bucket(
    m: &mut dashmap::DashMap<(u8, u128), u128, std::collections::hash_map::RandomState>,
    key: (u8, u128),
    tat: u128,
)
    ensures
        buckets(*final(m)) == buckets(*old(m)).insert(key, tat),
{
    m.insert(key, tat);
}

/// Drops the buckets that have been idle for a time, with `DashMap::retain`, which keeps exactly
/// the entries on which its closure gives true, and changes none of them.
#[verifier::external_body]
fn retain_busy(
    m: &mut dashmap::DashMap<(u8, u128), u128, std::collections::hash_map::RandomState>,
    now: u128,
    limit: u128,
)
    ensures
        buckets(*final(m)) == busy_only(buckets(*old(m)), now, limit),
{
    m.retain(|_, tat| is_busy(*tat, now, limit))
}

/// How long ago an instant was, in nanoseconds, by `Instant::elapsed`. Of the result it is only
/// claimed that it is a length of time: it depends on the clock.
#[verifier::external_body]
fn elapsed(since: &std::time::Instant) -> (r: u128)
    ensures
        r <= MAX_NANOS,
{
    since.elapsed().as_nanos()
}

/// The present instant, by `Instant::now`. Nothing is claimed of it.
#[verifier::external_body]
fn present() -> (r: std::time::Instant) {
    std::time::Instant::now()
}

/// The arrival time of a bucket, or the given one where there is no bucket.
pub open spec fn tat_or(m: Map<(u8, u128), u128>, key: (u8, u128), now: u128) -> u128 {
    if m.dom().contains(key) {
        m[key]
    } else {
        now
    }
}

/// Whether a bucket has been idle for less than a time.
pub open spec fn busy(tat: u128, now: u128, limit: u128) -> bool {
    (if now > tat {
        now - tat
    } else {
        0
    }) < limit
}

/// The buckets that have been idle for less than a time.
pub open spec fn busy_only(m: Map<(u8, u128), u128>, now: u128, limit: u128) -> Map<
    (u8, u128),
    u128,
> {
    m.restrict(Set::new(|k: (u8, u128)| busy(m[k], now, limit)))
}

/// Whether a bucket has been idle for less than a time.
pub fn is_busy(tat: u128, now: u128, limit: u128) -> (r: bool)
    ensures
        r == busy(tat, now, limit),
{
    (if now > tat {
        now - tat
    } else {
        0
    }) < limit
}

/// A client address as a key.
pub open spec fn key_of(ip: IpAddr) -> (u8, u128) {
    match ip {
        IpAddr::V4(a) => (4, a.bits as u128),
        IpAddr::V6(a) => (6, a.bits),
    }
}

fn key(ip: IpAddr) -> (r: (u8, u128))
    ensures
        r == key_of(ip),
{
    match ip {
        IpAddr::V4(a) => (4, a.bits as u128),
        IpAddr::V6(a) => (6, a.bits),
    }
}

/// Two clients share no bucket.
pub proof fn law_one_bucket_per_client(a: IpAddr, b: IpAddr)
    ensures
        key_of(a) == key_of(b) <==> a == b,
{
}

/// The limit of a client.
#[derive(Clone, Copy, Debug)]
pub struct RateLimitConfig {
    /// Max requests per window.
    pub rate: u32,
    /// Window length.
    pub window: Span,
    /// Burst multiplier, as the bits of an IEEE 754 double.
    pub burst_bits: u64,
}

/// The bits of 1.0.
pub const ONE_BITS: u64 = 0x3FF0_0000_0000_0000;

/// The bits of infinity.
pub const INFINITY_BITS: u64 = 0x7FF0_0000_0000_0000;

/// A multiplier, or 1.0 where it is less than that or no number. (The bits of positive doubles
/// are ordered as the doubles are.)
pub open spec fn at_least_one(bits: u64) -> u64 {
    if ONE_BITS <= bits <= INFINITY_BITS {
        bits
    } else {
        ONE_BITS
    }
}

impl RateLimitConfig {
    /// A limit per second: at least one request, and a multiplier of at least 1.0.
    pub fn from_rps(rps: u32, burst_bits: u64) -> (r: Self)
        ensures
            r.rate == (if rps == 0 {
                1
            } else {
                rps
            }),
            r.window.nanos == 1000000000,
            r.burst_bits == at_least_one(burst_bits),
    {
        RateLimitConfig {
            rate: if rps == 0 {
                1
            } else {
                rps
            },
            window: Span::from_secs(1),
            burst_bits: if ONE_BITS <= burst_bits && burst_bits <= INFINITY_BITS {
                burst_bits
            } else {
                ONE_BITS
            },
        }
    }

    /// The emission interval: the window divided by the rate.
    pub open spec fn interval(&self) -> u128 {
        (self.window.nanos as int / (if self.rate == 0 {
            1
        } else {
            self.rate as int
        })) as u128
    }

    /// The emission interval.
    pub fn emission(&self) -> (r: Span)
        ensures
            r.nanos == self.interval(),
            r.nanos <= self.window.nanos,
    {
        let rate: u128 = if self.rate == 0 {
            1
        } else {
            self.rate as u128
        };
        proof {
            vstd::arithmetic::div_mod::lemma_div_is_ordered_by_denominator(
                self.window.nanos as int,
                1,
                rate as int,
            );
        }
        Span { nanos: self.window.nanos / rate }
    }
}

/// Whether a request at an instant is allowed: its bucket is not further ahead than the tolerance.
pub open spec fn conforms(tat: int, now: int, tolerance: int) -> bool {
    tat <= now + tolerance
}

/// The arrival time after an allowed request.
pub open spec fn advanced(tat: int, now: int, cost: int) -> int {
    if tat > now {
        tat + cost
    } else {
        now + cost
    }
}

/// A rate limiter.
pub struct RateLimiter {
    cfg: RateLimitConfig,
    buckets: dashmap::DashMap<(u8, u128), u128, std::collections::hash_map::RandomState>,
    emission: u128,
    tolerance: u128,
    rejects: u64,
    allows: u64,
    started: std::time::Instant,
}

impl RateLimiter {
    /// The buckets.
    pub closed spec fn clients(&self) -> Map<(u8, u128), u128> {
        buckets(self.buckets)
    }

    /// The configuration.
    pub closed spec fn limit(&self) -> RateLimitConfig {
        self.cfg
    }

    /// What a request costs.
    pub closed spec fn cost(&self) -> u128 {
        self.emission
    }

    /// How far a bucket may be ahead of the clock.
    pub closed spec fn credit(&self) -> u128 {
        self.tolerance
    }

    /// The number of requests that were allowed, modulo the range of the counter.
    pub closed spec fn allowed(&self) -> u64 {
        self.allows
    }

    /// The number of requests that were rejected, modulo the range of the counter.
    pub closed spec fn rejected(&self) -> u64 {
        self.rejects
    }

    /// The instant from which the limiter counts.
    pub closed spec fn since(&self) -> std::time::Instant {
        self.started
    }

    /// Whether the clock may say, when it is asked how long ago the limiter began to count, that
    /// it was so many nanoseconds ago.
    pub closed spec fn clocked(&self, now: u128) -> bool {
        call_ensures(elapsed, (&self.since(),), now)
    }

    /// The times are lengths of time, and no bucket is further ahead than the tolerance and one
    /// request.
    pub open spec fn wf(&self) -> bool {
        &&& self.limit().window.wf()
        &&& self.cost() == self.limit().interval()
        &&& self.credit() <= MAX_NANOS
        &&& forall|k: (u8, u128)|
            self.clients().dom().contains(k) ==> #[trigger] self.clients()[k] <= 3 * MAX_NANOS
    }

    /// A limiter without buckets. The tolerance is how much of the emission intervals a burst may
    /// use up in advance.
    pub fn new(cfg: RateLimitConfig, tolerance: Span) -> (r: Self)
        requires
            cfg.window.wf(),
            tolerance.wf(),
        ensures
            r.wf(),
            r.limit() == cfg,
            r.credit() == tolerance.nanos,
            r.clients() == no_buckets(),
            r.allowed() == 0,
            r.rejected() == 0,
    {
        RateLimiter {
            cfg,
            buckets: empty(),
            emission: cfg.emission().nanos,
            tolerance: tolerance.nanos,
            rejects: 0,
            allows: 0,
            started: present(),
        }
    }

    /// What a check at an instant returns and leaves behind.
    pub open spec fn checked(before: &Self, after: &Self, ip: IpAddr, now: u128, r: bool) -> bool {
        let tat = tat_or(before.clients(), key_of(ip), now);
        &&& after.wf()
        &&& after.limit() == before.limit()
        &&& after.credit() == before.credit()
        &&& after.since() == before.since()
        &&& r == conforms(tat as int, now as int, before.credit() as int)
        &&& if r {
            after.clients() == before.clients().insert(
                key_of(ip),
                advanced(tat as int, now as int, before.cost() as int) as u128,
            ) && after.allowed() == next(before.allowed()) && after.rejected()
                == before.rejected()
        } else {
            after.clients() == before.clients() && after.allowed() == before.allowed()
                && after.rejected() == next(before.rejected())
        }
    }

    /// Returns true if a request at the given instant is allowed.
    pub fn check_at(&mut self, ip: IpAddr, now: u128) -> (r: bool)
        requires
            old(self).wf(),
            now <= MAX_NANOS,
        ensures
            Self::checked(old(self), final(self), ip, now, r),
    {
        proof {
            vstd::arithmetic::div_mod::lemma_div_is_ordered_by_denominator(
                self.cfg.window.nanos as int,
                1,
                (if self.cfg.rate == 0 {
                    1
                } else {
                    self.cfg.rate as int
                }),
            );
        }
        let k: (u8, u128) = key(ip);
        let tat: u128 = bucket(&mut self.buckets, k, now);
        if now + self.tolerance < tat {
            self.rejects = self.rejects.wrapping_add(1);
            assert(self.clients() =~= old(self).clients());
            return false;
        }
        let new_tat: u128 = if tat > now {
            tat + self.emission
        } else {
            now + self.emission
        };
        set_bucket(&mut self.buckets, k, new_tat);
        self.allows = self.allows.wrapping_add(1);
        assert(self.clients() =~= old(self).clients().insert(k, new_tat));
        true
    }

    /// The present instant: how long ago the limiter began to count, as the clock says.
    pub fn now(&self) -> (r: u128)
        ensures
            r <= MAX_NANOS,
            self.clocked(r),
    {
        elapsed(&self.started)
    }

    /// Returns true if the request is allowed.
    ///
    /// What is returned depends on the clock; it is what `check_at` returns at the instant that the
    /// clock gives.
    pub fn check(&mut self, ip: IpAddr) -> (r: bool)
        requires
            old(self).wf(),
        ensures
            exists|now: u128|
                now <= MAX_NANOS && old(self).clocked(now) && #[trigger] Self::checked(
                    old(self),
                    final(self),
                    ip,
                    now,
                    r,
                ),
    {
        let now: u128 = self.now();
        self.check_at(ip, now)
    }

    /// The number of rejected requests.
    pub fn rejects(&self) -> (r: u64)
        ensures
            r == self.rejected(),
    {
        self.rejects
    }

    /// The number of allowed requests.
    pub fn allows(&self) -> (r: u64)
        ensures
            r == self.allowed(),
    {
        self.allows
    }

    /// What a cleanup at an instant leaves behind.
    pub open spec fn cleaned(before: &Self, after: &Self, max_idle: Span, now: u128) -> bool {
        &&& after.wf()
        &&& after.limit() == before.limit()
        &&& after.credit() == before.credit()
        &&& after.since() == before.since()
        &&& after.allowed() == before.allowed()
        &&& after.rejected() == before.rejected()
        &&& after.clients() == busy_only(
            before.clients(),
            now,
            (max_idle.nanos + before.limit().window.nanos) as u128,
        )
    }

    /// Drops the buckets that are idle at the given instant.
    pub fn cleanup_at(&mut self, max_idle: Span, now: u128)
        requires
            old(self).wf(),
            max_idle.nanos + old(self).limit().window.nanos <= MAX_NANOS,
        ensures
            Self::cleaned(old(self), final(self), max_idle, now),
    {
        let limit: u128 = max_idle.nanos + self.cfg.window.nanos;
        retain_busy(&mut self.buckets, now, limit);
        assert forall|k: (u8, u128)|
            self.clients().dom().contains(k) implies #[trigger] self.clients()[k] <= 3
            * MAX_NANOS by {
            assert(self.clients()[k] == old(self).clients()[k]);
        }
    }

    /// Opportunistic cleanup of idle buckets (call periodically).
    ///
    /// Which buckets are idle depends on the clock; it does what `cleanup_at` does at the instant
    /// that the clock gives.
    pub fn cleanup(&mut self, max_idle: Span)
        requires
            old(self).wf(),
            max_idle.nanos + old(self).limit().window.nanos <= MAX_NANOS,
        ensures
            exists|now: u128|
                now <= MAX_NANOS && old(self).clocked(now) && #[trigger] Self::cleaned(
                    old(self),
                    final(self),
                    max_idle,
                    now,
                ),
    {
        let now: u128 = self.now();
        self.cleanup_at(max_idle, now)
    }
}

/// A counter after one more event.
pub open spec fn next(n: u64) -> u64 {
    if n == u64::MAX {
        0
    } else {
        (n + 1) as u64
    }
}

/// The arrival time after requests of one client at some instants, from the arrival time before
/// them (none for a new client).
pub open spec fn after_requests(
    tat: Option<int>,
    times: Seq<int>,
    tolerance: int,
    cost: int,
) -> Option<int>
    decreases times.len(),
{
    if times.len() == 0 {
        tat
    } else {
        let now = times.last();
        let before = after_requests(tat, times.drop_last(), tolerance, cost);
        let t = before.unwrap_or(now);
        if conforms(t, now, tolerance) {
            Some(advanced(t, now, cost))
        } else {
            before
        }
    }
}

/// How many of the requests of one client at some instants are allowed, from the arrival time
/// before them (none for a new client).
pub open spec fn admitted(tat: Option<int>, times: Seq<int>, tolerance: int, cost: int) -> nat
    decreases times.len(),
{
    if times.len() == 0 {
        0
    } else {
        let now = times.last();
        let t = after_requests(tat, times.drop_last(), tolerance, cost).unwrap_or(now);
        admitted(tat, times.drop_last(), tolerance, cost) + (if conforms(t, now, tolerance) {
            1nat
        } else {
            0
        })
    }
}

/// The rate holds: whatever a client did before, of its requests from one instant to another no
/// more are allowed than the time between the two and the tolerance make room for, and one.
pub proof fn law_rate_is_kept(
    tat: Option<int>,
    times: Seq<int>,
    tolerance: int,
    cost: int,
    from: int,
    to: int,
)
    requires
        tolerance >= 0,
        cost >= 0,
        from <= to,
        forall|i: int| 0 <= i < times.len() ==> from <= #[trigger] times[i] <= to,
    ensures
        (admitted(tat, times, tolerance, cost) - 1) * cost <= to - from + tolerance,
    decreases times.len(),
{
    if times.len() == 0 {
        assert((0 - 1) * cost <= 0) by (nonlinear_arith)
            requires
                cost >= 0,
        ;
    } else {
        let now = times.last();
        let p = times.drop_last();
        assert(forall|i: int| 0 <= i < p.len() ==> p[i] == #[trigger] times[i]);
        law_rate_is_kept(tat, p, tolerance, cost, from, to);
        lemma_admitted_advances(tat, p, tolerance, cost, from);
        let n = admitted(tat, p, tolerance, cost);
        if n == 0 {
            assert((n + 1 - 1) * cost == 0) by (nonlinear_arith)
                requires
                    n == 0,
            ;
        } else {
            assert((n + 1 - 1) * cost == n * cost);
        }
    }
}

/// Each allowed request moves the arrival time on by at least its cost.
proof fn lemma_admitted_advances(
    tat: Option<int>,
    times: Seq<int>,
    tolerance: int,
    cost: int,
    from: int,
)
    requires
        cost >= 0,
        forall|i: int| 0 <= i < times.len() ==> from <= #[trigger] times[i],
    ensures
        admitted(tat, times, tolerance, cost) > 0 ==> (after_requests(tat, times, tolerance, cost)
            matches Some(t) && t >= from + admitted(tat, times, tolerance, cost) * cost),
    decreases times.len(),
{
    if times.len() > 0 {
        let p = times.drop_last();
        assert(forall|i: int| 0 <= i < p.len() ==> p[i] == #[trigger] times[i]);
        lemma_admitted_advances(tat, p, tolerance, cost, from);
        let n = admitted(tat, p, tolerance, cost);
        assert((n + 1) * cost == n * cost + cost) by (nonlinear_arith);
        if n == 0 {
            assert(n * cost == 0) by (nonlinear_arith)
                requires
                    n == 0,
            ;
        }
    }
}

/// How many of some checks were of one client and allowed.
pub open spec fn passes_of(ips: Seq<IpAddr>, results: Seq<bool>, ip: IpAddr) -> nat
    decreases results.len(),
{
    if results.len() == 0 {
        0
    } else {
        passes_of(ips, results.drop_last(), ip) + (if ips[results.len() - 1] == ip
            && results.last() {
            1nat
        } else {
            0
        })
    }
}

/// Whether a limiter went through some states by checks of some clients at some instants, with
/// some results.
pub open spec fn ran(
    states: Seq<RateLimiter>,
    ips: Seq<IpAddr>,
    times: Seq<u128>,
    results: Seq<bool>,
) -> bool {
    &&& states.len() == results.len() + 1
    &&& ips.len() == results.len()
    &&& times.len() == results.len()
    &&& forall|i: int|
        0 <= i < results.len() ==> #[trigger] RateLimiter::checked(
            &states[i],
            &states[i + 1],
            ips[i],
            times[i],
            results[i],
        )
}

/// The rate holds of a limiter in any state: of its checks from one instant to another, whoever
/// else is checked in between, no more are allowed to one client than the time between the two and
/// the tolerance make room for, and one.
pub proof fn law_limiter_keeps_the_rate(
    states: Seq<RateLimiter>,
    ips: Seq<IpAddr>,
    times: Seq<u128>,
    results: Seq<bool>,
    ip: IpAddr,
    from: int,
    to: int,
)
    requires
        ran(states, ips, times, results),
        states[0].wf(),
        from <= to <= MAX_NANOS,
        forall|i: int| 0 <= i < times.len() ==> from <= #[trigger] times[i] <= to,
    ensures
        (passes_of(ips, results, ip) - 1) * states[0].cost() <= to - from + states[0].credit(),
        states[0].cost() > 0 ==> passes_of(ips, results, ip) <= 1 + (to - from
            + states[0].credit()) / states[0].cost() as int,
{
    lemma_limiter_keeps_the_rate(states, ips, times, results, ip, from, to);
    let n = passes_of(ips, results, ip);
    let cost = states[0].cost() as int;
    let room = to - from + states[0].credit();
    if cost > 0 {
        vstd::arithmetic::div_mod::lemma_fundamental_div_mod(room, cost);
        assert(n - 1 <= room / cost) by (nonlinear_arith)
            requires
                (n - 1) * cost <= room,
                room == cost * (room / cost) + room % cost,
                room % cost < cost,
                cost > 0,
        ;
    }
}

proof fn lemma_limiter_keeps_the_rate(
    states: Seq<RateLimiter>,
    ips: Seq<IpAddr>,
    times: Seq<u128>,
    results: Seq<bool>,
    ip: IpAddr,
    from: int,
    to: int,
)
    requires
        ran(states, ips, times, results),
        states[0].wf(),
        from <= to <= MAX_NANOS,
        forall|i: int| 0 <= i < times.len() ==> from <= #[trigger] times[i] <= to,
    ensures
        ({
            let n = passes_of(ips, results, ip);
            let cost = states[0].cost();
            let last = states.last();
            &&& last.wf()
            &&& last.limit() == states[0].limit()
            &&& last.credit() == states[0].credit()
            &&& (n - 1) * cost <= to - from + states[0].credit()
            &&& n > 0 ==> last.clients().dom().contains(key_of(ip))
                && last.clients()[key_of(ip)] >= from + n * cost
        }),
    decreases results.len(),
{
    let cost = states[0].cost() as int;
    if results.len() == 0 {
        assert((0 - 1) * cost <= 0) by (nonlinear_arith)
            requires
                cost >= 0,
        ;
    } else {
        let k = results.len() - 1;
        let ss = states.drop_last();
        let rs = results.drop_last();
        let ts = times.drop_last();
        let is = ips.drop_last();
        assert forall|i: int| 0 <= i < rs.len() implies #[trigger] RateLimiter::checked(
            &ss[i],
            &ss[i + 1],
            is[i],
            ts[i],
            rs[i],
        ) by {
            assert(RateLimiter::checked(
                &states[i],
                &states[i + 1],
                ips[i],
                times[i],
                results[i],
            ));
        }
        assert(forall|i: int| 0 <= i < ts.len() ==> ts[i] == #[trigger] times[i]);
        lemma_limiter_keeps_the_rate(ss, is, ts, rs, ip, from, to);
        lemma_passes_of(is, ips, rs, ip);
        let n = passes_of(is, rs, ip);
        assert(RateLimiter::checked(
            &states[k],
            &states[k + 1],
            ips[k],
            times[k],
            results[k],
        ));
        law_one_bucket_per_client(ips[k], ip);
        lemma_interval_bound(states[0].limit());
        assert((n + 1) * cost == n * cost + cost) by (nonlinear_arith);
        if n == 0 {
            assert(n * cost == 0) by (nonlinear_arith)
                requires
                    n == 0,
            ;
        }
        assert(times[k] <= to);
    }
}

proof fn lemma_interval_bound(c: RateLimitConfig)
    ensures
        c.interval() <= c.window.nanos,
{
    vstd::arithmetic::div_mod::lemma_div_is_ordered_by_denominator(
        c.window.nanos as int,
        1,
        if c.rate == 0 {
            1
        } else {
            c.rate as int
        },
    );
}

/// Later clients do not change how many passed before.
proof fn lemma_passes_of(a: Seq<IpAddr>, b: Seq<IpAddr>, results: Seq<bool>, ip: IpAddr)
    requires
        a.len() >= results.len(),
        b.len() >= results.len(),
        forall|i: int| 0 <= i < results.len() ==> a[i] == #[trigger] b[i],
    ensures
        passes_of(a, results, ip) == passes_of(b, results, ip),
    decreases results.len(),
{
    if results.len() > 0 {
        lemma_passes_of(a, b, results.drop_last(), ip);
        assert(a[results.len() - 1] == b[results.len() - 1]);
    }
}

/// A burst: of requests of a new client at one and the same instant exactly those are allowed
/// that the tolerance covers, and one.
pub proof fn law_burst(n: nat, now: int, tolerance: int, cost: int)
    requires
        tolerance >= 0,
        cost > 0,
    ensures
        admitted(None, Seq::new(n, |i: int| now), tolerance, cost) == (if n <= tolerance / cost
            + 1 {
            n as int
        } else {
            tolerance / cost + 1
        }),
    decreases n,
{
    lemma_burst(n, now, tolerance, cost);
}

proof fn lemma_burst(n: nat, now: int, tolerance: int, cost: int)
    requires
        tolerance >= 0,
        cost > 0,
    ensures
        ({
            let k = if n <= tolerance / cost + 1 {
                n as int
            } else {
                tolerance / cost + 1
            };
            let times = Seq::new(n, |i: int| now);
            admitted(None, times, tolerance, cost) == k && (n > 0 ==> after_requests(
                None,
                times,
                tolerance,
                cost,
            ) == Some(now + k * cost))
        }),
    decreases n,
{
    let q = tolerance / cost;
    vstd::arithmetic::div_mod::lemma_div_pos_is_pos(tolerance, cost);
    if n > 0 {
        let times = Seq::new(n, |i: int| now);
        let p = times.drop_last();
        assert(p =~= Seq::new((n - 1) as nat, |i: int| now));
        lemma_burst((n - 1) as nat, now, tolerance, cost);
        vstd::arithmetic::div_mod::lemma_fundamental_div_mod(tolerance, cost);
        let k = if n - 1 <= q + 1 {
            n - 1
        } else {
            q + 1
        };
        if n == 1 {
            assert(k * cost == 0 && (k + 1) * cost == cost) by (nonlinear_arith)
                requires
                    k == 0,
            ;
        } else {
            assert((k + 1) * cost == k * cost + cost) by (nonlinear_arith);
            assert(k <= q ==> k * cost <= tolerance) by (nonlinear_arith)
                requires
                    tolerance == cost * q + tolerance % cost,
                    tolerance % cost >= 0,
                    cost > 0,
            ;
            assert(k == q + 1 ==> k * cost > tolerance) by (nonlinear_arith)
                requires
                    tolerance == cost * q + tolerance % cost,
                    tolerance % cost < cost,
                    cost > 0,
            ;
            assert(k >= 1 ==> k * cost > 0) by (nonlinear_arith)
                requires
                    cost > 0,
            ;
        }
    }
}

/// A burst of a number of requests: where the tolerance covers all of them but one, a new client
/// gets exactly that many requests through at one and the same instant.
pub proof fn law_burst_of(requests: nat, n: nat, now: int, cost: int)
    requires
        requests > 0,
        cost > 0,
    ensures
        admitted(None, Seq::new(n, |i: int| now), (requests - 1) * cost, cost) == (if n
            <= requests {
            n
        } else {
            requests
        }),
{
    let tolerance = (requests - 1) * cost;
    assert(tolerance >= 0) by (nonlinear_arith)
        requires
            requests > 0,
            cost > 0,
            tolerance == (requests - 1) * cost,
    ;
    vstd::arithmetic::div_mod::lemma_div_multiples_vanish(requests - 1, cost);
    assert(tolerance == cost * (requests - 1)) by (nonlinear_arith)
        requires
            tolerance == (requests - 1) * cost,
    ;
    law_burst(n, now, tolerance, cost);
}

/// A client that waits until its arrival time is allowed again, and so is one that is ahead of
/// the clock by no more than the tolerance.
pub proof fn law_waiting_helps(tat: int, now: int, tolerance: int)
    requires
        tolerance >= 0,
        now >= tat || tat - now <= tolerance,
    ensures
        conforms(tat, now, tolerance),
{
}

/// Checks keep the settings of a limiter.
proof fn lemma_ran_settings(
    states: Seq<RateLimiter>,
    ips: Seq<IpAddr>,
    times: Seq<u128>,
    results: Seq<bool>,
    i: int,
)
    requires
        ran(states, ips, times, results),
        states[0].wf(),
        0 <= i <= results.len(),
    ensures
        states[i].wf(),
        states[i].limit() == states[0].limit(),
        states[i].credit() == states[0].credit(),
        states[i].cost() == states[0].cost(),
    decreases i,
{
    if i > 0 {
        lemma_ran_settings(states, ips, times, results, i - 1);
        assert(RateLimiter::checked(
            &states[i - 1],
            &states[i - 1 + 1],
            ips[i - 1],
            times[i - 1],
            results[i - 1],
        ));
    }
}

/// The arrival time after an allowed request fits.
proof fn lemma_advanced_fits(l: RateLimiter, key: (u8, u128), now: u128)
    requires
        l.wf(),
        now <= MAX_NANOS,
        conforms(tat_or(l.clients(), key, now) as int, now as int, l.credit() as int),
    ensures
        0 <= advanced(
            tat_or(l.clients(), key, now) as int,
            now as int,
            l.cost() as int,
        ) <= 3 * MAX_NANOS,
{
    lemma_interval_bound(l.limit());
}

/// Whoever keeps the rate is never refused: in a run of a limiter that did not know a client (a new
/// one knows none), a client whose checks are all at least the emission interval apart passes every
/// one of them, whoever else is checked in between.
pub proof fn law_spaced_checks_pass(
    states: Seq<RateLimiter>,
    ips: Seq<IpAddr>,
    times: Seq<u128>,
    results: Seq<bool>,
    ip: IpAddr,
    i: int,
)
    requires
        ran(states, ips, times, results),
        states[0].wf(),
        !states[0].clients().dom().contains(key_of(ip)),
        forall|j: int| 0 <= j < times.len() ==> #[trigger] times[j] <= MAX_NANOS,
        forall|j: int, k: int|
            0 <= j < k < times.len() && ips[j] == ip && ips[k] == ip ==> #[trigger] times[j]
                + states[0].cost() <= #[trigger] times[k],
        0 <= i < results.len(),
        ips[i] == ip,
    ensures
        results[i],
{
    lemma_spaced_bucket(states, ips, times, results, ip, i);
    lemma_ran_settings(states, ips, times, results, i);
    assert(RateLimiter::checked(&states[i], &states[i + 1], ips[i], times[i], results[i]));
}

/// While the checks of a client are an emission interval apart, its bucket is that of its last one.
proof fn lemma_spaced_bucket(
    states: Seq<RateLimiter>,
    ips: Seq<IpAddr>,
    times: Seq<u128>,
    results: Seq<bool>,
    ip: IpAddr,
    i: int,
)
    requires
        ran(states, ips, times, results),
        states[0].wf(),
        !states[0].clients().dom().contains(key_of(ip)),
        forall|j: int| 0 <= j < times.len() ==> #[trigger] times[j] <= MAX_NANOS,
        forall|j: int, k: int|
            0 <= j < k < times.len() && ips[j] == ip && ips[k] == ip ==> #[trigger] times[j]
                + states[0].cost() <= #[trigger] times[k],
        0 <= i <= results.len(),
    ensures
        states[i].clients().dom().contains(key_of(ip)) ==> exists|j: int|
            0 <= j < i && ips[j] == ip && states[i].clients()[key_of(ip)] == #[trigger] times[j]
                + states[0].cost(),
    decreases i,
{
    if i > 0 {
        let p = i - 1;
        lemma_spaced_bucket(states, ips, times, results, ip, p);
        lemma_ran_settings(states, ips, times, results, p);
        assert(RateLimiter::checked(&states[p], &states[p + 1], ips[p], times[p], results[p]));
        law_one_bucket_per_client(ips[p], ip);
        if results[p] {
            lemma_advanced_fits(states[p], key_of(ips[p]), times[p]);
        }
        assert(times[p] <= MAX_NANOS);
    }
}

/// The instants at which one client is checked.
pub open spec fn times_of(ips: Seq<IpAddr>, times: Seq<u128>, ip: IpAddr) -> Seq<u128>
    decreases times.len(),
{
    if times.len() == 0 {
        Seq::empty()
    } else {
        let before = times_of(ips, times.drop_last(), ip);
        if ips[times.len() - 1] == ip {
            before.push(times.last())
        } else {
            before
        }
    }
}

/// The results of the checks of one client.
pub open spec fn results_of(ips: Seq<IpAddr>, results: Seq<bool>, ip: IpAddr) -> Seq<bool>
    decreases results.len(),
{
    if results.len() == 0 {
        Seq::empty()
    } else {
        let before = results_of(ips, results.drop_last(), ip);
        if ips[results.len() - 1] == ip {
            before.push(results.last())
        } else {
            before
        }
    }
}

/// The bucket of a client.
pub open spec fn bucket_of(l: RateLimiter, ip: IpAddr) -> Option<int> {
    if l.clients().dom().contains(key_of(ip)) {
        Some(l.clients()[key_of(ip)] as int)
    } else {
        None
    }
}

/// Which of the requests of one client at some instants are allowed, from the arrival time before
/// them (none for a new client).
pub open spec fn verdicts(tat: Option<int>, times: Seq<u128>, tolerance: int, cost: int) -> Seq<
    bool,
>
    decreases times.len(),
{
    if times.len() == 0 {
        Seq::empty()
    } else {
        let before = times.drop_last();
        let now = times.last() as int;
        let t = bucket_after(tat, before, tolerance, cost).unwrap_or(now);
        verdicts(tat, before, tolerance, cost).push(conforms(t, now, tolerance))
    }
}

/// The arrival time after the requests of one client at some instants.
pub open spec fn bucket_after(
    tat: Option<int>,
    times: Seq<u128>,
    tolerance: int,
    cost: int,
) -> Option<int> {
    after_requests(tat, Seq::new(times.len(), |i: int| times[i] as int), tolerance, cost)
}

proof fn lemma_bucket_after(tat: Option<int>, times: Seq<u128>, tolerance: int, cost: int)
    requires
        times.len() > 0,
    ensures
        bucket_after(tat, times, tolerance, cost) == ({
            let now = times.last() as int;
            let before = bucket_after(tat, times.drop_last(), tolerance, cost);
            if conforms(before.unwrap_or(now), now, tolerance) {
                Some(advanced(before.unwrap_or(now), now, cost))
            } else {
                before
            }
        }),
{
    let all = Seq::new(times.len(), |i: int| times[i] as int);
    let p = times.drop_last();
    assert(all.drop_last() =~= Seq::new(p.len(), |i: int| p[i] as int));
}

/// Each client is judged by its own checks alone: what it gets follows from its bucket at the
/// start and from the instants of its own checks, whoever else is checked in between.
pub proof fn law_clients_are_judged_alone(
    states: Seq<RateLimiter>,
    ips: Seq<IpAddr>,
    times: Seq<u128>,
    results: Seq<bool>,
    ip: IpAddr,
)
    requires
        ran(states, ips, times, results),
        states[0].wf(),
        forall|j: int| 0 <= j < times.len() ==> #[trigger] times[j] <= MAX_NANOS,
    ensures
        ({
            let tat = bucket_of(states[0], ip);
            let own = times_of(ips, times, ip);
            let tolerance = states[0].credit() as int;
            let cost = states[0].cost() as int;
            &&& results_of(ips, results, ip) == verdicts(tat, own, tolerance, cost)
            &&& bucket_of(states.last(), ip) == bucket_after(tat, own, tolerance, cost)
        }),
    decreases results.len(),
{
    let tat = bucket_of(states[0], ip);
    let tolerance = states[0].credit() as int;
    let cost = states[0].cost() as int;
    if results.len() > 0 {
        let k = results.len() - 1;
        let ss = states.drop_last();
        let rs = results.drop_last();
        let ts = times.drop_last();
        let is = ips.drop_last();
        assert forall|i: int| 0 <= i < rs.len() implies #[trigger] RateLimiter::checked(
            &ss[i],
            &ss[i + 1],
            is[i],
            ts[i],
            rs[i],
        ) by {
            assert(RateLimiter::checked(
                &states[i],
                &states[i + 1],
                ips[i],
                times[i],
                results[i],
            ));
        }
        assert(forall|i: int| 0 <= i < ts.len() ==> ts[i] == #[trigger] times[i]);
        law_clients_are_judged_alone(ss, is, ts, rs, ip);
        lemma_same_clients(is, ips, ts, rs, ip);
        lemma_ran_settings(states, ips, times, results, k);
        assert(times[k] <= MAX_NANOS);
        assert(RateLimiter::checked(
            &states[k],
            &states[k + 1],
            ips[k],
            times[k],
            results[k],
        ));
        law_one_bucket_per_client(ips[k], ip);
        if results[k] {
            lemma_advanced_fits(states[k], key_of(ips[k]), times[k]);
        }
        if ips[k] == ip {
            let own = times_of(ips, times, ip);
            assert(own.drop_last() =~= times_of(ips, ts, ip));
            lemma_bucket_after(tat, own, tolerance, cost);
        }
    } else {
        let none = Seq::new(0, |i: int| times_of(ips, times, ip)[i] as int);
        assert(none.len() == 0);
    }
}

/// Later clients do not change what was picked before.
proof fn lemma_same_clients(
    a: Seq<IpAddr>,
    b: Seq<IpAddr>,
    times: Seq<u128>,
    results: Seq<bool>,
    ip: IpAddr,
)
    requires
        times.len() == results.len(),
        a.len() >= results.len(),
        b.len() >= results.len(),
        forall|i: int| 0 <= i < results.len() ==> a[i] == #[trigger] b[i],
    ensures
        times_of(a, times, ip) == times_of(b, times, ip),
        results_of(a, results, ip) == results_of(b, results, ip),
    decreases results.len(),
{
    if results.len() > 0 {
        lemma_same_clients(a, b, times.drop_last(), results.drop_last(), ip);
        assert(a[results.len() - 1] == b[results.len() - 1]);
    }
}

/// Other clients change nothing: in two runs of limiters with the same settings that know the same
/// of a client, the client gets the same results for checks at the same instants, whoever else is
/// checked in the one and in the other.
pub proof fn law_other_clients_change_nothing(
    states1: Seq<RateLimiter>,
    ips1: Seq<IpAddr>,
    times1: Seq<u128>,
    results1: Seq<bool>,
    states2: Seq<RateLimiter>,
    ips2: Seq<IpAddr>,
    times2: Seq<u128>,
    results2: Seq<bool>,
    ip: IpAddr,
)
    requires
        ran(states1, ips1, times1, results1),
        ran(states2, ips2, times2, results2),
        states1[0].wf(),
        states2[0].wf(),
        states1[0].limit() == states2[0].limit(),
        states1[0].credit() == states2[0].credit(),
        bucket_of(states1[0], ip) == bucket_of(states2[0], ip),
        forall|j: int| 0 <= j < times1.len() ==> #[trigger] times1[j] <= MAX_NANOS,
        forall|j: int| 0 <= j < times2.len() ==> #[trigger] times2[j] <= MAX_NANOS,
        times_of(ips1, times1, ip) == times_of(ips2, times2, ip),
    ensures
        results_of(ips1, results1, ip) == results_of(ips2, results2, ip),
        bucket_of(states1.last(), ip) == bucket_of(states2.last(), ip),
{
    law_clients_are_judged_alone(states1, ips1, times1, results1, ip);
    law_clients_are_judged_alone(states2, ips2, times2, results2, ip);
}

/// Refused requests change nothing: without a request of a client that is refused, its others get
/// the results that they got with it.
pub proof fn law_refused_requests_change_nothing(
    tat: Option<int>,
    times: Seq<u128>,
    tolerance: int,
    cost: int,
    k: int,
)
    requires
        0 <= k < times.len(),
        !verdicts(tat, times, tolerance, cost)[k],
    ensures
        verdicts(tat, times.remove(k), tolerance, cost) == verdicts(
            tat,
            times,
            tolerance,
            cost,
        ).remove(k),
        bucket_after(tat, times.remove(k), tolerance, cost) == bucket_after(
            tat,
            times,
            tolerance,
            cost,
        ),
    decreases times.len(),
{
    let p = times.drop_last();
    lemma_verdicts_len(tat, times, tolerance, cost);
    lemma_verdicts_len(tat, p, tolerance, cost);
    lemma_bucket_after(tat, times, tolerance, cost);
    let v = verdicts(tat, times, tolerance, cost);
    let q = verdicts(tat, p, tolerance, cost);
    if k == times.len() - 1 {
        assert(times.remove(k) =~= p);
        assert(v.remove(k) =~= q);
    } else {
        assert(v[k] == q[k]);
        law_refused_requests_change_nothing(tat, p, tolerance, cost, k);
        assert(times.remove(k).drop_last() =~= p.remove(k));
        assert(times.remove(k).last() == times.last());
        lemma_bucket_after(tat, times.remove(k), tolerance, cost);
        assert(v.remove(k) =~= q.remove(k).push(v.last()));
    }
}

/// Refused checks change nothing: in two runs of limiters with the same settings that know the same
/// of a client, where the client is checked at the same instants but for one check that the first
/// run refused, all its other checks get the same results.
pub proof fn law_refused_checks_change_nothing(
    states1: Seq<RateLimiter>,
    ips1: Seq<IpAddr>,
    times1: Seq<u128>,
    results1: Seq<bool>,
    states2: Seq<RateLimiter>,
    ips2: Seq<IpAddr>,
    times2: Seq<u128>,
    results2: Seq<bool>,
    ip: IpAddr,
    k: int,
)
    requires
        ran(states1, ips1, times1, results1),
        ran(states2, ips2, times2, results2),
        states1[0].wf(),
        states2[0].wf(),
        states1[0].limit() == states2[0].limit(),
        states1[0].credit() == states2[0].credit(),
        bucket_of(states1[0], ip) == bucket_of(states2[0], ip),
        forall|j: int| 0 <= j < times1.len() ==> #[trigger] times1[j] <= MAX_NANOS,
        forall|j: int| 0 <= j < times2.len() ==> #[trigger] times2[j] <= MAX_NANOS,
        0 <= k < times_of(ips1, times1, ip).len(),
        !results_of(ips1, results1, ip)[k],
        times_of(ips2, times2, ip) == times_of(ips1, times1, ip).remove(k),
    ensures
        results_of(ips2, results2, ip) == results_of(ips1, results1, ip).remove(k),
{
    law_clients_are_judged_alone(states1, ips1, times1, results1, ip);
    law_clients_are_judged_alone(states2, ips2, times2, results2, ip);
    law_refused_requests_change_nothing(
        bucket_of(states1[0], ip),
        times_of(ips1, times1, ip),
        states1[0].credit() as int,
        states1[0].cost() as int,
        k,
    );
}

proof fn lemma_verdicts_len(tat: Option<int>, times: Seq<u128>, tolerance: int, cost: int)
    ensures
        verdicts(tat, times, tolerance, cost).len() == times.len(),
    decreases times.len(),
{
    if times.len() > 0 {
        lemma_verdicts_len(tat, times.drop_last(), tolerance, cost);
    }
}

/// Whether two limiters cannot be told apart from an instant on: they have the same settings, and
/// the same buckets, but for some that only one of them has and that count as none from then on.
spec fn alike(a: RateLimiter, b: RateLimiter, since: u128) -> bool {
    &&& a.limit() == b.limit()
    &&& a.credit() == b.credit()
    &&& forall|k: (u8, u128)| #[trigger]
        b.clients().dom().contains(k) ==> a.clients().dom().contains(k) && a.clients()[k]
            == b.clients()[k]
    &&& forall|k: (u8, u128)| #[trigger]
        a.clients().dom().contains(k) ==> b.clients().dom().contains(k) || a.clients()[k] <= since
}

/// A cleanup cannot be noticed: of two limiters with the same buckets, one of which is cleaned,
/// both give the same results for all checks from then on. (The time after which buckets are
/// dropped is not zero.)
pub proof fn law_cleanup_unnoticed(
    kept: Seq<RateLimiter>,
    cleaned: Seq<RateLimiter>,
    max_idle: Span,
    cleaned_at: u128,
    ips: Seq<IpAddr>,
    times: Seq<u128>,
    kept_results: Seq<bool>,
    cleaned_results: Seq<bool>,
)
    requires
        ran(kept, ips, times, kept_results),
        ran(cleaned, ips, times, cleaned_results),
        kept[0].wf(),
        RateLimiter::cleaned(&kept[0], &cleaned[0], max_idle, cleaned_at),
        0 < max_idle.nanos + kept[0].limit().window.nanos <= MAX_NANOS,
        forall|j: int| 0 <= j < times.len() ==> cleaned_at <= #[trigger] times[j] <= MAX_NANOS,
    ensures
        kept_results == cleaned_results,
{
    assert(alike(kept[0], cleaned[0], cleaned_at));
    assert forall|i: int| 0 <= i < kept_results.len() implies kept_results[i]
        == cleaned_results[i] by {
        lemma_alike(kept, cleaned, cleaned_at, ips, times, kept_results, cleaned_results, i + 1);
    }
    assert(kept_results =~= cleaned_results);
}

proof fn lemma_alike(
    kept: Seq<RateLimiter>,
    cleaned: Seq<RateLimiter>,
    cleaned_at: u128,
    ips: Seq<IpAddr>,
    times: Seq<u128>,
    kept_results: Seq<bool>,
    cleaned_results: Seq<bool>,
    i: int,
)
    requires
        ran(kept, ips, times, kept_results),
        ran(cleaned, ips, times, cleaned_results),
        kept[0].wf(),
        cleaned[0].wf(),
        alike(kept[0], cleaned[0], cleaned_at),
        forall|j: int| 0 <= j < times.len() ==> cleaned_at <= #[trigger] times[j] <= MAX_NANOS,
        0 <= i <= kept_results.len(),
    ensures
        alike(kept[i], cleaned[i], cleaned_at),
        i > 0 ==> kept_results[i - 1] == cleaned_results[i - 1],
    decreases i,
{
    if i > 0 {
        let p = i - 1;
        lemma_alike(kept, cleaned, cleaned_at, ips, times, kept_results, cleaned_results, p);
        lemma_ran_settings(kept, ips, times, kept_results, p);
        lemma_ran_settings(cleaned, ips, times, cleaned_results, p);
        assert(cleaned_at <= times[p] <= MAX_NANOS);
        assert(RateLimiter::checked(
            &kept[p],
            &kept[p + 1],
            ips[p],
            times[p],
            kept_results[p],
        ));
        assert(RateLimiter::checked(
            &cleaned[p],
            &cleaned[p + 1],
            ips[p],
            times[p],
            cleaned_results[p],
        ));
    }
}

/// The emission interval is what each request of a window can have of it: that many intervals fit
/// into the window, and not one nanosecond more for each. A rate of zero counts as one.
pub proof fn law_interval(cfg: RateLimitConfig)
    ensures
        cfg.rate > 0 ==> cfg.interval() * cfg.rate <= cfg.window.nanos < (cfg.interval() + 1)
            * cfg.rate,
        cfg.rate == 0 ==> cfg.interval() == cfg.window.nanos,
{
    let w = cfg.window.nanos as int;
    if cfg.rate > 0 {
        let n = cfg.rate as int;
        let q = w / n;
        vstd::arithmetic::div_mod::lemma_fundamental_div_mod(w, n);
        vstd::arithmetic::div_mod::lemma_div_is_ordered_by_denominator(w, 1, n);
        vstd::arithmetic::div_mod::lemma_div_pos_is_pos(w, n);
        assert(cfg.interval() == q);
        assert(q * n <= w < (q + 1) * n) by (nonlinear_arith)
            requires
                w == n * q + w % n,
                0 <= w % n < n,
        ;
    }
}

/// A multiplier from 1.0 to infinity stays as it is, and anything else becomes 1.0.
pub proof fn law_at_least_one(bits: u64)
    ensures
        0x3FF0_0000_0000_0000 <= bits <= 0x7FF0_0000_0000_0000 ==> at_least_one(bits) == bits,
        bits < 0x3FF0_0000_0000_0000 || bits > 0x7FF0_0000_0000_0000 ==> at_least_one(bits)
            == 0x3FF0_0000_0000_0000,
{
}

/// What a check does. A client without a bucket is allowed; one with a bucket exactly where the
/// bucket is no further ahead of the clock than the tolerance. An allowed request moves the bucket
/// on by its cost, from the present where it lags behind; a refused one leaves it. The request is
/// counted, and no other client's bucket changes.
pub proof fn law_check(
    before: RateLimiter,
    after: RateLimiter,
    ip: IpAddr,
    now: u128,
    r: bool,
    other: IpAddr,
)
    requires
        RateLimiter::checked(&before, &after, ip, now, r),
        before.wf(),
        now <= MAX_NANOS,
    ensures
        ({
            let k = key_of(ip);
            let known = before.clients().dom().contains(k);
            let tat = before.clients()[k];
            &&& r <==> !known || tat <= now + before.credit()
            &&& r ==> after.clients().dom().contains(k)
            &&& r && (!known || tat <= now) ==> after.clients()[k] == now + before.cost()
            &&& r && known && tat > now ==> after.clients()[k] == tat + before.cost()
            &&& !r ==> after.clients() == before.clients()
            &&& other != ip ==> after.clients().dom().contains(key_of(other))
                == before.clients().dom().contains(key_of(other))
            &&& other != ip && before.clients().dom().contains(key_of(other))
                ==> after.clients()[key_of(other)] == before.clients()[key_of(other)]
            &&& r && before.allowed() < u64::MAX ==> after.allowed() == before.allowed() + 1
            &&& r && before.allowed() == u64::MAX ==> after.allowed() == 0
            &&& !r && before.rejected() == u64::MAX ==> after.rejected() == 0
            &&& r ==> after.rejected() == before.rejected()
            &&& !r && before.rejected() < u64::MAX ==> after.rejected() == before.rejected() + 1
            &&& !r ==> after.allowed() == before.allowed()
        }),
{
    law_one_bucket_per_client(ip, other);
    vstd::arithmetic::div_mod::lemma_div_is_ordered_by_denominator(
        before.limit().window.nanos as int,
        1,
        (if before.limit().rate == 0 {
            1
        } else {
            before.limit().rate as int
        }),
    );
    if before.clients().dom().contains(key_of(ip)) {
        assert(before.clients()[key_of(ip)] <= 3 * MAX_NANOS);
    }
}

/// What a cleanup does: a bucket goes exactly where its time was as long ago as the idle time and
/// the window, or longer; every other stays as it was, and none comes.
pub proof fn law_cleanup(
    before: RateLimiter,
    after: RateLimiter,
    max_idle: Span,
    now: u128,
    k: (u8, u128),
)
    requires
        RateLimiter::cleaned(&before, &after, max_idle, now),
        max_idle.nanos + before.limit().window.nanos <= MAX_NANOS,
        max_idle.nanos + before.limit().window.nanos > 0,
    ensures
        after.clients().dom().contains(k) <==> before.clients().dom().contains(k) && now
            < before.clients()[k] + max_idle.nanos + before.limit().window.nanos,
        after.clients().dom().contains(k) ==> after.clients()[k] == before.clients()[k],
{
}

} // verus!
