//! The configuration of the proxy and its defaults.

use crate::addr::{IpAddr, Ipv4Addr, SocketAddr};
use crate::span::Span;
use crate::text;
use vstd::prelude::*;

pub mod validator;

verus! {

/// The whole configuration.
#[derive(Clone, Debug)]
pub struct Config {
    pub listen: SocketAddr,
    pub metrics_listen: SocketAddr,
    /// Default upstream pool (used when no route matches, or as sole pool).
    pub upstreams: Vec<Upstream>,
    /// Path-based routes. First match wins (longest prefix recommended first).
    pub routes: Vec<RouteConfig>,
    pub load_balancing: LoadBalancingAlgorithm,
    pub health_check: HealthCheckConfig,
    pub timeouts: TimeoutConfig,
    pub tls: Option<TlsConfig>,
    /// Retries after a failed attempt to reach an upstream.
    pub retries: u32,
    /// Most concurrent requests in flight (0 = unlimited).
    pub max_connections: usize,
    /// Cookie affinity.
    pub sticky: Option<StickyConfig>,
    pub headers: HeaderConfig,
    pub access_log: bool,
    pub rate_limit: Option<RateLimitConfigYaml>,
    /// Expect PROXY protocol v1/v2 on inbound connections.
    pub proxy_protocol: bool,
    pub upstream_http2: bool,
    pub pool_max_idle_per_host: usize,
    /// Largest request body in bytes.
    pub max_body_bytes: usize,
    /// Retry only idempotent methods, or requests without a body.
    pub retry_idempotent_only: bool,
    /// Retry whatever the method and the body are.
    pub force_retry_with_body: bool,
    /// IP lists; deny wins where both match.
    pub acl: Option<AclConfig>,
    pub security_headers: bool,
    /// Bearer token for the admin pages (none or empty = open).
    pub admin_token: Option<String>,
    /// The sources that may send PROXY headers.
    pub proxy_protocol_trusted_cidrs: Vec<String>,
}

/// IP allow and deny lists.
#[derive(Clone, Debug)]
pub struct AclConfig {
    /// CIDRs or single IPs allowed (empty = allow all unless deny matches).
    pub allow: Vec<String>,
    /// CIDRs or single IPs denied.
    pub deny: Vec<String>,
}

impl Default for AclConfig {
    fn default() -> (r: Self)
        ensures
            r.allow@.len() == 0,
            r.deny@.len() == 0,
    {
        AclConfig { allow: Vec::new(), deny: Vec::new() }
    }
}

/// Per-client rate limit.
#[derive(Clone, Copy, Debug)]
pub struct RateLimitConfigYaml {
    /// Requests per second per client IP.
    pub rps: u32,
    /// Burst multiplier, as the bits of an IEEE 754 double.
    pub burst_bits: u64,
}

/// A path prefix with its own upstream pool.
#[derive(Clone, Debug)]
pub struct RouteConfig {
    /// Path prefix to match; empty or `/` matches everything.
    pub path_prefix: String,
    pub upstreams: Vec<Upstream>,
    /// The algorithm of this pool, where it differs from the global one.
    pub load_balancing: Option<LoadBalancingAlgorithm>,
}

/// Paths of the certificate chain and the private key.
#[derive(Clone, Debug)]
pub struct TlsConfig {
    pub cert: String,
    pub key: String,
}

/// A backend server.
#[derive(Clone, Debug)]
pub struct Upstream {
    pub address: String,
    pub weight: u32,
}

/// How an upstream is chosen among the healthy ones.
#[derive(Clone, Copy, Debug, PartialEq, Eq, Structural)]
pub enum LoadBalancingAlgorithm {
    RoundRobin,
    WeightedRoundRobin,
    LeastConnections,
    PowerOfTwoChoices,
}

impl Default for LoadBalancingAlgorithm {
    fn default() -> (r: Self)
        ensures
            r == LoadBalancingAlgorithm::RoundRobin,
    {
        LoadBalancingAlgorithm::RoundRobin
    }
}

/// Cookie affinity.
#[derive(Clone, Debug)]
pub struct StickyConfig {
    pub cookie_name: String,
    pub max_age_secs: u64,
}

impl Default for StickyConfig {
    fn default() -> (r: Self)
        ensures
            r.cookie_name@ == "OXIGATE"@,
            r.max_age_secs == 3600,
    {
        StickyConfig { cookie_name: default_cookie_name(), max_age_secs: default_cookie_max_age() }
    }
}

/// Headers to inject, as lists of a name and a value in which no name occurs twice.
#[derive(Clone, Debug)]
pub struct HeaderConfig {
    /// Headers added to every proxied request.
    pub request_set: Vec<(String, String)>,
    /// Headers set on every response.
    pub response_set: Vec<(String, String)>,
}

/// Whether no name occurs twice in a header list.
pub open spec fn distinct_names(list: Seq<(String, String)>) -> bool {
    forall|i: int, j: int|
        0 <= i < j < list.len() ==> (#[trigger] list[i]).0@ != (#[trigger] list[j]).0@
}

impl HeaderConfig {
    /// No name occurs twice in either list.
    pub open spec fn wf(&self) -> bool {
        distinct_names(self.request_set@) && distinct_names(self.response_set@)
    }
}

impl Default for HeaderConfig {
    fn default() -> (r: Self)
        ensures
            r.wf(),
            r.request_set@.len() == 0,
            r.response_set@.len() == 0,
    {
        HeaderConfig { request_set: Vec::new(), response_set: Vec::new() }
    }
}

/// The value that a header list gives a name.
pub open spec fn set_value(list: Seq<(String, String)>, name: Seq<char>) -> Option<Seq<char>>
    decreases list.len(),
{
    if list.len() == 0 {
        None
    } else if list.last().0@ == name {
        Some(list.last().1@)
    } else {
        set_value(list.drop_last(), name)
    }
}

/// Sets a name in a header list, in place of the value that it had.
pub fn set_header(list: &mut Vec<(String, String)>, name: String, value: String)
    requires
        distinct_names(old(list)@),
    ensures
        distinct_names(final(list)@),
        set_value(final(list)@, name@) == Some(value@),
        forall|n: Seq<char>|
            n != name@ ==> #[trigger] set_value(final(list)@, n) == set_value(old(list)@, n),
{
    let mut i: usize = 0;
    let n: usize = list.len();
    while i < n
        invariant
            n == list@.len(),
            list@ == old(list)@,
            distinct_names(list@),
            i <= n,
            forall|j: int| 0 <= j < i ==> (#[trigger] list@[j]).0@ != name@,
        decreases n - i,
    {
        if text::same_str(list[i].0.as_str(), name.as_str()) {
            let ghost k = i as int;
            list.set(i, (name, value));
            proof {
                lemma_set_value_update(old(list)@, k, (name, value));
            }
            return;
        }
        i = i + 1;
    }
    list.push((name, value));
    proof {
        assert(list@.drop_last() =~= old(list)@);
    }
}

proof fn lemma_set_value_update(list: Seq<(String, String)>, k: int, e: (String, String))
    requires
        0 <= k < list.len(),
        list[k].0@ == e.0@,
        distinct_names(list),
    ensures
        set_value(list.update(k, e), e.0@) == Some(e.1@),
        forall|n: Seq<char>|
            n != e.0@ ==> #[trigger] set_value(list.update(k, e), n) == set_value(list, n),
    decreases list.len(),
{
    let u = list.update(k, e);
    if k == list.len() - 1 {
        assert(u.drop_last() =~= list.drop_last());
        assert(u.last() == e && list.last() == list[k]);
    } else {
        assert(u.drop_last() =~= list.drop_last().update(k, e));
        assert(list.drop_last()[k] == list[k]);
        assert(distinct_names(list.drop_last()));
        lemma_set_value_update(list.drop_last(), k, e);
        assert(list.last().0@ != e.0@) by {
            assert(list[k].0@ != list[list.len() - 1].0@);
        }
        assert(u.last() == list.last());
        assert forall|n: Seq<char>| n != e.0@ implies #[trigger] set_value(u, n) == set_value(
            list,
            n,
        ) by {
            assert(set_value(u.drop_last(), n) == set_value(list.drop_last(), n));
        }
    }
}

/// Active health checks.
#[derive(Clone, Debug)]
pub struct HealthCheckConfig {
    pub interval_secs: u64,
    pub timeout_secs: u64,
    pub path: String,
    pub unhealthy_threshold: u32,
    pub healthy_threshold: u32,
}

impl Default for HealthCheckConfig {
    fn default() -> (r: Self)
        ensures
            r.interval_secs == 5,
            r.timeout_secs == 2,
            r.path@ == "/"@,
            r.unhealthy_threshold == 3,
            r.healthy_threshold == 2,
    {
        HealthCheckConfig {
            interval_secs: default_health_interval(),
            timeout_secs: default_health_timeout(),
            path: default_health_path(),
            unhealthy_threshold: default_unhealthy_threshold(),
            healthy_threshold: default_healthy_threshold(),
        }
    }
}

/// Timeouts in seconds.
#[derive(Clone, Debug)]
pub struct TimeoutConfig {
    pub connect_secs: u64,
    pub request_secs: u64,
    pub idle_secs: u64,
}

impl Default for TimeoutConfig {
    fn default() -> (r: Self)
        ensures
            r.connect_secs == 5,
            r.request_secs == 30,
            r.idle_secs == 60,
    {
        TimeoutConfig {
            connect_secs: default_connect_timeout(),
            request_secs: default_request_timeout(),
            idle_secs: default_idle_timeout(),
        }
    }
}

/// 16 MiB.
pub fn default_max_body() -> (r: usize)
    ensures
        r == 16 * 1024 * 1024,
{
    16 * 1024 * 1024
}

pub fn default_pool_max_idle() -> (r: usize)
    ensures
        r == 64,
{
    64
}

/// The bits of 1.5.
pub fn default_burst() -> (r: u64)
    ensures
        r == 0x3FF8_0000_0000_0000,
{
    0x3FF8_0000_0000_0000
}

/// Port 9090 on every IPv4 interface.
pub fn default_metrics_listen() -> (r: SocketAddr)
    ensures
        r.ip == IpAddr::V4(Ipv4Addr { bits: 0 }),
        r.port == 9090,
{
    SocketAddr::new(IpAddr::V4(Ipv4Addr { bits: 0 }), 9090)
}

pub fn default_retries() -> (r: u32)
    ensures
        r == 1,
{
    1
}

pub fn default_true() -> (r: bool)
    ensures
        r,
{
    true
}

pub fn default_weight() -> (r: u32)
    ensures
        r == 1,
{
    1
}

pub fn default_cookie_name() -> (r: String)
    ensures
        r@ == "OXIGATE"@,
{
    "OXIGATE".to_owned()
}

pub fn default_cookie_max_age() -> (r: u64)
    ensures
        r == 3600,
{
    3600
}

pub fn default_health_interval() -> (r: u64)
    ensures
        r == 5,
{
    5
}

pub fn default_health_timeout() -> (r: u64)
    ensures
        r == 2,
{
    2
}

pub fn default_health_path() -> (r: String)
    ensures
        r@ == "/"@,
{
    "/".to_owned()
}

pub fn default_unhealthy_threshold() -> (r: u32)
    ensures
        r == 3,
{
    3
}

pub fn default_healthy_threshold() -> (r: u32)
    ensures
        r == 2,
{
    2
}

pub fn default_connect_timeout() -> (r: u64)
    ensures
        r == 5,
{
    5
}

pub fn default_request_timeout() -> (r: u64)
    ensures
        r == 30,
{
    30
}

pub fn default_idle_timeout() -> (r: u64)
    ensures
        r == 60,
{
    60
}

impl Config {
    /// How long connecting to an upstream may take.
    pub fn connect_timeout(&self) -> (r: Span)
        ensures
            r.wf(),
            r.nanos == self.timeouts.connect_secs * crate::span::NANOS_PER_SEC,
    {
        Span::from_secs(self.timeouts.connect_secs)
    }

    /// How long the head of an upstream response may take.
    pub fn request_timeout(&self) -> (r: Span)
        ensures
            r.wf(),
            r.nanos == self.timeouts.request_secs * crate::span::NANOS_PER_SEC,
    {
        Span::from_secs(self.timeouts.request_secs)
    }

    /// How long to wait between two rounds of health checks.
    pub fn health_interval(&self) -> (r: Span)
        ensures
            r.wf(),
            r.nanos == self.health_check.interval_secs * crate::span::NANOS_PER_SEC,
    {
        Span::from_secs(self.health_check.interval_secs)
    }
}

/// The value that a header list gives a name is the one that stands last beside it; a name that
/// does not stand there has none.
pub proof fn law_set_value(list: Seq<(String, String)>, name: Seq<char>, k: int)
    ensures
        0 <= k < list.len() && list[k].0@ == name && (forall|j: int|
            k < j < list.len() ==> (#[trigger] list[j]).0@ != name) ==> set_value(list, name)
            == Some(list[k].1@),
        (forall|j: int| 0 <= j < list.len() ==> (#[trigger] list[j]).0@ != name) ==> set_value(
            list,
            name,
        ) is None,
    decreases list.len(),
{
    if list.len() > 0 {
        let p = list.drop_last();
        law_set_value(p, name, k);
        assert(forall|j: int| 0 <= j < p.len() ==> #[trigger] p[j] == list[j]);
        assert(list.last() == list[list.len() - 1]);
    }
}

/// In a list in which no name occurs twice, a name stands at one place at most.
pub proof fn law_distinct_names(list: Seq<(String, String)>, i: int, j: int)
    requires
        distinct_names(list),
        0 <= i < list.len(),
        0 <= j < list.len(),
    ensures
        list[i].0@ == list[j].0@ ==> i == j,
        set_value(list, list[i].0@) == Some(list[i].1@),
{
    law_set_value(list, list[i].0@, i);
}

} // verus!
