//! The decisions of the server: limits, lifetimes, and what a connection goes by.

use crate::addr::{IpAddr, SocketAddr};
use crate::config::{Config, HeaderConfig, StickyConfig};
use crate::proxy::client::ClientOptions;
use crate::proxy::handler::ProxyContext;
use crate::proxy_protocol::ProxyHeader;
use crate::ratelimit::RateLimitConfig;
use crate::security;
use crate::security::{Acl, CidrError};
use crate::span;
use crate::span::Span;
use crate::state::AppState;
use vstd::prelude::*;

verus! {

/// The most connections where neither limit is configured.
pub const DEFAULT_MAX_CONNECTIONS: usize = 10000;

/// The bounds of the server.
#[derive(Clone, Copy, Debug, PartialEq, Eq, Structural)]
pub struct Limits {
    pub max_conn: usize,
    /// How many accepted connections may wait.
    pub channel_cap: usize,
    /// How many connections are served at a time.
    pub conn_limit: usize,
    /// How many buffers are pooled.
    pub pool_size: usize,
}

/// The most connections: as configured, or else as the concurrency says.
pub open spec fn most_connections(max_connections: usize, max_concurrency: Option<usize>) -> usize {
    if max_connections > 0 {
        max_connections
    } else {
        match max_concurrency {
            Some(n) => n,
            None => DEFAULT_MAX_CONNECTIONS,
        }
    }
}

/// A number brought between two bounds.
pub open spec fn between(n: int, low: int, high: int) -> int {
    if n < low {
        low
    } else if n > high {
        high
    } else {
        n
    }
}

/// The bounds of the server: at least 256 connections may wait, at least 64 are served at a time,
/// and two buffers per connection are pooled, between 256 and 16384.
pub fn limits(max_connections: usize, max_concurrency: Option<usize>) -> (r: Limits)
    requires
        most_connections(max_connections, max_concurrency) * 2 <= usize::MAX,
    ensures
        r.max_conn == most_connections(max_connections, max_concurrency),
        r.channel_cap == (if r.max_conn < 256 {
            256
        } else {
            r.max_conn
        }),
        r.conn_limit == (if r.max_conn < 64 {
            64
        } else {
            r.max_conn
        }),
        r.pool_size == between(r.max_conn * 2, 256, 16384),
{
    let max_conn: usize = if max_connections > 0 {
        max_connections
    } else {
        match max_concurrency {
            Some(n) => n,
            None => DEFAULT_MAX_CONNECTIONS,
        }
    };
    let twice: usize = max_conn * 2;
    Limits {
        max_conn,
        channel_cap: if max_conn < 256 {
            256
        } else {
            max_conn
        },
        conn_limit: if max_conn < 64 {
            64
        } else {
            max_conn
        },
        pool_size: if twice < 256 {
            256
        } else if twice > 16384 {
            16384
        } else {
            twice
        },
    }
}

/// How many requests may be in flight, where that is limited.
pub fn request_limit(max_connections: usize) -> (r: Option<usize>)
    ensures
        r == (if max_connections > 0 {
            Some(max_connections)
        } else {
            None
        }),
{
    if max_connections > 0 {
        Some(max_connections)
    } else {
        None
    }
}

/// The idle timeout of a connection: at least a second.
pub open spec fn idle_of(idle_secs: u64) -> int {
    (if idle_secs == 0 {
        1
    } else {
        idle_secs as int
    }) * span::NANOS_PER_SEC
}

/// The idle timeout of a connection.
pub fn idle_timeout(idle_secs: u64) -> (r: Span)
    ensures
        r.wf(),
        r.nanos == idle_of(idle_secs),
{
    Span::from_secs(
        if idle_secs == 0 {
            1
        } else {
            idle_secs
        },
    )
}

/// A length of time times a number, or the longest one.
pub open spec fn times(nanos: int, k: int) -> int {
    if nanos * k <= span::MAX_NANOS {
        nanos * k
    } else {
        span::MAX_NANOS as int
    }
}

/// How long a connection may live: ten idle timeouts or two request timeouts, whichever is longer.
pub fn connection_lifetime(idle: Span, request_timeout: Span) -> (r: Span)
    requires
        idle.wf(),
        request_timeout.wf(),
    ensures
        r.wf(),
        r.nanos == (if times(idle.nanos as int, 10) >= times(request_timeout.nanos as int, 2) {
            times(idle.nanos as int, 10)
        } else {
            times(request_timeout.nanos as int, 2)
        }),
{
    idle.saturating_mul(10).longer(request_timeout.saturating_mul(2))
}

/// Whether a connection may be served: where PROXY headers are read and the sources are listed,
/// the connection has to come from one of them.
pub fn source_trusted(
    proxy_protocol: bool,
    trusted: &Option<Acl>,
    remote: IpAddr,
) -> (r: bool)
    ensures
        r == (proxy_protocol ==> (trusted matches Some(acl) ==> security::passes(
            acl.allowed(),
            acl.denied(),
            remote,
        ))),
{
    if !proxy_protocol {
        return true;
    }
    match trusted {
        Some(acl) => acl.is_allowed(remote),
        None => true,
    }
}

/// The address of the client: what a PROXY header says, or else where the connection comes from.
pub fn client_address(header: Option<ProxyHeader>, remote: SocketAddr) -> (r: SocketAddr)
    ensures
        r == (match header {
            Some(h) => h.src,
            None => remote,
        }),
{
    match header {
        Some(h) => h.src,
        None => remote,
    }
}

/// The sources that may send PROXY headers, where they are read and the sources are listed.
pub fn trusted_sources(config: &Config) -> (r: Result<Option<Acl>, CidrError>)
    ensures
        if config.proxy_protocol && config.proxy_protocol_trusted_cidrs@.len() > 0 {
            match security::cidrs(config.proxy_protocol_trusted_cidrs@) {
                Ok(nets) => r matches Ok(Some(acl)) && acl.allowed() == nets
                    && acl.denied().len() == 0,
                Err(e) => r matches Err(f) && f == e,
            }
        } else {
            r matches Ok(None)
        },
{
    if config.proxy_protocol && config.proxy_protocol_trusted_cidrs.len() > 0 {
        let none: [String; 0] = [];
        assert(none@ =~= Seq::empty());
        match Acl::from_config(config.proxy_protocol_trusted_cidrs.as_slice(), &none) {
            Ok(acl) => Ok(Some(acl)),
            Err(e) => Err(e),
        }
    } else {
        Ok(None)
    }
}

/// The address lists of a configuration, where there are some that can be read.
pub fn configured_acl(config: &Config) -> (r: Option<Acl>)
    ensures
        match config.acl {
            Some(a) => match (security::cidrs(a.allow@), security::cidrs(a.deny@)) {
                (Ok(allow), Ok(deny)) => r matches Some(acl) && acl.allowed() == allow
                    && acl.denied() == deny,
                _ => r is None,
            },
            None => r is None,
        },
{
    match &config.acl {
        Some(a) => match Acl::from_config(a.allow.as_slice(), a.deny.as_slice()) {
            Ok(acl) => Some(acl),
            Err(_) => None,
        },
        None => None,
    }
}

/// The rate limit of a configuration: per second, as configured.
pub fn configured_limit(config: &Config) -> (r: Option<RateLimitConfig>)
    ensures
        match config.rate_limit {
            Some(rl) => r matches Some(c) && c.rate == rl.rps && c.window.nanos == 1000000000
                && c.burst_bits == rl.burst_bits,
            None => r is None,
        },
{
    match &config.rate_limit {
        Some(rl) => Some(
            RateLimitConfig {
                rate: rl.rps,
                window: Span::from_secs(1),
                burst_bits: rl.burst_bits,
            },
        ),
        None => None,
    }
}

/// The options of the upstream client.
pub fn client_options(config: &Config) -> (r: ClientOptions)
    ensures
        r.connect_timeout.wf(),
        r.connect_timeout.nanos == config.timeouts.connect_secs * span::NANOS_PER_SEC,
        r.pool_max_idle_per_host == config.pool_max_idle_per_host,
        r.http2 == config.upstream_http2,
{
    ClientOptions {
        connect_timeout: config.connect_timeout(),
        pool_max_idle_per_host: config.pool_max_idle_per_host,
        http2: config.upstream_http2,
    }
}

/// Whether two header lists say the same.
pub open spec fn same_list(a: Seq<(String, String)>, b: Seq<(String, String)>) -> bool {
    a.len() == b.len() && forall|i: int|
        0 <= i < a.len() ==> (#[trigger] a[i]).0@ == b[i].0@ && a[i].1@ == b[i].1@
}

fn copy_list(list: &Vec<(String, String)>) -> (r: Vec<(String, String)>)
    ensures
        same_list(r@, list@),
{
    let mut out: Vec<(String, String)> = Vec::new();
    let n: usize = list.len();
    let mut i: usize = 0;
    while i < n
        invariant
            n == list@.len(),
            i <= n,
            same_list(out@, list@.take(i as int)),
        decreases n - i,
    {
        let ghost before = out@;
        out.push((list[i].0.clone(), list[i].1.clone()));
        proof {
            let t = list@.take(i as int + 1);
            assert forall|j: int| 0 <= j < out@.len() implies (#[trigger] out@[j]).0@ == t[j].0@
                && out@[j].1@ == t[j].1@ by {
                if j < i {
                    assert(out@[j] == before[j]);
                    assert(list@.take(i as int)[j] == t[j]);
                }
            }
        }
        i = i + 1;
    }
    assert(list@.take(n as int) =~= list@);
    out
}

fn copy_sticky(sticky: &Option<StickyConfig>) -> (r: Option<StickyConfig>)
    ensures
        match *sticky {
            Some(s) => r matches Some(t) && t.cookie_name@ == s.cookie_name@ && t.max_age_secs
                == s.max_age_secs,
            None => r is None,
        },
{
    match sticky {
        Some(s) => Some(
            StickyConfig { cookie_name: s.cookie_name.clone(), max_age_secs: s.max_age_secs },
        ),
        None => None,
    }
}

/// What the requests of a connection go by.
pub fn connection_context(config: &Config, client_is_tls: bool) -> (r: ProxyContext)
    ensures
        r.retries == config.retries,
        r.request_timeout.wf(),
        r.request_timeout.nanos == config.timeouts.request_secs * span::NANOS_PER_SEC,
        match config.sticky {
            Some(s) => r.sticky matches Some(t) && t.cookie_name@ == s.cookie_name@
                && t.max_age_secs == s.max_age_secs,
            None => r.sticky is None,
        },
        same_list(r.headers.request_set@, config.headers.request_set@),
        same_list(r.headers.response_set@, config.headers.response_set@),
        r.access_log == config.access_log,
        r.max_body_bytes == config.max_body_bytes,
        r.retry_idempotent_only == config.retry_idempotent_only,
        r.force_retry_with_body == config.force_retry_with_body,
        match config.acl {
            Some(a) => match (security::cidrs(a.allow@), security::cidrs(a.deny@)) {
                (Ok(allow), Ok(deny)) => r.acl matches Some(acl) && acl.allowed() == allow
                    && acl.denied() == deny,
                _ => r.acl is None,
            },
            None => r.acl is None,
        },
        r.security_headers == config.security_headers,
        r.client_is_tls == client_is_tls,
        r.idle_timeout.wf(),
        r.idle_timeout.nanos == idle_of(config.timeouts.idle_secs),
{
    ProxyContext {
        retries: config.retries,
        request_timeout: config.request_timeout(),
        sticky: copy_sticky(&config.sticky),
        headers: HeaderConfig {
            request_set: copy_list(&config.headers.request_set),
            response_set: copy_list(&config.headers.response_set),
        },
        access_log: config.access_log,
        max_body_bytes: config.max_body_bytes,
        retry_idempotent_only: config.retry_idempotent_only,
        force_retry_with_body: config.force_retry_with_body,
        acl: configured_acl(config),
        security_headers: config.security_headers,
        client_is_tls,
        idle_timeout: idle_timeout(config.timeouts.idle_secs),
    }
}

/// Takes a new configuration into use, if one was loaded and everything that runs by it could be
/// built; otherwise the old one stays.
pub fn reload(state: &mut AppState, loaded: Option<Config>, built: bool) -> (r: bool)
    ensures
        r == (loaded is Some && built),
        final(state).current() == (if r {
            loaded->0
        } else {
            old(state).current()
        }),
{
    match loaded {
        Some(config) => {
            if built {
                state.swap_config(config);
                return true;
            }
        },
        None => {},
    }
    false
}

/// What the accept loop met.
#[derive(Clone, Copy, Debug, PartialEq, Eq, Structural)]
pub enum AcceptEvent {
    /// The shutdown signal changed, to the given value.
    Signal(bool),
    /// Accepting failed.
    Error,
    /// A connection was handed on.
    Queued,
    /// A connection could not be handed on: as many as allowed are waiting.
    QueueFull,
    /// A connection could not be handed on: nobody takes it.
    QueueClosed,
}

/// What the accept loop does.
#[derive(Clone, Copy, Debug, PartialEq, Eq, Structural)]
pub enum AcceptAction {
    Continue,
    /// Drop the connection, and count that.
    Shed,
    /// Stop, after the connections that run had time to end.
    Drain,
    Stop,
}

/// What the accept loop does next.
pub fn accept_step(event: AcceptEvent) -> (r: AcceptAction)
    ensures
        r == (match event {
            AcceptEvent::Signal(stop) => if stop {
                AcceptAction::Drain
            } else {
                AcceptAction::Continue
            },
            AcceptEvent::Error | AcceptEvent::Queued => AcceptAction::Continue,
            AcceptEvent::QueueFull => AcceptAction::Shed,
            AcceptEvent::QueueClosed => AcceptAction::Stop,
        }),
{
    match event {
        AcceptEvent::Signal(stop) => if stop {
            AcceptAction::Drain
        } else {
            AcceptAction::Continue
        },
        AcceptEvent::Error | AcceptEvent::Queued => AcceptAction::Continue,
        AcceptEvent::QueueFull => AcceptAction::Shed,
        AcceptEvent::QueueClosed => AcceptAction::Stop,
    }
}

/// How long the connections that run may take to end, in seconds.
pub const DRAIN_SECS: u64 = 5;

/// What the dispatcher met.
#[derive(Clone, Copy, Debug, PartialEq, Eq, Structural)]
pub enum DispatchEvent {
    /// The shutdown signal changed, to the given value.
    Signal(bool),
    /// No connection will come any more.
    Closed,
    /// A connection came, and there is a permit to serve it, or not.
    Connection { permit: bool },
}

/// What the dispatcher does.
#[derive(Clone, Copy, Debug, PartialEq, Eq, Structural)]
pub enum DispatchAction {
    Continue,
    Stop,
    Serve,
    /// Drop the connection, and count that.
    Shed,
}

/// What the dispatcher does next.
pub fn dispatch_step(event: DispatchEvent) -> (r: DispatchAction)
    ensures
        r == (match event {
            DispatchEvent::Signal(stop) => if stop {
                DispatchAction::Stop
            } else {
                DispatchAction::Continue
            },
            DispatchEvent::Closed => DispatchAction::Stop,
            DispatchEvent::Connection { permit } => if permit {
                DispatchAction::Serve
            } else {
                DispatchAction::Shed
            },
        }),
{
    match event {
        DispatchEvent::Signal(stop) => if stop {
            DispatchAction::Stop
        } else {
            DispatchAction::Continue
        },
        DispatchEvent::Closed => DispatchAction::Stop,
        DispatchEvent::Connection { permit } => if permit {
            DispatchAction::Serve
        } else {
            DispatchAction::Shed
        },
    }
}

/// The most connections are the configured ones; where none are, as many as the concurrency says;
/// and where that says nothing, ten thousand.
pub proof fn law_most_connections(max_connections: usize, max_concurrency: Option<usize>)
    ensures
        max_connections > 0 ==> most_connections(max_connections, max_concurrency)
            == max_connections,
        max_connections == 0 && max_concurrency is Some ==> most_connections(
            max_connections,
            max_concurrency,
        ) == max_concurrency->0,
        max_connections == 0 && max_concurrency is None ==> most_connections(
            max_connections,
            max_concurrency,
        ) == 10000,
{
}

/// A number between two bounds stays as it is, and any other becomes the bound that it is beyond.
pub proof fn law_between(n: int, low: int, high: int)
    requires
        low <= high,
    ensures
        low <= between(n, low, high) <= high,
        low <= n <= high ==> between(n, low, high) == n,
        n <= low ==> between(n, low, high) == low,
        n >= high ==> between(n, low, high) == high,
{
}

/// An idle timeout is the configured number of seconds, and a second where none is configured.
pub proof fn law_idle_of(idle_secs: u64)
    ensures
        idle_secs > 0 ==> idle_of(idle_secs) == idle_secs * 1000000000,
        idle_secs == 0 ==> idle_of(idle_secs) == 1000000000,
{
}

/// A multiple of a length of time is that multiple, as long as it is a length of time, and the
/// longest one otherwise.
pub proof fn law_times(nanos: int, k: int)
    ensures
        times(nanos, k) <= 18446744073709551615999999999,
        nanos * k <= 18446744073709551615999999999 ==> times(nanos, k) == nanos * k,
        nanos * k >= 18446744073709551615999999999 ==> times(nanos, k)
            == 18446744073709551615999999999,
{
}

/// Header lists that say the same have the same names and values at the same places.
pub proof fn law_same_list(a: Seq<(String, String)>, b: Seq<(String, String)>, i: int)
    requires
        same_list(a, b),
        0 <= i < a.len(),
    ensures
        a.len() == b.len(),
        a[i].0@ == b[i].0@,
        a[i].1@ == b[i].1@,
{
}

/// The bounds of the server, whatever is configured: no connection that is served has to wait for
/// room, small limits are raised, and the buffers are two for each connection within their bounds.
pub proof fn law_limits(max_connections: usize, max_concurrency: Option<usize>, r: Limits)
    requires
        call_ensures(limits, (max_connections, max_concurrency), r),
    ensures
        max_connections > 0 ==> r.max_conn == max_connections,
        r.channel_cap >= r.max_conn && r.conn_limit >= r.max_conn,
        r.channel_cap >= 256 && (r.channel_cap == 256 || r.channel_cap == r.max_conn),
        r.conn_limit >= 64 && (r.conn_limit == 64 || r.conn_limit == r.max_conn),
        256 <= r.pool_size <= 16384,
        128 <= r.max_conn <= 8192 ==> r.pool_size == 2 * r.max_conn,
        r.max_conn <= 128 ==> r.pool_size == 256,
        r.max_conn >= 8192 ==> r.pool_size == 16384,
{
}

/// Requests in flight are limited exactly where a number is configured, and to that number.
pub proof fn law_request_limit(max_connections: usize, r: Option<usize>)
    requires
        call_ensures(request_limit, (max_connections,), r),
    ensures
        r is None <==> max_connections == 0,
        r matches Some(n) ==> n == max_connections,
{
}

/// A connection lives for at least ten idle timeouts and two request timeouts, and no longer than
/// one of the two. (Neither is beyond the longest length of time.)
pub proof fn law_connection_lifetime(idle: Span, request_timeout: Span, r: Span)
    requires
        call_ensures(connection_lifetime, (idle, request_timeout), r),
        idle.nanos * 10 <= 18446744073709551615999999999,
        request_timeout.nanos * 2 <= 18446744073709551615999999999,
    ensures
        r.nanos >= idle.nanos * 10,
        r.nanos >= request_timeout.nanos * 2,
        r.nanos == idle.nanos * 10 || r.nanos == request_timeout.nanos * 2,
{
}

/// Which connections are served: all of them where no PROXY header is read or no source is listed;
/// otherwise those that the list of sources lets pass.
pub proof fn law_source_trusted(proxy_protocol: bool, trusted: Option<Acl>, remote: IpAddr, r: bool)
    requires
        call_ensures(source_trusted, (proxy_protocol, &trusted, remote), r),
    ensures
        !proxy_protocol || trusted is None ==> r,
        proxy_protocol && trusted is Some ==> r == security::passes(
            (trusted->0).allowed(),
            (trusted->0).denied(),
            remote,
        ),
{
}

/// The client is who the PROXY header says, and without one who the connection comes from.
pub proof fn law_client_address(header: Option<ProxyHeader>, remote: SocketAddr, r: SocketAddr)
    requires
        call_ensures(client_address, (header, remote), r),
    ensures
        header is None ==> r == remote,
        header matches Some(h) ==> r == h.src,
{
}

/// The accept loop goes on after everything but a signal to stop, after which it drains, and a
/// closed queue. It drops a connection exactly where the queue is full.
pub proof fn law_accept_step(event: AcceptEvent, r: AcceptAction)
    requires
        call_ensures(accept_step, (event,), r),
    ensures
        r == AcceptAction::Drain <==> event == AcceptEvent::Signal(true),
        r == AcceptAction::Shed <==> event == AcceptEvent::QueueFull,
        r == AcceptAction::Stop <==> event == AcceptEvent::QueueClosed,
        r == AcceptAction::Continue <==> event == AcceptEvent::Signal(false) || event
            == AcceptEvent::Error || event == AcceptEvent::Queued,
{
}

/// The dispatcher serves a connection exactly where there is a permit, and drops it otherwise. It
/// stops at a signal to stop, and where no connection will come any more.
pub proof fn law_dispatch_step(event: DispatchEvent, r: DispatchAction)
    requires
        call_ensures(dispatch_step, (event,), r),
    ensures
        r == DispatchAction::Serve <==> event == (DispatchEvent::Connection { permit: true }),
        r == DispatchAction::Shed <==> event == (DispatchEvent::Connection { permit: false }),
        r == DispatchAction::Stop <==> event == DispatchEvent::Signal(true) || event
            == DispatchEvent::Closed,
        r == DispatchAction::Continue <==> event == DispatchEvent::Signal(false),
{
}

} // verus!
