//! Settings of the upstream client.

use crate::span::Span;
use vstd::prelude::*;

verus! {

/// What can be chosen of a client.
#[derive(Clone, Copy, Debug)]
pub struct ClientOptions {
    pub connect_timeout: Span,
    pub pool_max_idle_per_host: usize,
    pub http2: bool,
}

/// How long a pooled connection may be idle.
pub const POOL_IDLE_SECS: u64 = 60;

/// How long a connection may be silent before it is probed.
pub const KEEPALIVE_SECS: u64 = 30;

/// How long an HTTP/2 probe may take.
pub const HTTP2_PROBE_SECS: u64 = 10;

/// The fewest idle connections per host that a pool is made for.
pub const MIN_POOL_IDLE: usize = 4;

impl ClientOptions {
    /// How many idle connections per host the pool is made for.
    pub fn pool_size(&self) -> (r: usize)
        ensures
            r == (if self.pool_max_idle_per_host >= MIN_POOL_IDLE {
                self.pool_max_idle_per_host
            } else {
                MIN_POOL_IDLE
            }),
            r >= 4,
            self.pool_max_idle_per_host >= 4 ==> r == self.pool_max_idle_per_host,
            self.pool_max_idle_per_host < 4 ==> r == 4,
    {
        if self.pool_max_idle_per_host >= MIN_POOL_IDLE {
            self.pool_max_idle_per_host
        } else {
            MIN_POOL_IDLE
        }
    }
}

} // verus!
