//! The decision core of an L7 reverse proxy and load balancer: configuration, routing, load
//! balancing, rate limiting, address lists, PROXY headers, and what becomes of a request.

pub mod addr;
pub mod backend;
pub mod config;
pub mod dashboard;
pub mod headers;
pub mod health;
pub mod lb;
pub mod middleware;
pub mod pool;
pub mod proxy;
pub mod proxy_protocol;
pub mod ratelimit;
pub mod router;
pub mod security;
pub mod server;
pub mod span;
pub mod state;
pub mod text;
pub mod tls;
pub mod uri;

pub use pool::BufferPool;
pub use proxy::handler::ProxyContext;
pub use state::AppState;
