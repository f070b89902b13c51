//! The proxy: limits on bodies, the upstream client, and the handling of a request.

pub mod body_limit;
pub mod client;
pub mod forward;
pub mod handler;
pub mod flow;
