//! Layers around the proxy service.

pub mod load_shed;
