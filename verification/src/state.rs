//! Shared state that can be swapped on hot reload.

use crate::config::Config;
use std::sync::Arc;
use vstd::prelude::*;

verus! {

/// A swappable pointer of the `arc-swap` crate to a configuration.
#[verifier::external_body]
pub struct ConfigPointer {
    inner: arc_swap::ArcSwap<Config>,
}

/// The configuration that a pointer points to.
pub uninterp spec fn pointed(p: ConfigPointer) -> Config;

/// A pointer to a configuration, from `ArcSwap::from_pointee`.
#[verifier::external_body]
fn pointer(config: Config) -> (r: ConfigPointer)
    ensures
        pointed(r) == config,
{
    ConfigPointer { inner: arc_swap::ArcSwap::from_pointee(config) }
}

/// What a pointer points to, by `ArcSwapAny::load`.
#[verifier::external_body]
fn load(p: &ConfigPointer) -> (r: Arc<Config>)
    ensures
        *r == pointed(*p),
{
    Arc::clone(&p.inner.load())
}

/// Makes a pointer point to another configuration with `ArcSwapAny::store`.
#[verifier::external_body]
fn store(p: &mut ConfigPointer, config: Arc<Config>)
    ensures
        pointed(*final(p)) == *config,
{
    p.inner.store(config)
}

/// Global shared state: the configuration in use.
pub struct AppState {
    config: ConfigPointer,
}

impl AppState {
    /// The configuration in use.
    pub closed spec fn current(&self) -> Config {
        pointed(self.config)
    }

    pub fn new(config: Config) -> (r: Self)
        ensures
            r.current() == config,
    {
        AppState { config: pointer(config) }
    }

    /// The configuration in use.
    pub fn load_config(&self) -> (r: Arc<Config>)
        ensures
            *r == self.current(),
    {
        load(&self.config)
    }

    /// Replaces the configuration; those who loaded the old one keep it.
    pub fn swap_config(&mut self, new_config: Config)
        ensures
            final(self).current() == new_config,
    {
        store(&mut self.config, Arc::new(new_config));
    }
}

} // verus!
