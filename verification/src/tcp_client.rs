//! Configuration for the multi-connection transport client.
//!
//! The client that owns outbound TCP connections, with their reconnection
//! and backoff behaviour, performs network I/O and therefore lives outside
//! this library; only its configuration is defined here.

use vstd::prelude::*;

verus! {

/// How a transport client backs off when reconnecting to an unreachable
/// peer: it waits the initial interval after the first failure and grows
/// the wait on repeated failures, never beyond the maximum interval.
pub struct Config {
    pub initial_reconnection_backoff: core::time::Duration,
    pub maximum_reconnection_backoff: core::time::Duration,
}

impl Config {
    /// A configuration with the given backoff bounds.
    pub fn new(
        initial_reconnection_backoff: core::time::Duration,
        maximum_reconnection_backoff: core::time::Duration,
    ) -> (config: Config)
        ensures
            config.initial_reconnection_backoff == initial_reconnection_backoff,
            config.maximum_reconnection_backoff == maximum_reconnection_backoff,
    {
        Config { initial_reconnection_backoff, maximum_reconnection_backoff }
    }
}

} // verus!
