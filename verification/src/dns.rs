//! The DNS service: configuration holder for the serving loop.
//!
//! The serving loop itself performs network I/O and runs outside the
//! library; it builds a `Server` from the DNS section of the configuration
//! and drives a `Resolver` with the transport events it receives.

use crate::config::DnsConfig;
use vstd::prelude::*;

verus! {

/// The DNS server: holds the DNS section of the configuration.
pub struct Server {
    pub config: DnsConfig,
}

impl Server {
    /// Wrap the DNS configuration for the serving loop.
    pub fn new(config: DnsConfig) -> (s: Self)
        ensures
            s.config == config,
    {
        Self { config }
    }
}

} // verus!
