//! Configuration records for the resolver and its surrounding services.
//!
//! The structures mirror the on-disk configuration shape; loading and
//! parsing the file happen outside the library, which only ever receives
//! the plain values held here.

use vstd::prelude::*;

verus! {

/// Top-level configuration: one section per service plus a schema marker.
pub struct Config {
    pub dns: DnsConfig,
    pub http: HttpConfig,
    pub log: LogConfig,
    pub schema_version: u32,
}

/// DNS service configuration: upstream servers and listening addresses.
pub struct DnsConfig {
    pub upstream_mode: String,
    pub addresses: Vec<String>,
    pub bootstrap_dns: Vec<String>,
    pub upstream_dns: Vec<String>,
    pub upstream_timeout: String,
}

/// Admin HTTP service configuration.
pub struct HttpConfig {
    pub addresses: Vec<String>,
    pub force_https: bool,
    pub session_ttl: u32,
}

/// Logging configuration.
pub struct LogConfig {
    pub verbose: bool,
    pub file: String,
}

impl Default for DnsConfig {
    /// An empty DNS section: no upstreams, no listeners, no mode chosen.
    fn default() -> (c: DnsConfig)
        ensures
            c.upstream_mode@ == Seq::<char>::empty(),
            c.addresses@ == Seq::<String>::empty(),
            c.bootstrap_dns@ == Seq::<String>::empty(),
            c.upstream_dns@ == Seq::<String>::empty(),
            c.upstream_timeout@ == Seq::<char>::empty(),
    {
        DnsConfig {
            upstream_mode: String::new(),
            addresses: Vec::new(),
            bootstrap_dns: Vec::new(),
            upstream_dns: Vec::new(),
            upstream_timeout: String::new(),
        }
    }
}

impl Default for HttpConfig {
    /// An empty HTTP section: no listeners, plain HTTP, zero session TTL.
    fn default() -> (c: HttpConfig)
        ensures
            c.addresses@ == Seq::<String>::empty(),
            c.force_https == false,
            c.session_ttl == 0,
    {
        HttpConfig { addresses: Vec::new(), force_https: false, session_ttl: 0 }
    }
}

impl Default for LogConfig {
    /// Quiet logging to no file.
    fn default() -> (c: LogConfig)
        ensures
            c.verbose == false,
            c.file@ == Seq::<char>::empty(),
    {
        LogConfig { verbose: false, file: String::new() }
    }
}

impl Default for Config {
    /// All sections at their defaults and schema version zero.
    fn default() -> (c: Config)
        ensures
            c.schema_version == 0,
            c.dns.upstream_mode@ == Seq::<char>::empty(),
            c.dns.addresses@ == Seq::<String>::empty(),
            c.dns.bootstrap_dns@ == Seq::<String>::empty(),
            c.dns.upstream_dns@ == Seq::<String>::empty(),
            c.dns.upstream_timeout@ == Seq::<char>::empty(),
            c.http.addresses@ == Seq::<String>::empty(),
            c.http.force_https == false,
            c.http.session_ttl == 0,
            c.log.verbose == false,
            c.log.file@ == Seq::<char>::empty(),
    {
        Config {
            dns: DnsConfig::default(),
            http: HttpConfig::default(),
            log: LogConfig::default(),
            schema_version: 0,
        }
    }
}

} // verus!
