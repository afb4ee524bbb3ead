//! Core of a DNS forwarding/filtering resolver.
//!
//! The crate holds the verified resolution engine: query normalization, a
//! blocklist/allowlist filter, a bounded TTL-aware LRU cache, health-tracked
//! upstream selection, and the single-flight resolver that ties them
//! together. Network transports, configuration files and the admin HTTP
//! surface live outside the library and drive it through plain values.

pub mod cache;
pub mod config;
pub mod dns;
pub mod errors;
pub mod filter;
pub mod listener;
pub mod message;
pub mod query;
pub mod resolver;
pub mod upstream;
pub mod web;
