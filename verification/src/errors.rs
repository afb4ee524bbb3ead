//! Error taxonomy of the resolution engine.

use vstd::prelude::*;

verus! {

/// Why a resolution could not produce an ordinary answer.
///
/// `FilterBlocked` is a policy outcome rather than a failure; the resolver
/// synthesizes a response for it. The upstream variants are recovered into a
/// SERVFAIL response by the caller; nothing here is fatal.
#[derive(Clone, Copy, PartialEq, Eq, Structural, Debug)]
pub enum ResolveError {
    MalformedQuery,
    FilterBlocked,
    UpstreamTimeout,
    UpstreamRefused,
    NoHealthyUpstream,
}

/// How a single upstream exchange failed, as reported by the transport.
#[derive(Clone, Copy, PartialEq, Eq, Structural, Debug)]
pub enum UpstreamError {
    Timeout,
    Refused,
}

/// The response code a resolution error is reported with on the wire.
pub open spec fn rcode_of_error(e: ResolveError) -> u16 {
    match e {
        ResolveError::MalformedQuery => 1,  // FORMERR
        ResolveError::FilterBlocked => 3,  // NXDOMAIN
        ResolveError::UpstreamTimeout => 2,  // SERVFAIL
        ResolveError::UpstreamRefused => 2,  // SERVFAIL
        ResolveError::NoHealthyUpstream => 2,  // SERVFAIL
    }
}

/// Map a resolution error to its wire response code.
pub fn error_rcode(e: ResolveError) -> (r: u16)
    ensures
        r == rcode_of_error(e),
{
    match e {
        ResolveError::MalformedQuery => 1,
        ResolveError::FilterBlocked => 3,
        ResolveError::UpstreamTimeout => 2,
        ResolveError::UpstreamRefused => 2,
        ResolveError::NoHealthyUpstream => 2,
    }
}

/// The resolution error an upstream exchange failure surfaces as.
pub open spec fn error_of_upstream(e: UpstreamError) -> ResolveError {
    match e {
        UpstreamError::Timeout => ResolveError::UpstreamTimeout,
        UpstreamError::Refused => ResolveError::UpstreamRefused,
    }
}

/// Lift an upstream exchange failure into a resolution error.
pub fn resolve_error_of_upstream(e: UpstreamError) -> (r: ResolveError)
    ensures
        r == error_of_upstream(e),
{
    match e {
        UpstreamError::Timeout => ResolveError::UpstreamTimeout,
        UpstreamError::Refused => ResolveError::UpstreamRefused,
    }
}

} // verus!
