//! Decisions of the admin HTTP service that are plain computation.
//!
//! The HTTP server itself runs outside the library; it asks here which
//! address to listen on.

use crate::config::HttpConfig;
use vstd::prelude::*;

verus! {

/// Pick the listen address for the admin HTTP service: the first
/// configured address, or the default when none is configured.
pub fn choose_http_addr(config: &HttpConfig) -> (r: String)
    ensures
        config.addresses@.len() > 0 ==> r@ == config.addresses@[0]@,
        config.addresses@.len() == 0 ==> r@ == "0.0.0.0:3000"@,
{
    if config.addresses.len() > 0 {
        config.addresses[0].clone()
    } else {
        "0.0.0.0:3000".to_owned()
    }
}

} // verus!
