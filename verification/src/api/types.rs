//! Request and response shapes of the observer API.

use vstd::prelude::*;

verus! {

/// The body of a spend check: the nonces to look up.
#[derive(Debug)]
pub struct SpendCheckRequest {
    pub nonces: Vec<String>,
}

/// What the observer reports for a spent nonce.
#[derive(Debug)]
pub struct SpendInfoResponse {
    pub session_index: u64,
    /// Estimated redemption time, in seconds since the Unix epoch.
    pub estimated_timestamp: Option<i64>,
}

} // verus!
