//! Supervisor and streaming relay for a local companion backend process.
//!
//! The crate has two halves: a process supervisor that decides how to launch
//! a backend executable and when it counts as healthy, and a streaming relay
//! that incrementally decodes the backend's line-delimited event protocol
//! into typed chunks.

use vstd::prelude::*;

pub mod chunk;
pub mod decoder;
pub mod supervisor;

verus! {

/// The loopback port the backend is launched on and polled at.
pub const SIDECAR_PORT: u16 = 39821;

/// An HTTP status code counts as success exactly when it lies in the 2xx range.
pub open spec fn spec_success_status(status: u16) -> bool {
    200 <= status < 300
}

/// Decides whether an HTTP status code reports success (any 2xx response).
pub fn is_success_status(status: u16) -> (r: bool)
    ensures
        r == spec_success_status(status),
{
    200 <= status && status < 300
}

} // verus!
