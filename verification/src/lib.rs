//! Reconstruction of HTTP request/response pairs from captured packet events.
//!
//! The crate groups packet events into bidirectional flows keyed by an
//! unordered endpoint pair, accumulates each direction's payload bytes in
//! arrival order, detects flow completion from the two termination flags, and
//! parses the accumulated buffers as an HTTP request and response, including
//! header framing, length-delimited bodies and gzip decompression.

use vstd::prelude::*;

pub mod http;
pub mod stream;

verus! {

/// Filter configuration: an optional string matched as a literal substring
/// against the parsed request's path.
pub struct Args {
    pub path: Option<String>,
}

} // verus!
