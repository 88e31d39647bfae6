//! Bounded ingestion of a streamed request body, and a codec for the
//! record schema carried in it.
//!
//! The library has two parts, composed per request: a `BoundedAccumulator`
//! that materializes a chunked byte stream while enforcing a hard size
//! ceiling mid-stream, and a codec that decodes the accumulated bytes into
//! a typed `Root` record (absent fields take their zero values) and
//! re-encodes the record into its canonical byte form for the response.

use vstd::prelude::*;

pub mod accumulator;
pub mod codec;
pub mod json;
pub mod record;
pub mod roundtrip;

verus! {

/// Default ceiling on the total size of an accumulated request body, in bytes.
pub const DEFAULT_MAX_SIZE: usize = 262144;

/// Why a request was rejected: the body grew past the configured ceiling
/// while it was still arriving, or the accumulated bytes do not form a
/// well-formed record.
#[derive(Clone, Copy, Debug, PartialEq, Eq, Structural)]
pub enum ErrorKind {
    PayloadTooLarge,
    MalformedPayload,
}

} // verus!
