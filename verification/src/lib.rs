//! Orchestration layer for a line-oriented child inference engine.
//!
//! A child executable speaks an implicit text protocol over its standard
//! streams: a prompt line goes in, a token stream comes out, and the literal
//! marker `>>>` signals both readiness and completion.  This crate holds the
//! verified core of the layer that makes that fragile protocol look like a
//! safe, concurrent request/response API: the stream demultiplexer that turns
//! raw byte chunks into exactly-once output fragments, the supervisor state
//! machine that serializes commands onto one child at a time, and the
//! fixed-capacity process pool with round-robin selection.  The surrounding
//! process spawning, pipes and HTTP front ends are ordinary unverified glue
//! that drives these state machines.

pub mod api;
pub mod binary;
pub mod bytes;
pub mod demux;
pub mod dspy;
pub mod handshake;
pub mod listing;
pub mod pool;
pub mod registry;
pub mod spawn;
pub mod supervisor;

use vstd::prelude::*;

verus! {

/// Default token budget for a completion request when the caller does not
/// give one.
pub fn default_max_tokens() -> (r: u32)
    ensures
        r == 2048,
{
    2048
}

} // verus!
