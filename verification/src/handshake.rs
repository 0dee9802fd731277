//! Startup handshake: scanning the child's early stdout for the readiness
//! marker or for error vocabulary.
//!
//! After spawning, the child is not ready until the marker token `>>>`
//! appears on its stdout.  If recognizable error vocabulary (the words
//! `error` or `failed`, in any case) appears first, the handshake fails.
//! The informational `Model '…' loaded.` line is reported but decides
//! nothing.

use vstd::prelude::*;

use crate::bytes::{contains_ci, contains_seq, contains_sub, contains_sub_ci};
use crate::demux::marker;

verus! {

broadcast use vstd::array::group_array_axioms;

/// The word `error`, lower case.
pub open spec fn error_word() -> Seq<u8> {
    seq![101u8, 114u8, 114u8, 111u8, 114u8]
}

/// The word `failed`, lower case.
pub open spec fn failed_word() -> Seq<u8> {
    seq![102u8, 97u8, 105u8, 108u8, 101u8, 100u8]
}

/// The informational prefix `Model '`.
pub open spec fn model_open() -> Seq<u8> {
    seq![77u8, 111u8, 100u8, 101u8, 108u8, 32u8, 39u8]
}

/// The informational suffix `' loaded.`.
pub open spec fn model_close() -> Seq<u8> {
    seq![39u8, 32u8, 108u8, 111u8, 97u8, 100u8, 101u8, 100u8, 46u8]
}

/// The startup text carries error vocabulary: `error` or `failed`, in any
/// ASCII case.
pub open spec fn has_error_vocabulary(s: Seq<u8>) -> bool {
    contains_ci(s, error_word()) || contains_ci(s, failed_word())
}

/// The readiness marker has been observed.
pub open spec fn has_ready_marker(s: Seq<u8>) -> bool {
    contains_seq(s, marker())
}

/// The informational `Model '…' loaded.` signal has been observed.
pub open spec fn has_model_loaded(s: Seq<u8>) -> bool {
    contains_seq(s, model_open()) && contains_seq(s, model_close())
}

/// What the startup text decides.  Error vocabulary takes precedence over
/// the readiness marker.
pub open spec fn handshake_status(s: Seq<u8>) -> HandshakeStatus {
    if has_error_vocabulary(s) {
        HandshakeStatus::Failed
    } else if has_ready_marker(s) {
        HandshakeStatus::Ready
    } else {
        HandshakeStatus::Waiting
    }
}

/// Verdict of the handshake scanner on the startup text seen so far.
#[derive(Clone, Copy, Debug, PartialEq, Eq, Structural)]
pub enum HandshakeStatus {
    /// Neither the marker nor error vocabulary seen yet.
    Waiting,
    /// The readiness marker was observed; the child accepts prompts.
    Ready,
    /// Error vocabulary was observed before readiness; the handshake fails.
    Failed,
}

/// Outcome of feeding one startup read to the scanner.
pub struct HandshakeStep {
    /// The verdict on everything seen so far.
    pub status: HandshakeStatus,
    /// The informational model-loaded signal has been seen (logging only).
    pub model_loaded: bool,
}

/// Scanner state: the startup bytes accumulated before readiness.
pub struct Handshake {
    /// Every byte read during the handshake, in order.
    pub buf: Vec<u8>,
}

impl Handshake {
    /// A fresh scanner with an empty buffer.
    pub fn new() -> (r: Self)
        ensures
            r.buf@ == Seq::<u8>::empty(),
    {
        Handshake { buf: Vec::new() }
    }

    /// Feeds one read of startup bytes and reports what the accumulated
    /// text decides.
    pub fn on_chunk(&mut self, chunk: &[u8]) -> (r: HandshakeStep)
        requires
            old(self).buf@.len() + chunk@.len() <= usize::MAX,
        ensures
            final(self).buf@ == old(self).buf@ + chunk@,
            r.status == handshake_status(final(self).buf@),
            r.model_loaded == has_model_loaded(final(self).buf@),
    {
        self.buf.extend_from_slice(chunk);
        let err_pat: [u8; 5] = [101, 114, 114, 111, 114];
        let failed_pat: [u8; 6] = [102, 97, 105, 108, 101, 100];
        let open_pat: [u8; 7] = [77, 111, 100, 101, 108, 32, 39];
        let close_pat: [u8; 9] = [39, 32, 108, 111, 97, 100, 101, 100, 46];
        let marker_pat: [u8; 3] = [62, 62, 62];
        assert(err_pat@ =~= error_word());
        assert(failed_pat@ =~= failed_word());
        assert(open_pat@ =~= model_open());
        assert(close_pat@ =~= model_close());
        assert(marker_pat@ =~= marker());
        let failed = contains_sub_ci(self.buf.as_slice(), err_pat.as_slice()) || contains_sub_ci(
            self.buf.as_slice(),
            failed_pat.as_slice(),
        );
        let model_loaded = contains_sub(self.buf.as_slice(), open_pat.as_slice()) && contains_sub(
            self.buf.as_slice(),
            close_pat.as_slice(),
        );
        let status = if failed {
            HandshakeStatus::Failed
        } else if contains_sub(self.buf.as_slice(), marker_pat.as_slice()) {
            HandshakeStatus::Ready
        } else {
            HandshakeStatus::Waiting
        };
        HandshakeStep { status, model_loaded }
    }
}

} // verus!
