//! The earshot voice-activity adapter: its identity and its frame contract.
//!
//! earshot scores 16 kHz mono audio in fixed windows of 256 samples and
//! emits one speech probability per complete window. Chunks that are not a
//! whole number of windows are rejected, never buffered, so frame indices
//! always line up with the caller's input. The scoring itself happens outside
//! this library.

use vstd::prelude::*;
use crate::registry::{AdapterError, AdapterRegistry, AdapterStage};

verus! {

/// Adapter type id in the adapter registry (voice-activity stage).
pub const ADAPTER_TYPE: &'static str = "earshot";

/// Window length in samples.
pub const FRAME_SIZE: usize = 256;

/// Required sample rate in Hz.
pub const SAMPLE_RATE: u32 = 16_000;

/// A chunk rejected by the frame contract.
#[derive(Clone, Copy, Debug, PartialEq, Eq)]
pub enum ChunkError {
    /// The chunk is not a whole number of windows.
    InvalidChunkSize { expected: usize, got: usize },
}

/// The number of windows in a chunk of `len` samples, or the rejection of a
/// chunk that is not a whole number of windows.
pub fn frames_in_chunk(len: usize) -> (r: Result<usize, ChunkError>)
    ensures
        len % FRAME_SIZE == 0 ==> r == Ok::<usize, ChunkError>(len / FRAME_SIZE),
        len % FRAME_SIZE != 0 ==> r == Err::<usize, ChunkError>(
            ChunkError::InvalidChunkSize { expected: FRAME_SIZE, got: len },
        ),
{
    if len % FRAME_SIZE != 0 {
        Err(ChunkError::InvalidChunkSize { expected: FRAME_SIZE, got: len })
    } else {
        Ok(len / FRAME_SIZE)
    }
}

/// Register the earshot adapter type for the voice-activity stage. A second
/// registration is rejected as a duplicate.
pub fn register_with(registry: &mut AdapterRegistry) -> (r: Result<(), AdapterError>)
    ensures
        old(registry).has(AdapterStage::Vad, ADAPTER_TYPE@) ==> r is Err && final(registry).entries()
            == old(registry).entries(),
        !old(registry).has(AdapterStage::Vad, ADAPTER_TYPE@) ==> r is Ok && final(registry).entries()
            == old(registry).entries().push((AdapterStage::Vad, ADAPTER_TYPE@)),
        final(registry).has(AdapterStage::Vad, ADAPTER_TYPE@),
{
    let r = registry.register(AdapterStage::Vad, ADAPTER_TYPE);
    proof {
        if !old(registry).has(AdapterStage::Vad, ADAPTER_TYPE@) {
            crate::registry::lemma_register_then_duplicate(
                old(registry).entries(),
                AdapterStage::Vad,
                ADAPTER_TYPE@,
            );
        }
    }
    r
}

} // verus!
