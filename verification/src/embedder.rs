//! Speaker-embedder errors and the deterministic stand-in embedder used by
//! tests and benchmarks.

use vstd::prelude::*;
use vstd::string::StringExecFns;
use crate::text::{contains_seq, contains_str, decimal, millis_as_secs, push_decimal, push_millis_as_secs};

verus! {

/// Errors reported by speaker embedders.
#[derive(Clone, Debug, PartialEq, Eq)]
pub enum EmbedderError {
    /// The audio is shorter than the embedder accepts (durations in ms).
    AudioTooShort { actual_ms: u64, min_ms: u64 },
    /// Inference failed.
    InferenceFailed { detail: String },
    /// The encoder's session pool (or an equivalent resource) is exhausted.
    ResourceExhausted { detail: String },
    /// The embedding has the wrong dimension.
    DimMismatch { expected: usize, actual: usize },
    /// The model file could not be read.
    ModelIo { path: String, detail: String },
    /// An error from an older adapter, as text.
    Legacy(String),
}

/// The marker older extractors put in their messages on resource exhaustion.
pub open spec fn exhaustion_marker() -> Seq<char> {
    "pool exhausted"@
}

/// Whether `detail` carries the resource-exhaustion marker.
pub fn detail_looks_exhausted(detail: &str) -> (b: bool)
    ensures
        b == contains_seq(detail@, exhaustion_marker()),
{
    contains_str(detail, "pool exhausted")
}

impl EmbedderError {
    /// Resource exhaustion: the typed variant, or an inference or legacy
    /// message that carries the exhaustion marker.
    pub open spec fn is_resource_exhausted_spec(&self) -> bool {
        match self {
            EmbedderError::ResourceExhausted { .. } => true,
            EmbedderError::InferenceFailed { detail } => contains_seq(detail@, exhaustion_marker()),
            EmbedderError::Legacy(detail) => contains_seq(detail@, exhaustion_marker()),
            _ => false,
        }
    }

    /// Whether this error reports encoder resource exhaustion.
    pub fn is_resource_exhausted(&self) -> (b: bool)
        ensures
            b == self.is_resource_exhausted_spec(),
    {
        match self {
            EmbedderError::ResourceExhausted { .. } => true,
            EmbedderError::InferenceFailed { detail } => detail_looks_exhausted(detail.as_str()),
            EmbedderError::Legacy(detail) => detail_looks_exhausted(detail.as_str()),
            _ => false,
        }
    }

    pub open spec fn message_spec(&self) -> Seq<char> {
        match self {
            EmbedderError::AudioTooShort { actual_ms, min_ms } =>
                "audio too short for this embedder: "@ + millis_as_secs(*actual_ms as nat) + "s < "@
                + millis_as_secs(*min_ms as nat) + "s"@,
            EmbedderError::InferenceFailed { detail } => "ONNX inference failed: "@ + detail@,
            EmbedderError::ResourceExhausted { detail } => "resource exhausted: "@ + detail@,
            EmbedderError::DimMismatch { expected, actual } => "expected embedding dim "@ + decimal(
                *expected as nat,
            ) + ", got "@ + decimal(*actual as nat),
            EmbedderError::ModelIo { path, detail } => "model file io error on "@ + path@ + ": "@
                + detail@,
            EmbedderError::Legacy(detail) => "legacy adapter error: "@ + detail@,
        }
    }

    /// The human-readable message of the error.
    pub fn message(&self) -> (m: String)
        ensures
            m@ == self.message_spec(),
    {
        let mut m = String::new();
        match self {
            EmbedderError::AudioTooShort { actual_ms, min_ms } => {
                m.append("audio too short for this embedder: ");
                push_millis_as_secs(&mut m, *actual_ms);
                m.append("s < ");
                push_millis_as_secs(&mut m, *min_ms);
                m.append("s");
            },
            EmbedderError::InferenceFailed { detail } => {
                m.append("ONNX inference failed: ");
                m.append(detail.as_str());
            },
            EmbedderError::ResourceExhausted { detail } => {
                m.append("resource exhausted: ");
                m.append(detail.as_str());
            },
            EmbedderError::DimMismatch { expected, actual } => {
                m.append("expected embedding dim ");
                push_decimal(&mut m, *expected as u64);
                m.append(", got ");
                push_decimal(&mut m, *actual as u64);
            },
            EmbedderError::ModelIo { path, detail } => {
                m.append("model file io error on ");
                m.append(path.as_str());
                m.append(": ");
                m.append(detail.as_str());
            },
            EmbedderError::Legacy(detail) => {
                m.append("legacy adapter error: ");
                m.append(detail.as_str());
            },
        }
        m
    }
}

/// One step of the linear congruential generator (wrapping 64-bit).
pub open spec fn lcg_step(seed: u64) -> u64 {
    ((seed as int * 1103515245 + 12345) % 0x1_0000_0000_0000_0000) as u64
}

/// The generator state after `k` steps from `seed`.
pub open spec fn lcg_iter(seed: u64, k: nat) -> u64
    decreases k,
{
    if k == 0 {
        seed
    } else {
        lcg_step(lcg_iter(seed, (k - 1) as nat))
    }
}

/// A deterministic stand-in embedder: each call yields `dim` values drawn
/// from a linear congruential generator seeded by a call counter.
#[derive(Debug)]
pub struct DummyExtractor {
    dim: usize,
    seed: u64,
}

impl DummyExtractor {
    pub closed spec fn spec_dim(&self) -> usize {
        self.dim
    }

    pub closed spec fn spec_seed(&self) -> u64 {
        self.seed
    }

    /// A stand-in embedder of dimension `dim`, seeded with 1.
    pub fn new(dim: usize) -> (e: Self)
        ensures
            e.spec_dim() == dim,
            e.spec_seed() == 1,
    {
        DummyExtractor { dim, seed: 1 }
    }

    /// The embedding dimension.
    pub fn dim(&self) -> (d: usize)
        ensures
            d == self.spec_dim(),
    {
        self.dim
    }

    /// The raw values of the next embedding: value `k` is the generator
    /// state after `k + 1` steps from the current seed, modulo 1000. The seed
    /// then moves on by one (wrapping).
    pub fn next_raw_values(&mut self) -> (v: Vec<u64>)
        ensures
            final(self).spec_dim() == old(self).spec_dim(),
            final(self).spec_seed() == (if old(self).spec_seed() == u64::MAX {
                0
            } else {
                old(self).spec_seed() + 1
            }),
            v.len() == old(self).spec_dim(),
            forall|k: int|
                0 <= k < v.len() ==> #[trigger] v@[k] == lcg_iter(old(self).spec_seed(), (k + 1) as nat)
                    % 1000,
    {
        let start = self.seed;
        self.seed = self.seed.wrapping_add(1);
        let mut seed = start;
        let mut v: Vec<u64> = Vec::new();
        let mut k: usize = 0;
        while k < self.dim
            invariant
                k <= self.dim,
                v.len() == k,
                seed == lcg_iter(start, k as nat),
                forall|q: int| 0 <= q < k ==> #[trigger] v@[q] == lcg_iter(start, (q + 1) as nat) % 1000,
            decreases self.dim - k,
        {
            seed = seed.wrapping_mul(1103515245).wrapping_add(12345);
            assert(seed == lcg_step(lcg_iter(start, k as nat))) by {
                assert(lcg_iter(start, (k + 1) as nat) == lcg_step(lcg_iter(start, k as nat)));
            }
            v.push(seed % 1000);
            k += 1;
        }
        v
    }
}

} // verus!
