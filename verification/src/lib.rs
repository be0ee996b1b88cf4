use vstd::prelude::*;

pub mod text;
pub mod assign;
pub mod sums;
pub mod time;
pub mod der;
pub mod wder;
pub mod matching;
pub mod uniqueness;
pub mod monotone;
pub mod prune;
pub mod uem;
pub mod decimal;
pub mod rttm;
pub mod attribution;
pub mod sweep;
pub mod npy;
pub mod clusterer;
pub mod short_filter;
pub mod canonical;
pub mod durations;
pub mod cli;
pub mod mcp;
pub mod integrity;
pub mod registry;
pub mod earshot_vad;
pub mod embedder;
pub mod asr;
pub mod ecapa;

verus! {

} // verus!
