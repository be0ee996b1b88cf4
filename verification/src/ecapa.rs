//! The filter-bank ONNX extractor as seen from a build without ONNX support:
//! constructing one always fails, saying why.

use vstd::prelude::*;
use vstd::string::StringExecFns;

verus! {

/// Why an extractor could not be built.
#[derive(Clone, Debug, PartialEq, Eq)]
pub struct ExtractorUnavailable {
    pub message: String,
}

/// The filter-bank ONNX speaker extractor, in a build without ONNX support.
#[derive(Clone, Copy, Debug, PartialEq, Eq)]
pub struct FbankOnnxExtractor;

impl FbankOnnxExtractor {
    /// Always fails: this build carries no ONNX runtime.
    pub fn new(_model_path: &str, _embedding_dim: usize, _pool_size: usize) -> (r: Result<
        FbankOnnxExtractor,
        ExtractorUnavailable,
    >)
        ensures
            r matches Err(e) && e.message@ == "the `onnx` feature is not enabled"@,
    {
        let mut message = String::new();
        message.append("the `onnx` feature is not enabled");
        Err(ExtractorUnavailable { message })
    }
}

} // verus!
