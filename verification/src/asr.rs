//! Errors of speech-to-text backends.

use vstd::prelude::*;
use vstd::string::StringExecFns;
use crate::text::{decimal, push_decimal};

verus! {

/// Errors a speech-to-text backend can report.
#[derive(Clone, Debug, PartialEq, Eq)]
pub enum AsrError {
    UnsupportedSampleRate { actual: u32 },
    InferenceFailed { detail: String },
    ModelIo { path: String, detail: String },
    Backend(String),
}

impl AsrError {
    pub open spec fn message_spec(&self) -> Seq<char> {
        match self {
            AsrError::UnsupportedSampleRate { actual } => "unsupported sample rate: "@ + decimal(
                *actual as nat,
            ) + " Hz"@,
            AsrError::InferenceFailed { detail } => "ASR inference failed: "@ + detail@,
            AsrError::ModelIo { path, detail } => "model file io error on "@ + path@ + ": "@
                + detail@,
            AsrError::Backend(detail) => "ASR backend error: "@ + detail@,
        }
    }

    /// The human-readable message of the error.
    pub fn message(&self) -> (m: String)
        ensures
            m@ == self.message_spec(),
    {
        let mut m = String::new();
        match self {
            AsrError::UnsupportedSampleRate { actual } => {
                m.append("unsupported sample rate: ");
                push_decimal(&mut m, *actual as u64);
                m.append(" Hz");
            },
            AsrError::InferenceFailed { detail } => {
                m.append("ASR inference failed: ");
                m.append(detail.as_str());
            },
            AsrError::ModelIo { path, detail } => {
                m.append("model file io error on ");
                m.append(path.as_str());
                m.append(": ");
                m.append(detail.as_str());
            },
            AsrError::Backend(detail) => {
                m.append("ASR backend error: ");
                m.append(detail.as_str());
            },
        }
        m
    }
}

} // verus!
