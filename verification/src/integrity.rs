//! Model-file integrity: the SHA-256 of a model's bytes against the digest
//! recorded for it.

use sha2::Digest;
use vstd::prelude::*;
use vstd::string::StringExecFns;
use crate::text::{eq_ignore_ascii_case, eq_ignoring_ascii_case, hex_lower, hex_of};

verus! {

/// The SHA-256 digest of `data`.
pub uninterp spec fn sha256(data: Seq<u8>) -> Seq<u8>;

/// `sha2::Sha256::digest`: the SHA-256 digest of `bytes`, 32 bytes long and a
/// function of the bytes alone. What the digest is, beyond its length, is
/// left to the name [`sha256`].
#[verifier::external_body]
fn sha256_digest(bytes: &[u8]) -> (d: Vec<u8>)
    ensures
        d@ == sha256(bytes@),
        d.len() == 32,
{
    sha2::Sha256::digest(bytes).to_vec()
}

/// A model file whose digest differs from the recorded one.
#[derive(Clone, Debug, PartialEq, Eq)]
pub enum IntegrityError {
    Mismatch { model_id: String, got: String, expected: String },
}

impl IntegrityError {
    pub open spec fn message_spec(&self) -> Seq<char> {
        match self {
            IntegrityError::Mismatch { model_id, got, expected } => "model integrity FAIL for "@
                + model_id@ + ": on-disk sha256 "@ + got@ + " != manifest "@ + expected@,
        }
    }

    /// The human-readable message of the error.
    pub fn message(&self) -> (m: String)
        ensures
            m@ == self.message_spec(),
    {
        let mut m = String::new();
        match self {
            IntegrityError::Mismatch { model_id, got, expected } => {
                m.append("model integrity FAIL for ");
                m.append(model_id.as_str());
                m.append(": on-disk sha256 ");
                m.append(got.as_str());
                m.append(" != manifest ");
                m.append(expected.as_str());
            },
        }
        m
    }
}

/// Compare a computed digest with the recorded hexadecimal digest
/// `expected` (case-insensitively).
pub fn check_digest(model_id: &str, digest: &[u8], expected: &str) -> (r: Result<(), IntegrityError>)
    ensures
        r is Ok <==> eq_ignoring_ascii_case(hex_of(digest@), expected@),
        r matches Err(e) ==> e matches IntegrityError::Mismatch { model_id: id, got, expected: ex }
            && id@ == model_id@ && got@ == hex_of(digest@) && ex@ == expected@,
{
    let got = hex_lower(digest);
    if !eq_ignore_ascii_case(got.as_str(), expected) {
        return Err(
            IntegrityError::Mismatch {
                model_id: model_id.to_owned(),
                got,
                expected: expected.to_owned(),
            },
        );
    }
    Ok(())
}

/// Check the bytes of model `model_id` against its recorded SHA-256
/// `expected` (hexadecimal, any case).
pub fn check_model_sha256(model_id: &str, bytes: &[u8], expected: &str) -> (r: Result<
    (),
    IntegrityError,
>)
    ensures
        r is Ok <==> eq_ignoring_ascii_case(hex_of(sha256(bytes@)), expected@),
        r matches Err(e) ==> e matches IntegrityError::Mismatch { model_id: id, got, expected: ex }
            && id@ == model_id@ && got@ == hex_of(sha256(bytes@)) && ex@ == expected@,
{
    let digest = sha256_digest(bytes);
    check_digest(model_id, digest.as_slice(), expected)
}

} // verus!
