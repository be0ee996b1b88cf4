use polyvoice::integrity::{check_digest, check_model_sha256, IntegrityError};
use polyvoice::text::{chars_of, contains_str, eq_ignore_ascii_case, hex_lower, str_eq};

#[test]
fn hex_lower_formats_bytes_as_two_digit_hex() {
    assert_eq!(hex_lower(&[0x00, 0x0f, 0xa5, 0xff]), "000fa5ff");
    assert_eq!(hex_lower(&[]), "");
}

#[test]
fn string_helpers() {
    assert_eq!(chars_of("héllo"), vec!['h', 'é', 'l', 'l', 'o']);
    assert!(str_eq("abc", "abc"));
    assert!(!str_eq("abc", "abd"));
    assert!(!str_eq("abc", "ab"));
    assert!(eq_ignore_ascii_case("ABCdef", "abcDEF"));
    assert!(!eq_ignore_ascii_case("abc", "abd"));
    assert!(!eq_ignore_ascii_case("abc", "abcd"));
    assert!(contains_str("the pool exhausted now", "pool exhausted"));
    assert!(contains_str("abc", ""));
    assert!(!contains_str("ab", "abc"));
}

// SHA-256("abc"), FIPS 180-2 appendix B.1.
const ABC_SHA256: &str = "ba7816bf8f01cfea414140de5dae2223b00361a396177a9cb410ff61f20015ad";

#[test]
fn model_digest_matches_recorded_sha256() {
    assert_eq!(check_model_sha256("m", b"abc", ABC_SHA256), Ok(()));
    // The recorded digest may be upper case.
    assert_eq!(check_model_sha256("m", b"abc", &ABC_SHA256.to_uppercase()), Ok(()));
}

#[test]
fn model_digest_mismatch_is_reported() {
    let err = check_model_sha256("resnet34", b"abd", ABC_SHA256).unwrap_err();
    let IntegrityError::Mismatch { model_id, got, expected } = err.clone();
    assert_eq!(model_id, "resnet34");
    assert_eq!(expected, ABC_SHA256);
    assert_eq!(got.len(), 64);
    assert_ne!(got, ABC_SHA256);
    assert!(err.message().starts_with("model integrity FAIL for resnet34: on-disk sha256 "));
    assert!(err.message().ends_with(&format!(" != manifest {ABC_SHA256}")));
}

#[test]
fn digest_check_compares_hex() {
    assert_eq!(check_digest("m", &[0xab, 0x01], "AB01"), Ok(()));
    assert_eq!(
        check_digest("m", &[0xab, 0x01], "ab02"),
        Err(IntegrityError::Mismatch {
            model_id: "m".to_string(),
            got: "ab01".to_string(),
            expected: "ab02".to_string()
        })
    );
}
