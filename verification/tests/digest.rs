use oryx::digest::Digest;
use oryx::error::OryxError;
use oryx::hashing::compute_digest;
use oryx::num::{i64_to_dec, u64_to_dec};

const SWAKOPMUND_HASH: &str = "8aad87ae61d3df48ff6447ca5f5b8670b9d9d080dbbf735be109530a445330e3";

#[test]
fn digest_parse_canonical() {
    let d = Digest::from_str("aaaa:5").unwrap();
    assert_eq!(d.hash(), "aaaa");
    assert_eq!(d.size_bytes(), 5);
}

#[test]
fn digest_parse_rejects_embedded_match() {
    // The whole input must match: a non-hex prefix before a well-formed
    // tail is a deviation and fails.
    assert!(Digest::from_str("africa:10").is_err());
    assert!(Digest::from_str(" aaaa:5").is_err());
    assert!(Digest::from_str("aaaa:5 ").is_err());
    assert!(Digest::from_str("aaaa:5:6").is_err());
    assert!(Digest::from_str("AAAA:5").is_err());
}

#[test]
fn digest_parse_rejects_unmatched_text() {
    let r = Digest::from_str("not a digest");
    assert!(matches!(r, Err(OryxError::InvalidDigest(_))));
}

#[test]
fn digest_parse_rejects_missing_size() {
    assert!(Digest::from_str("abcdef:").is_err());
    assert!(Digest::from_str("abcdef").is_err());
    assert!(Digest::from_str("").is_err());
}

#[test]
fn digest_parse_rejects_overflowing_size() {
    let r = Digest::from_str("aa:99999999999999999999");
    assert!(r.is_err());
}

#[test]
fn digest_text_round_trip() {
    let d = Digest::new(String::from(SWAKOPMUND_HASH), 10);
    let text = d.to_text();
    assert_eq!(text, format!("{}:10", SWAKOPMUND_HASH));
    let parsed = Digest::from_str(&text).unwrap();
    assert!(parsed == d);
}

#[test]
fn digest_text_of_small_digest() {
    let d = Digest::new(String::from("aaaa"), 5);
    assert_eq!(d.to_text(), "aaaa:5");
}

#[test]
fn compute_digest_of_known_content() {
    // SHA-256 of b"swakopmund", in lowercase hex, with the exact length.
    let d = compute_digest(b"swakopmund");
    assert_eq!(d.hash(), SWAKOPMUND_HASH);
    assert_eq!(d.size_bytes(), 10);
}

#[test]
fn compute_digest_of_empty_content() {
    let d = compute_digest(b"");
    assert_eq!(
        d.hash(),
        "e3b0c44298fc1c149afbf4c8996fb92427ae41e4649b934ca495991b7852b855"
    );
    assert_eq!(d.size_bytes(), 0);
}

#[test]
fn decimal_formatting() {
    assert_eq!(u64_to_dec(0), "0");
    assert_eq!(u64_to_dec(7), "7");
    assert_eq!(u64_to_dec(1234567890), "1234567890");
    assert_eq!(i64_to_dec(-42), "-42");
    assert_eq!(i64_to_dec(i64::MIN), "-9223372036854775808");
}
