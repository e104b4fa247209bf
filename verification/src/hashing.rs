//! Content hashing: SHA-256 through the `sha2` crate, lowercase hex text
//! through `base16ct`, and the digest every blob is addressed by.

use vstd::prelude::*;
use crate::digest::{Digest, DigestView, digest_valid, is_hex_char};

verus! {

/// Byte `i` of the SHA-256 digest of a byte sequence; a function of the
/// bytes alone, named here and computed only by the `sha2` crate.
pub uninterp spec fn sha256_byte(data: Seq<u8>, i: int) -> u8;

/// The SHA-256 digest of a byte sequence: always exactly 32 bytes.
pub open spec fn sha256_of(data: Seq<u8>) -> Seq<u8> {
    Seq::new(32, |i: int| sha256_byte(data, i))
}

/// The lowercase hexadecimal character for a nibble in `0..16`.
pub open spec fn hex_char_of_nibble(n: int) -> char {
    if n == 0 { '0' }
    else if n == 1 { '1' }
    else if n == 2 { '2' }
    else if n == 3 { '3' }
    else if n == 4 { '4' }
    else if n == 5 { '5' }
    else if n == 6 { '6' }
    else if n == 7 { '7' }
    else if n == 8 { '8' }
    else if n == 9 { '9' }
    else if n == 10 { 'a' }
    else if n == 11 { 'b' }
    else if n == 12 { 'c' }
    else if n == 13 { 'd' }
    else if n == 14 { 'e' }
    else { 'f' }
}

/// Lowercase hex text of a byte sequence: two digits per byte, high nibble
/// first.
pub open spec fn hex_lower_of(bytes: Seq<u8>) -> Seq<char> {
    Seq::new(
        bytes.len() * 2,
        |i: int|
            if i % 2 == 0 {
                hex_char_of_nibble(bytes[i / 2] as int / 16)
            } else {
                hex_char_of_nibble(bytes[i / 2] as int % 16)
            },
    )
}

/// Relies on `sha2::Sha256::digest`: the SHA-256 digest of the input, which
/// is always 32 bytes and depends on the input bytes alone.
#[verifier::external_body]
pub fn sha256(data: &[u8]) -> (r: Vec<u8>)
    ensures
        r@ == sha256_of(data@),
        r@.len() == 32,
        forall|i: int| 0 <= i < 32 ==> r@[i] == sha256_byte(data@, i),
{
    <sha2::Sha256 as sha2::Digest>::digest(data).to_vec()
}

/// Relies on `base16ct::lower::encode_string`: two lowercase hex digits per
/// input byte, high nibble first; panics only when the input is longer than
/// half the address space.
#[verifier::external_body]
pub fn hex_lower(data: &[u8]) -> (r: String)
    requires
        data@.len() <= usize::MAX as int / 2,
    ensures
        r@ == hex_lower_of(data@),
{
    base16ct::lower::encode_string(data)
}

/// The digest under which a byte sequence is stored: its SHA-256 hash in
/// lowercase hex, and its exact length.
pub open spec fn spec_digest_of(data: Seq<u8>) -> DigestView {
    DigestView { hash: hex_lower_of(sha256_of(data)), size_bytes: data.len() as int }
}

/// Computes the content digest of a byte sequence.
pub fn compute_digest(data: &[u8]) -> (d: Digest)
    requires
        data@.len() <= i64::MAX as int,
    ensures
        d@ == spec_digest_of(data@),
{
    let hash_bytes = sha256(data);
    let hex = hex_lower(hash_bytes.as_slice());
    Digest::new(hex, data.len() as i64)
}

/// Every computed content digest is well formed: its hash is 64 lowercase
/// hex characters and its size is the blob's length.
pub proof fn lemma_digest_of_valid(data: Seq<u8>)
    requires
        0 <= data.len() <= i64::MAX as int,
    ensures
        digest_valid(spec_digest_of(data)),
        spec_digest_of(data).hash.len() == 64,
        spec_digest_of(data).size_bytes == data.len(),
{
    let h = hex_lower_of(sha256_of(data));
    assert forall|i: int| 0 <= i < h.len() implies is_hex_char(#[trigger] h[i]) by {
        let b = sha256_of(data)[i / 2] as int;
        assert(0 <= b < 256);
        if i % 2 == 0 {
            assert(0 <= b / 16 < 16);
            assert(h[i] == hex_char_of_nibble(b / 16));
        } else {
            assert(0 <= b % 16 < 16);
            assert(h[i] == hex_char_of_nibble(b % 16));
        }
    }
}

} // verus!
