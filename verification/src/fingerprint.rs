//! SHA-256 digests and their lowercase hexadecimal text.

use vstd::prelude::*;

use sha2::{Digest, Sha256};

verus! {

/// The SHA-256 digest of `bytes`.
pub uninterp spec fn sha256_of(bytes: Seq<u8>) -> Seq<u8>;

/// Calls `sha2::Sha256::digest`. Trusted: the result is the SHA-256 digest of the bytes,
/// which depends on the bytes alone, and it is 32 bytes long (the hasher's output size).
#[verifier::external_body]
pub(crate) fn sha256_digest(bytes: &[u8]) -> (d: Vec<u8>)
    ensures
        d@ == sha256_of(bytes@),
        d@.len() == 32,
{
    Sha256::digest(bytes).to_vec()
}

/// The lowercase hexadecimal digit of a value below 16.
pub open spec fn hex_digit(v: int) -> char {
    if v < 10 {
        ('0' as int + v) as char
    } else {
        ('a' as int + (v - 10)) as char
    }
}

/// Each byte written as two lowercase hexadecimal digits, high digit first.
pub open spec fn hex_text(bytes: Seq<u8>) -> Seq<char>
    decreases bytes.len(),
{
    if bytes.len() == 0 {
        Seq::empty()
    } else {
        hex_text(bytes.drop_last()) + seq![hex_digit(bytes.last() as int / 16), hex_digit(bytes.last() as int % 16)]
    }
}

/// Calls `hex::encode`. Trusted: the result writes each byte as two lowercase hexadecimal
/// digits, high digit first, as the crate documents.
#[verifier::external_body]
pub(crate) fn hex_encode(bytes: &[u8]) -> (s: String)
    ensures
        s@ == hex_text(bytes@),
{
    hex::encode(bytes)
}

/// The SHA-256 digest of `bytes` as 64 lowercase hexadecimal digits.
pub fn sha256(bytes: &[u8]) -> (s: String)
    ensures
        s@ == hex_text(sha256_of(bytes@)),
{
    let digest = sha256_digest(bytes);
    hex_encode(digest.as_slice())
}

} // verus!
