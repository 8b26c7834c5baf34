//! Content digests.

use crate::text;
use vstd::prelude::*;

verus! {

/// The SHA-256 digest that `sha2::Sha256::digest` computes.
pub uninterp spec fn sha256(bytes: Seq<u8>) -> Seq<u8>;

/// `sha2::Sha256::digest`: 32 bytes, which are [`sha256`] of the input.
#[verifier::external_body]
fn sha256_digest(bytes: &[u8]) -> (r: [u8; 32])
    ensures
        r@ == sha256(bytes@),
{
    <sha2::Sha256 as sha2::Digest>::digest(bytes).into()
}

/// The SHA-256 digest of the bytes.
pub fn digest(bytes: &[u8]) -> (r: [u8; 32])
    ensures
        r@ == sha256(bytes@),
{
    sha256_digest(bytes)
}

/// The SHA-256 digest of the bytes as lower-case hexadecimal digits.
pub fn digest_hex(bytes: &[u8]) -> (r: String)
    ensures
        r@ == text::hex(sha256(bytes@)),
{
    let digest = sha256_digest(bytes);
    text::hex_text(&digest)
}

} // verus!
