//! The 7-bit SHA-256 checksum that guards the 128 data bits.
use sha2::{Digest, Sha256};
use vstd::prelude::*;

verus! {

/// The SHA-256 digest of `data`, as computed by the `sha2` crate.
pub uninterp spec fn sha256_digest_spec(data: Seq<u8>) -> Seq<u8>;

/// Trusted: `<sha2::Sha256 as digest::Digest>::digest`, which feeds `data`
/// to a fresh hasher and finalizes it. The contract claims that the digest
/// depends on `data` alone and that it is 32 bytes long (the output size
/// `U32` of `Sha256`).
#[verifier::external_body]
fn sha256_digest(data: &[u8]) -> (r: Vec<u8>)
    ensures
        r@ == sha256_digest_spec(data@),
        r@.len() == 32,
{
    Sha256::digest(data).to_vec()
}

/// The checksum of `data`: the first 7 bits (most significant first) of
/// its SHA-256 digest.
pub open spec fn checksum_spec(data: Seq<u8>) -> u8 {
    (sha256_digest_spec(data)[0] / 2) as u8
}

/// Computes the 7-bit checksum of `data`: the top 7 bits of the first byte
/// of its SHA-256 digest.
pub fn calculate_checksum(data: &[u8]) -> (r: u8)
    ensures
        r == checksum_spec(data@),
        r == sha256_digest_spec(data@)[0] / 2,
        r < 128,
{
    let digest = sha256_digest(data);
    let first = digest[0];
    let r = (first >> 1) & 0x7F;
    assert(r == first / 2 && r < 128) by (bit_vector)
        requires
            r == (first >> 1) & 0x7F,
    ;
    r
}

/// The checksum is the first 7 bits of the SHA-256 digest of exactly the
/// given bytes: the first digest byte is twice the checksum, or twice it
/// plus one.
pub proof fn lemma_checksum_is_digest_top_bits(data: Seq<u8>)
    ensures
        checksum_spec(data) < 128,
        sha256_digest_spec(data)[0] as int == 2 * checksum_spec(data) as int
            || sha256_digest_spec(data)[0] as int == 2 * checksum_spec(data) as int + 1,
{
}

} // verus!
