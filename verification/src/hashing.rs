//! The two digests of the pipeline, named abstractly and computed by
//! outside crates: SHA-256 and RIPEMD-160, and the derived forms the
//! pipeline uses, the double-SHA-256 checksum and the 20-byte key hash.

use vstd::prelude::*;
use sha2::Digest;

verus! {

/// The SHA-256 digest of a byte sequence; a pure function of the input,
/// 32 bytes long.
pub uninterp spec fn sha256_of(data: Seq<u8>) -> Seq<u8>;

/// The RIPEMD-160 digest of a byte sequence; a pure function of the input,
/// 20 bytes long.
pub uninterp spec fn ripemd160_of(data: Seq<u8>) -> Seq<u8>;

/// Relies on sha2::Sha256 (FIPS 180-4 SHA-256): the digest is a function of
/// the input bytes alone and is exactly 32 bytes long.
#[verifier::external_body]
fn sha256(data: &[u8]) -> (r: Vec<u8>)
    ensures
        r@ == sha256_of(data@),
        r@.len() == 32,
{
    sha2::Sha256::digest(data).to_vec()
}

/// Relies on ripemd::Ripemd160 (ISO/IEC 10118-3 RIPEMD-160): the digest is
/// a function of the input bytes alone and is exactly 20 bytes long.
#[verifier::external_body]
fn ripemd160(data: &[u8]) -> (r: Vec<u8>)
    ensures
        r@ == ripemd160_of(data@),
        r@.len() == 20,
{
    ripemd::Ripemd160::digest(data).to_vec()
}

/// The 20-byte key hash: RIPEMD-160 of SHA-256.
pub open spec fn hash160_of(data: Seq<u8>) -> Seq<u8> {
    ripemd160_of(sha256_of(data))
}

/// Computes the 20-byte key hash of a byte string.
pub fn hash160(data: &[u8]) -> (r: Vec<u8>)
    ensures
        r@ == hash160_of(data@),
        r@.len() == 20,
{
    let first = sha256(data);
    ripemd160(first.as_slice())
}

/// The 4-byte checksum: the first four bytes of double SHA-256.
pub open spec fn checksum_of(payload: Seq<u8>) -> Seq<u8> {
    sha256_of(sha256_of(payload)).take(4)
}

/// Computes the 4-byte checksum of a payload.
pub fn checksum(payload: &[u8]) -> (r: Vec<u8>)
    ensures
        r@ == checksum_of(payload@),
        r@.len() == 4,
{
    let first = sha256(payload);
    let second = sha256(first.as_slice());
    let mut out: Vec<u8> = Vec::new();
    out.push(second[0]);
    out.push(second[1]);
    out.push(second[2]);
    out.push(second[3]);
    proof {
        assert(out@ =~= second@.take(4));
    }
    out
}

} // verus!
