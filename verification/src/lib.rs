//! Derivation of the canonical artifacts of a legacy-format cryptocurrency
//! wallet from a 256-bit secret: the compressed secp256k1 public key, the
//! checksummed private-key encoding (WIF), and the checksummed
//! public-key-hash address (P2PKH).

use vstd::prelude::*;

pub mod base58;
pub mod curve;
pub mod field;
pub mod hashing;
pub mod u256;

verus! {

/// Big-endian value of a byte sequence.
pub open spec fn be_val(s: Seq<u8>) -> nat
    decreases s.len(),
{
    if s.len() == 0 {
        0
    } else {
        be_val(s.drop_last()) * 256 + (s.last() as nat)
    }
}

/// The one failure the pipeline itself can produce: the secret, read as a
/// big-endian integer, is zero or not below the group order.
#[derive(Clone, Copy, Debug, PartialEq, Eq, Structural)]
pub enum KeyError {
    ScalarOutOfRange,
}

/// Whether 32 secret bytes form a valid scalar: `1 <= value < n`.
pub open spec fn scalar_in_range(s: Seq<u8>) -> bool {
    1 <= be_val(s) && be_val(s) < curve::n_val()
}

/// Validates the 32 secret bytes as a curve scalar; rejects zero and any
/// value not below the group order.
pub fn validate_scalar(private_key_bytes: &[u8; 32]) -> (r: Result<(), KeyError>)
    ensures
        r is Ok <==> scalar_in_range(private_key_bytes@),
        r is Err ==> r == Result::<(), KeyError>::Err(KeyError::ScalarOutOfRange),
{
    let k = u256::u256_from_be_bytes(private_key_bytes);
    if u256::u256_is_zero(&k) {
        return Err(KeyError::ScalarOutOfRange);
    }
    if !u256::u256_lt(&k, &curve::n_u256()) {
        return Err(KeyError::ScalarOutOfRange);
    }
    Ok(())
}

/// The compressed public key bytes of a valid scalar, when its multiple of
/// the generator is affine.
pub open spec fn pubkey_bytes(s: Seq<u8>) -> Seq<u8> {
    curve::compress_view(curve::spec_scalar_mul(be_val(s)))
}

/// Derives the 33-byte compressed public key of the secret: the parity
/// prefix and the x-coordinate of the secret's multiple of the generator.
/// Yields `None` exactly when the scalar is out of range or its multiple
/// of the generator degenerates to the identity (which a scalar in range
/// never produces, the group order being the order of the generator).
pub fn generate_compressed_pubkey(private_key_bytes: &[u8; 32]) -> (r: Option<[u8; 33]>)
    ensures
        r is Some <==> (scalar_in_range(private_key_bytes@) && curve::spec_scalar_mul(
            be_val(private_key_bytes@),
        ) is Affine),
        r matches Some(pk) ==> pk@ == pubkey_bytes(private_key_bytes@),
{
    let k = u256::u256_from_be_bytes(private_key_bytes);
    if u256::u256_is_zero(&k) {
        return None;
    }
    if !u256::u256_lt(&k, &curve::n_u256()) {
        return None;
    }
    let pt = curve::scalar_mul(&k);
    if pt.infinity {
        return None;
    }
    Some(curve::compress(&pt))
}

/// The character sequence of the WIF encoding of 32 secret bytes: the
/// mainnet version byte, the secret, the compressed-key flag, checksummed
/// and written in Base58.
pub open spec fn wif_chars(s: Seq<u8>) -> Seq<char> {
    base58::b58check_chars(seq![0x80u8] + s + seq![0x01u8])
}

/// Encodes the secret in Wallet Import Format: version byte `0x80`, the 32
/// secret bytes, the compression flag `0x01`, then checksummed Base58.
pub fn generate_wif(private_key_bytes: &[u8; 32]) -> (r: String)
    ensures
        r@ == wif_chars(private_key_bytes@),
{
    let mut payload: Vec<u8> = Vec::new();
    payload.push(0x80);
    let mut i: usize = 0;
    while i < 32
        invariant
            i <= 32,
            payload@ == seq![0x80u8] + private_key_bytes@.take(i as int),
        decreases 32 - i,
    {
        payload.push(private_key_bytes[i]);
        i = i + 1;
        proof {
            assert(seq![0x80u8] + private_key_bytes@.take(i as int) =~= (seq![0x80u8]
                + private_key_bytes@.take(i - 1)).push(private_key_bytes@[i - 1]));
        }
    }
    payload.push(0x01);
    proof {
        assert(payload@ =~= seq![0x80u8] + private_key_bytes@ + seq![0x01u8]);
    }
    base58::b58check_encode(&payload)
}

/// The character sequence of the address encoding of a 33-byte compressed
/// public key: the mainnet version byte and the 20-byte key hash,
/// checksummed and written in Base58.
pub open spec fn address_chars(pk: Seq<u8>) -> Seq<char> {
    base58::b58check_chars(seq![0x00u8] + hashing::hash160_of(pk))
}

/// Encodes the pay-to-public-key-hash address of a compressed public key:
/// version byte `0x00`, the 20-byte key hash, then checksummed Base58.
pub fn generate_address(compressed_pubkey: &[u8; 33]) -> (r: String)
    ensures
        r@ == address_chars(compressed_pubkey@),
{
    let h = hashing::hash160(compressed_pubkey.as_slice());
    let mut payload: Vec<u8> = Vec::new();
    payload.push(0x00);
    let mut i: usize = 0;
    while i < h.len()
        invariant
            i <= h@.len(),
            h@ == hashing::hash160_of(compressed_pubkey@),
            h@.len() == 20,
            payload@ == seq![0x00u8] + h@.take(i as int),
        decreases h@.len() - i,
    {
        payload.push(h[i]);
        i = i + 1;
        proof {
            assert(seq![0x00u8] + h@.take(i as int) =~= (seq![0x00u8] + h@.take(i - 1)).push(
                h@[i - 1],
            ));
        }
    }
    proof {
        assert(payload@ =~= seq![0x00u8] + h@);
    }
    base58::b58check_encode(&payload)
}

} // verus!
