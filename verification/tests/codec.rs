use keyderive::base58::b58check_encode;
use keyderive::hashing::{checksum, hash160};

const ALPHABET: &[u8; 58] = b"123456789ABCDEFGHJKLMNPQRSTUVWXYZabcdefghijkmnopqrstuvwxyz";

/// Plain reference decoder for checking round trips: leading '1's become
/// zero bytes, the rest is read as a base-58 big-endian integer.
fn b58decode(s: &str) -> Vec<u8> {
    let chars: Vec<u8> = s.bytes().collect();
    let zeros = chars.iter().take_while(|&&c| c == b'1').count();
    let mut value: Vec<u8> = Vec::new();
    for &c in &chars[zeros..] {
        let d = ALPHABET.iter().position(|&a| a == c).expect("alphabet char") as u32;
        let mut carry = d;
        for byte in value.iter_mut().rev() {
            let cur = (*byte as u32) * 58 + carry;
            *byte = (cur % 256) as u8;
            carry = cur / 256;
        }
        while carry > 0 {
            value.insert(0, (carry % 256) as u8);
            carry /= 256;
        }
    }
    let mut out = vec![0u8; zeros];
    out.extend_from_slice(&value);
    out
}

#[test]
fn checksum_of_empty_input_is_known() {
    let cs = checksum(&[]);
    assert_eq!(cs, vec![0x5D, 0xF6, 0xE0, 0xE2]);
}

#[test]
fn hash160_of_generator_pubkey_is_known() {
    let pk = hex::decode("0279be667ef9dcbbac55a06295ce870b07029bfcdb2dce28d959f2815b16f81798")
        .unwrap();
    let h = hash160(&pk);
    assert_eq!(hex::encode(h), "751e76e8199196d454941c45d1b3a323f1433bd6");
}

#[test]
fn encode_roundtrips_address_length_payload() {
    let mut payload = vec![0x00u8];
    payload.extend_from_slice(
        &hex::decode("751e76e8199196d454941c45d1b3a323f1433bd6").unwrap(),
    );
    assert_eq!(payload.len(), 21);
    let encoded = b58check_encode(&payload);
    let decoded = b58decode(&encoded);
    let cs = checksum(&payload);
    let mut expected = payload.clone();
    expected.extend_from_slice(&cs);
    assert_eq!(decoded, expected);
    let recomputed = checksum(&decoded[..decoded.len() - 4]);
    assert_eq!(&decoded[decoded.len() - 4..], &recomputed[..]);
}

#[test]
fn encode_roundtrips_wif_length_payload() {
    let mut payload = vec![0x80u8];
    payload.extend_from_slice(&[0x11u8; 32]);
    payload.push(0x01);
    assert_eq!(payload.len(), 34);
    let encoded = b58check_encode(&payload);
    let decoded = b58decode(&encoded);
    let cs = checksum(&payload);
    let mut expected = payload.clone();
    expected.extend_from_slice(&cs);
    assert_eq!(decoded, expected);
    let recomputed = checksum(&decoded[..decoded.len() - 4]);
    assert_eq!(&decoded[decoded.len() - 4..], &recomputed[..]);
}

#[test]
fn tampering_any_payload_byte_breaks_the_checksum() {
    let mut payload = vec![0x80u8];
    payload.extend_from_slice(&[0x2Au8; 32]);
    payload.push(0x01);
    let cs = checksum(&payload);
    for i in 0..payload.len() {
        let mut tampered = payload.clone();
        tampered[i] ^= 0x01;
        assert_ne!(
            checksum(&tampered),
            cs,
            "tampering byte {} left the checksum unchanged",
            i
        );
    }
}

#[test]
fn leading_zero_bytes_become_leading_ones() {
    let payload = vec![0x00u8, 0x00, 0x00, 0x07, 0x5B];
    let encoded = b58check_encode(&payload);
    let ones = encoded.bytes().take_while(|&c| c == b'1').count();
    assert_eq!(ones, 3);
}

#[test]
fn no_leading_zero_no_leading_one() {
    let payload = vec![0x80u8, 0x42, 0x99];
    let encoded = b58check_encode(&payload);
    assert!(!encoded.starts_with('1'));
}
