use keyderive::curve::{generator, point_on_curve, scalar_mul, Point};
use keyderive::u256::U256;
use keyderive::{generate_address, generate_compressed_pubkey, generate_wif, validate_scalar, KeyError};

fn key_bytes_of_u64(v: u64) -> [u8; 32] {
    let mut k = [0u8; 32];
    k[24..32].copy_from_slice(&v.to_be_bytes());
    k
}

const GROUP_ORDER_BYTES: [u8; 32] = [
    0xFF, 0xFF, 0xFF, 0xFF, 0xFF, 0xFF, 0xFF, 0xFF, 0xFF, 0xFF, 0xFF, 0xFF, 0xFF, 0xFF, 0xFF,
    0xFE, 0xBA, 0xAE, 0xDC, 0xE6, 0xAF, 0x48, 0xA0, 0x3B, 0xBF, 0xD2, 0x5E, 0x8C, 0xD0, 0x36,
    0x41, 0x41,
];

#[test]
fn known_vector_scalar_one_pubkey() {
    let key = key_bytes_of_u64(1);
    let pk = generate_compressed_pubkey(&key).expect("scalar one is valid");
    assert_eq!(
        hex::encode(pk).to_uppercase(),
        "0279BE667EF9DCBBAC55A06295CE870B07029BFCDB2DCE28D959F2815B16F81798"
    );
}

#[test]
fn known_vector_scalar_one_wif() {
    let key = key_bytes_of_u64(1);
    assert_eq!(
        generate_wif(&key),
        "KwDiBf89QgGbjEhKnhXJuH7LrciVrZi3qYjgd9M7rFU73sVHnoWn"
    );
}

#[test]
fn known_vector_scalar_one_address() {
    let key = key_bytes_of_u64(1);
    let pk = generate_compressed_pubkey(&key).expect("scalar one is valid");
    assert_eq!(generate_address(&pk), "1BgGZ9tcN4rm9KBzDn7KprQz87SZ26SAMH");
}

#[test]
fn scalar_one_yields_generator_point() {
    let one = U256 { l0: 1, l1: 0, l2: 0, l3: 0 };
    let pt = scalar_mul(&one);
    let g = generator();
    assert!(!pt.infinity);
    assert_eq!(pt.x, g.x);
    assert_eq!(pt.y, g.y);
}

#[test]
fn small_scalars_yield_curve_points() {
    for v in [1u64, 2, 3, 5, 7] {
        let k = U256 { l0: v, l1: 0, l2: 0, l3: 0 };
        let pt: Point = scalar_mul(&k);
        assert!(!pt.infinity, "scalar {} gave the identity", v);
        assert!(point_on_curve(&pt), "scalar {} left the curve", v);
    }
}

#[test]
fn validator_accepts_one_and_order_minus_one() {
    assert_eq!(validate_scalar(&key_bytes_of_u64(1)), Ok(()));
    let mut below = GROUP_ORDER_BYTES;
    below[31] = 0x40;
    assert_eq!(validate_scalar(&below), Ok(()));
}

#[test]
fn validator_rejects_zero() {
    assert_eq!(
        validate_scalar(&[0u8; 32]),
        Err(KeyError::ScalarOutOfRange)
    );
}

#[test]
fn validator_rejects_group_order() {
    assert_eq!(
        validate_scalar(&GROUP_ORDER_BYTES),
        Err(KeyError::ScalarOutOfRange)
    );
}

#[test]
fn validator_rejects_above_group_order() {
    let mut above = GROUP_ORDER_BYTES;
    above[31] = 0x42;
    assert_eq!(validate_scalar(&above), Err(KeyError::ScalarOutOfRange));
    assert_eq!(validate_scalar(&[0xFF; 32]), Err(KeyError::ScalarOutOfRange));
}

#[test]
fn pubkey_is_none_for_invalid_scalar() {
    assert_eq!(generate_compressed_pubkey(&[0u8; 32]), None);
    assert_eq!(generate_compressed_pubkey(&GROUP_ORDER_BYTES), None);
}

#[test]
fn distinct_small_scalars_compress_differently() {
    let pk2 = generate_compressed_pubkey(&key_bytes_of_u64(2)).unwrap();
    let pk3 = generate_compressed_pubkey(&key_bytes_of_u64(3)).unwrap();
    assert_ne!(pk2, pk3);
}

#[test]
fn end_to_end_scalar_one() {
    let input = "0000000000000000000000000000000000000000000000000000000000000001";
    let bytes = hex::decode(input).unwrap();
    assert_eq!(bytes.len(), 32);
    let mut key = [0u8; 32];
    key.copy_from_slice(&bytes);
    assert_eq!(validate_scalar(&key), Ok(()));
    let pk = generate_compressed_pubkey(&key).unwrap();
    assert_eq!(
        hex::encode(pk).to_uppercase(),
        "0279BE667EF9DCBBAC55A06295CE870B07029BFCDB2DCE28D959F2815B16F81798"
    );
    assert_eq!(
        generate_wif(&key),
        "KwDiBf89QgGbjEhKnhXJuH7LrciVrZi3qYjgd9M7rFU73sVHnoWn"
    );
    assert_eq!(generate_address(&pk), "1BgGZ9tcN4rm9KBzDn7KprQz87SZ26SAMH");
}
