use quadratic::codec::decode_uint256;
use quadratic::codec::encode_uint256;
use quadratic::u256::U256;

fn max() -> U256 {
    U256 { limb0: u64::MAX, limb1: u64::MAX, limb2: u64::MAX, limb3: u64::MAX }
}

#[test]
fn add_wraps_around() {
    let r = max().wrapping_add(U256::from_u64(1));
    assert_eq!(r, U256::zero());
    let r2 = max().wrapping_add(U256::from_u64(5));
    assert_eq!(r2, U256::from_u64(4));
}

#[test]
fn add_carries_across_limbs() {
    let a = U256 { limb0: u64::MAX, limb1: 0, limb2: 0, limb3: 0 };
    let r = a.wrapping_add(U256::from_u64(1));
    assert_eq!(r, U256 { limb0: 0, limb1: 1, limb2: 0, limb3: 0 });
}

#[test]
fn mul_small_values() {
    let r = U256::from_u64(3).wrapping_mul(U256::from_u64(4));
    assert_eq!(r, U256::from_u64(12));
}

#[test]
fn mul_carries_across_limbs() {
    // (2^64 - 1)^2 = 2^128 - 2^65 + 1
    let a = U256 { limb0: u64::MAX, limb1: 0, limb2: 0, limb3: 0 };
    let r = a.wrapping_mul(a);
    assert_eq!(r, U256 { limb0: 1, limb1: u64::MAX - 1, limb2: 0, limb3: 0 });
}

#[test]
fn mul_wraps_around() {
    // (2^256 - 1)^2 == 1 (mod 2^256)
    let r = max().wrapping_mul(max());
    assert_eq!(r, U256::from_u64(1));
}

#[test]
fn div_is_floor_division() {
    let r = U256::from_u64(100).div(U256::from_u64(7));
    assert_eq!(r, U256::from_u64(14));
    let z = U256::from_u64(3).div(U256::from_u64(7));
    assert_eq!(z, U256::zero());
}

#[test]
fn div_across_limbs() {
    // (2^128 + 2) / 2 == 2^127 + 1
    let a = U256 { limb0: 2, limb1: 0, limb2: 1, limb3: 0 };
    let r = a.div(U256::from_u64(2));
    assert_eq!(r, U256 { limb0: 1, limb1: 0x8000000000000000, limb2: 0, limb3: 0 });
}

#[test]
fn pow_squares() {
    let r = U256::from_u64(10).pow(2);
    assert_eq!(r, U256::from_u64(100));
    let one = U256::from_u64(123).pow(0);
    assert_eq!(one, U256::from_u64(1));
}

#[test]
fn scalar_encoding_is_big_endian() {
    let b = encode_uint256(&U256::from_u64(0x0102));
    assert_eq!(b.len(), 32);
    assert_eq!(&b[0..30], &[0u8; 30]);
    assert_eq!(b[30], 1);
    assert_eq!(b[31], 2);
}

#[test]
fn scalar_round_trip() {
    let x = U256 { limb0: 0x0123456789abcdef, limb1: 17, limb2: u64::MAX, limb3: 0x8000000000000001 };
    let b = encode_uint256(&x);
    let y = decode_uint256(&b).unwrap();
    assert_eq!(x, y);
}

#[test]
fn scalar_decode_wrong_length_rejected() {
    assert!(decode_uint256(&vec![0u8; 31]).is_err());
    assert!(decode_uint256(&vec![0u8; 33]).is_err());
}
