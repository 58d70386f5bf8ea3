use bls12_381::Scalar;
use range_proof::utils::{slice_to_array32, slice_to_array8, to_bits, to_raw_bytes, u64_from_le, words_from_le_bytes};

#[test]
fn test_to_raw_bytes() {
    let three = Scalar::from(3 as u64);
    let three_raw_bytes = to_raw_bytes(&three);
    assert_eq!(three_raw_bytes, [3, 0, 0, 0]);

    let expected_raw_bytes = [
        0xffffffff00000000,
        0x53bda402fffe5bfe,
        0x3339d80809a1d805,
        0x73eda753299d7d48,
    ];
    let scalar = Scalar::from_raw(expected_raw_bytes);
    let raw_bytes = to_raw_bytes(&scalar);
    assert_eq!(raw_bytes, expected_raw_bytes);
}

#[test]
fn test_slice_to_array() {
    let vector = vec![0u8, 1u8, 0u8, 1u8, 0u8, 1u8, 0u8, 1u8];
    let slice = vector.as_slice();
    let slice_8: [u8; 8] = slice_to_array8(&slice);
    assert_eq!(slice_8, [0u8, 1, 0, 1, 0, 1, 0, 1]);

    let vector = vec![1u8; 32];
    let slice = vector.as_slice();
    let slice_32: [u8; 32] = slice_to_array32(&slice);
    assert_eq!(slice_32, [1u8; 32]);
}

#[test]
fn test_to_bits() {
    let bits = to_bits(&Scalar::from(5u64));
    assert_eq!(bits.get(0), Some(true));
    assert_eq!(bits.get(1), Some(false));
    assert_eq!(bits.get(2), Some(true));
    for i in 3..bits.len() {
        assert_eq!(bits.get(i), Some(false));
    }

    let bits = to_bits(&Scalar::from(12u64));
    assert_eq!(bits.get(0), Some(false));
    assert_eq!(bits.get(1), Some(false));
    assert_eq!(bits.get(2), Some(true));
    assert_eq!(bits.get(3), Some(true));
    assert_eq!(bits.get(4), Some(false));
    for i in 5..bits.len() {
        assert_eq!(bits.get(i), Some(false));
    }
}

#[test]
fn to_bits_covers_every_byte() {
    let bits = to_bits(&Scalar::from(1u64 << 63));
    assert_eq!(bits.len(), 256);
    assert_eq!(bits.get(63), Some(true));
    assert_eq!(bits.get(62), Some(false));
    assert_eq!(bits.get(256), None);
}

#[test]
fn u64_from_le_reads_little_endian() {
    assert_eq!(u64_from_le([1, 2, 3, 4, 5, 6, 7, 8]), 0x0807060504030201);
    assert_eq!(u64_from_le([0xff; 8]), u64::MAX);
}

#[test]
fn words_split_lowest_first() {
    let mut bytes = [0u8; 32];
    bytes[0] = 7;
    bytes[8] = 1;
    bytes[31] = 0x80;
    assert_eq!(words_from_le_bytes(&bytes), [7, 1, 0, 0x8000000000000000]);
}

#[test]
fn bits_to_vec_matches_get() {
    let bits = to_bits(&Scalar::from(0b1011u64));
    let v = bits.to_vec();
    assert_eq!(v.len(), 256);
    assert_eq!(&v[..5], &[true, true, false, true, false]);
    for i in 0..v.len() {
        assert_eq!(bits.get(i), Some(v[i]));
    }
}
