//! Packing of bits and hard decisions.

use syndrome::bits::{
    bits_to_bytes, bits_to_bytes_vec, bytes_to_bits, bytes_to_bits_vec, hard_decision,
};
use syndrome::error::FecError;

fn patterns(values: &[f32]) -> Vec<u32> {
    values.iter().map(|v| v.to_bits()).collect()
}

#[test]
fn round_trip_every_byte_value() {
    let bytes: Vec<u8> = (0..=255).collect();
    let bits = bytes_to_bits_vec(&bytes);
    assert_eq!(bits.len(), 256 * 8);
    assert!(bits.iter().all(|&b| b <= 1));
    assert_eq!(bits_to_bytes_vec(&bits).unwrap(), bytes);
}

#[test]
fn msb_first_order_is_exact() {
    let mut bits = [0u8; 8];
    bytes_to_bits(&[0x01], &mut bits).unwrap();
    assert_eq!(bits, [0, 0, 0, 0, 0, 0, 0, 1]);
    bytes_to_bits(&[0x80], &mut bits).unwrap();
    assert_eq!(bits, [1, 0, 0, 0, 0, 0, 0, 0]);
}

#[test]
fn unpack_rejects_wrong_size_buffer_both_directions() {
    let mut too_small = [0u8; 7];
    let mut too_large = [0u8; 9];
    assert!(matches!(
        bytes_to_bits(&[0xAA], &mut too_small),
        Err(FecError::BufferTooSmall {
            required: 8,
            provided: 7
        })
    ));
    assert!(matches!(
        bytes_to_bits(&[0xAA], &mut too_large),
        Err(FecError::BufferTooSmall {
            required: 8,
            provided: 9
        })
    ));
}

#[test]
fn pack_rejects_non_multiple_of_8() {
    let mut bytes = [0u8; 1];
    assert!(matches!(
        bits_to_bytes(&[1, 0, 1], &mut bytes),
        Err(FecError::InvalidParam(_))
    ));
}

#[test]
fn pack_rejects_non_bit_values() {
    let mut bytes = [0u8; 1];
    assert!(matches!(
        bits_to_bytes(&[1, 0, 1, 2, 0, 0, 0, 0], &mut bytes),
        Err(FecError::InvalidParam(_))
    ));
    assert!(bits_to_bytes_vec(&[0xFF; 8]).is_err());
}

#[test]
fn pack_rejects_wrong_output_size() {
    let mut bytes = [0u8; 2];
    assert!(matches!(
        bits_to_bytes(&[0u8; 8], &mut bytes),
        Err(FecError::BufferTooSmall {
            required: 1,
            provided: 2
        })
    ));
}

#[test]
fn hard_decision_sign_convention() {
    let mut bits = [9u8; 5];
    hard_decision(
        &patterns(&[1.0, -1.0, 0.0, -0.0, f32::MIN_POSITIVE]),
        &mut bits,
    )
    .unwrap();
    assert_eq!(bits, [0, 1, 0, 0, 0]);
}

#[test]
fn hard_decision_rejects_mismatched_lengths() {
    let mut bits = [0u8; 3];
    assert!(matches!(
        hard_decision(&patterns(&[1.0, -1.0]), &mut bits),
        Err(FecError::BufferTooSmall { .. })
    ));
}

#[test]
fn empty_inputs_are_valid() {
    let mut none: [u8; 0] = [];
    bytes_to_bits(&[], &mut none).unwrap();
    bits_to_bytes(&[], &mut none).unwrap();
    hard_decision(&[], &mut none).unwrap();
    assert!(bytes_to_bits_vec(&[]).is_empty());
    assert!(bits_to_bytes_vec(&[]).unwrap().is_empty());
}

#[test]
fn hard_decision_of_special_values() {
    let values = [f32::NEG_INFINITY, f32::INFINITY, f32::NAN, -f32::NAN, -1e-45];
    let mut bits = [9u8; 5];
    hard_decision(&patterns(&values), &mut bits).unwrap();
    let expected: Vec<u8> = values.iter().map(|&v| (v < 0.0) as u8).collect();
    assert_eq!(bits.to_vec(), expected);
    assert_eq!(bits, [1, 0, 0, 0, 1]);
}
