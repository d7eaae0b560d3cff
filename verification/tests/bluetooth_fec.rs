//! Bluetooth error correction.

use syndrome::bits::hard_decision;
use syndrome::bluetooth::{
    fec13_decode, fec13_encode, fec23_decode, fec23_encode, le_coded_phy_code, pattern_demap_s8,
    pattern_map_s8,
};
use syndrome::error::FecError;
use syndrome::viterbi::ViterbiDecoder;

fn bits(s: &str) -> Vec<u8> {
    s.chars()
        .filter(|c| !c.is_whitespace())
        .map(|c| match c {
            '0' => 0,
            '1' => 1,
            other => panic!("non-bit char {other:?} in test vector"),
        })
        .collect()
}

fn plus(a: u32, b: u32) -> u32 {
    (f32::from_bits(a) + f32::from_bits(b)).to_bits()
}

const AA_IN: &str = "0110 1011 0111 1101 1001 0001 0111 0001";
const AA_OUT: &str = "0011 0101 1101 0010 0111 1010 0101 1011 \
                      1001 0000 1011 1111 1000 1010 1000 1111";
const PDU_IN: &str = "0000 0000 1100 0000 0100 0010 0011 0010 1010 0010";
const PDU_OUT: &str = "0000 0000 0000 0000 1101 0100 1100 0000 0011 1011 \
                       1100 1110 1111 1101 0100 0010 0001 0001 1111 1110";
const CRC_IN: &str = "1001 0100 0101 0000 0111 0011";
const CRC_OUT: &str = "0001 1100 1000 0111 1111 1000 0111 1100 0011 0110 1000 0001";
const TERM2_OUT: &str = "0100 11";

#[test]
fn le_fec_block1_matches_spec_sample_data_both_ci_values() {
    let code = le_coded_phy_code().unwrap();

    let mut input = bits(AA_IN);
    input.extend_from_slice(&[1, 0]);
    let mut expected = bits(AA_OUT);
    expected.extend(bits("0101"));
    expected.extend(bits("001100"));
    assert_eq!(code.encode(&input), expected, "S=2 FEC block 1");

    let mut input = bits(AA_IN);
    input.extend_from_slice(&[0, 0]);
    let mut expected = bits(AA_OUT);
    expected.extend(bits("1011"));
    expected.extend(bits("110000"));
    assert_eq!(code.encode(&input), expected, "S=8 FEC block 1");
}

#[test]
fn le_fec_block2_matches_spec_sample_data() {
    let code = le_coded_phy_code().unwrap();
    let mut input = bits(PDU_IN);
    input.extend(bits(CRC_IN));
    let mut expected = bits(PDU_OUT);
    expected.extend(bits(CRC_OUT));
    expected.extend(bits(TERM2_OUT));
    assert_eq!(code.encode(&input), expected);
}

#[test]
fn le_pattern_mapper_matches_spec_symbol_stream() {
    let code = le_coded_phy_code().unwrap();
    let aa_coded = &code.encode(&bits(AA_IN))[..64];
    let mut symbols = vec![0u8; aa_coded.len() * 4];
    pattern_map_s8(aa_coded, &mut symbols).unwrap();
    let expected = bits(
        "0011 0011 1100 1100 0011 1100 0011 1100 1100 1100 0011 1100 \
         0011 0011 1100 0011 0011 1100 1100 1100 1100 0011 1100 0011 \
         0011 1100 0011 1100 1100 0011 1100 1100 1100 0011 0011 1100 \
         0011 0011 0011 0011 1100 0011 1100 1100 1100 1100 1100 1100 \
         1100 0011 0011 0011 1100 0011 1100 0011 1100 0011 0011 0011 \
         1100 1100 1100 1100",
    );
    assert_eq!(symbols, expected);
}

#[test]
fn le_pattern_demap_recovers_coded_bits() {
    let coded = bits(AA_OUT);
    let mut symbols = vec![0u8; coded.len() * 4];
    pattern_map_s8(&coded, &mut symbols).unwrap();
    let mut symbol_llr: Vec<u32> = symbols
        .iter()
        .map(|&s| if s == 0 { 4.0f32 } else { -4.0f32 }.to_bits())
        .collect();
    symbol_llr[0] = (-f32::from_bits(symbol_llr[0])).to_bits();
    let mut coded_llr = vec![0u32; coded.len()];
    pattern_demap_s8(&symbol_llr, &mut coded_llr, &plus).unwrap();
    let mut hard = vec![0u8; coded.len()];
    hard_decision(&coded_llr, &mut hard).unwrap();
    assert_eq!(hard, coded);
    assert_eq!(f32::from_bits(coded_llr[0]), 8.0);
    assert_eq!(f32::from_bits(coded_llr[1]), 16.0);
    assert_eq!(f32::from_bits(coded_llr[2]), -16.0);
}

#[test]
fn fec23_matches_all_10_spec_generator_rows() {
    const SPEC_ROWS: [&str; 10] = [
        "11010", "01101", "11100", "01110", "00111", "11001", "10110", "01011", "11111", "10101",
    ];
    for (i, parity) in SPEC_ROWS.iter().enumerate() {
        let mut info = [0u8; 10];
        info[i] = 1;
        let mut coded = [0u8; 15];
        fec23_encode(&info, &mut coded).unwrap();
        assert_eq!(&coded[..10], &info, "systematic part, row {i}");
        assert_eq!(&coded[10..], bits(parity).as_slice(), "parity, row {i}");
    }
}

#[test]
fn fec23_minimum_distance_is_4() {
    let mut min_weight = usize::MAX;
    for word in 1u16..1024 {
        let info: Vec<u8> = (0..10).map(|i| ((word >> i) & 1) as u8).collect();
        let mut coded = [0u8; 15];
        fec23_encode(&info, &mut coded).unwrap();
        let weight = coded.iter().filter(|&&b| b == 1).count();
        min_weight = min_weight.min(weight);
    }
    assert_eq!(min_weight, 4);
}

#[test]
fn fec23_corrects_singles_and_detects_doubles() {
    let mut rng_state = 0x1234_5678_9abc_def0u64;
    let mut next_info = || {
        rng_state ^= rng_state << 13;
        rng_state ^= rng_state >> 7;
        rng_state ^= rng_state << 17;
        let mut info = [0u8; 10];
        for (i, slot) in info.iter_mut().enumerate() {
            *slot = ((rng_state >> i) & 1) as u8;
        }
        info
    };

    for _ in 0..8 {
        let info = next_info();
        let mut coded = [0u8; 15];
        fec23_encode(&info, &mut coded).unwrap();

        for e in 0..15 {
            let mut rx = coded;
            rx[e] ^= 1;
            let mut out = [0u8; 10];
            let status = fec23_decode(&rx, &mut out).unwrap();
            assert_eq!(out, info, "single error at {e} must be corrected");
            assert_eq!(status.corrected_bits, 1);
            assert_eq!(status.uncorrectable_blocks, 0);
        }

        for e1 in 0..15 {
            for e2 in (e1 + 1)..15 {
                let mut rx = coded;
                rx[e1] ^= 1;
                rx[e2] ^= 1;
                let mut out = [0u8; 10];
                let status = fec23_decode(&rx, &mut out).unwrap();
                if status.uncorrectable_blocks == 0 {
                    assert_eq!(
                        out, info,
                        "double error ({e1},{e2}) neither detected nor harmless"
                    );
                }
            }
        }
    }
}

#[test]
fn fec23_clean_batch_round_trip() {
    let info: Vec<u8> = (0..50).map(|i| ((i * 7) % 3 == 0) as u8).collect();
    let mut coded = vec![0u8; 75];
    fec23_encode(&info, &mut coded).unwrap();
    let mut out = vec![0u8; 50];
    let status = fec23_decode(&coded, &mut out).unwrap();
    assert_eq!(out, info);
    assert_eq!(status.corrected_bits, 0);
    assert_eq!(status.uncorrectable_blocks, 0);
}

#[test]
fn fec13_round_trip_with_single_errors_per_triplet() {
    let info = bits("1011 0010 11");
    let mut coded = vec![0u8; 30];
    fec13_encode(&info, &mut coded).unwrap();
    for (i, t) in coded.chunks_exact_mut(3).enumerate() {
        t[i % 3] ^= 1;
    }
    let mut out = vec![0u8; 10];
    fec13_decode(&coded, &mut out).unwrap();
    assert_eq!(out, info);
}

#[test]
fn parameter_validation_rejects_bad_shapes_and_values() {
    let mut out3 = [0u8; 3];
    let mut out4 = [0u8; 4];
    assert!(fec13_encode(&[0, 1], &mut out3).is_err());
    assert!(fec13_encode(&[2], &mut out3).is_err());
    assert!(fec13_decode(&[0, 1], &mut out3).is_err());
    assert!(fec23_encode(&[0u8; 9], &mut out3).is_err());
    assert!(fec23_decode(&[0u8; 14], &mut out3).is_err());
    assert!(pattern_map_s8(&[0, 1], &mut out4).is_err());
    let mut llr1 = [0u32; 1];
    assert!(pattern_demap_s8(&[0u32; 3], &mut llr1, &plus).is_err());
}

#[test]
fn fec13_repeats_each_bit() {
    let mut out = [9u8; 6];
    fec13_encode(&[1, 0], &mut out).unwrap();
    assert_eq!(out, [1, 1, 1, 0, 0, 0]);
}

#[test]
fn demapping_tells_what_is_wrong_with_the_lengths() {
    let mut two = [0u32; 2];
    assert_eq!(
        pattern_demap_s8(&[0u32; 5], &mut two, &plus),
        Err(FecError::InvalidParam("S=8 symbol LLR length must be a multiple of 4"))
    );
    assert_eq!(
        pattern_demap_s8(&[0u32; 4], &mut two, &plus),
        Err(FecError::BufferTooSmall { required: 1, provided: 2 })
    );
}

#[test]
fn constraint_length_has_limits() {
    assert!(ViterbiDecoder::with_generators(0, 1, 1).is_err());
    assert!(ViterbiDecoder::with_generators(33, 1, 1).is_err());
    assert!(ViterbiDecoder::with_generators(32, 1, 1).is_ok());
}

#[test]
fn convolution_of_a_single_one_spells_the_generators() {
    let code = ViterbiDecoder::with_generators(3, 0b111, 0b101).unwrap();
    assert_eq!(code.encode(&[1]), vec![1, 1, 1, 0, 1, 1]);
    assert_eq!(code.encode(&[]), vec![0, 0, 0, 0]);
}
