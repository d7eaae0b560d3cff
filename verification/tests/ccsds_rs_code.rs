//! The CCSDS Reed-Solomon code.

use syndrome::ccsds_rs::{CcsdsReedSolomon, K, N, NROOTS};
use syndrome::error::FecError;
use syndrome::gf256::{GfTables, POLY_187};

struct Xorshift64(u64);

impl Xorshift64 {
    fn new(seed: u64) -> Self {
        Xorshift64(seed)
    }

    fn next_below(&mut self, n: usize) -> usize {
        let mut x: u64 = self.0;
        x ^= x << 13;
        x ^= x >> 7;
        x ^= x << 17;
        self.0 = x;
        (x % n as u64) as usize
    }
}

#[test]
fn gf_tables_match_reference_alpha_to() {
    const REFERENCE_ALPHA_TO: [u8; 256] = [
        0x01, 0x02, 0x04, 0x08, 0x10, 0x20, 0x40, 0x80, 0x87, 0x89, 0x95, 0xad, 0xdd, 0x3d,
        0x7a, 0xf4, 0x6f, 0xde, 0x3b, 0x76, 0xec, 0x5f, 0xbe, 0xfb, 0x71, 0xe2, 0x43, 0x86,
        0x8b, 0x91, 0xa5, 0xcd, 0x1d, 0x3a, 0x74, 0xe8, 0x57, 0xae, 0xdb, 0x31, 0x62, 0xc4,
        0x0f, 0x1e, 0x3c, 0x78, 0xf0, 0x67, 0xce, 0x1b, 0x36, 0x6c, 0xd8, 0x37, 0x6e, 0xdc,
        0x3f, 0x7e, 0xfc, 0x7f, 0xfe, 0x7b, 0xf6, 0x6b, 0xd6, 0x2b, 0x56, 0xac, 0xdf, 0x39,
        0x72, 0xe4, 0x4f, 0x9e, 0xbb, 0xf1, 0x65, 0xca, 0x13, 0x26, 0x4c, 0x98, 0xb7, 0xe9,
        0x55, 0xaa, 0xd3, 0x21, 0x42, 0x84, 0x8f, 0x99, 0xb5, 0xed, 0x5d, 0xba, 0xf3, 0x61,
        0xc2, 0x03, 0x06, 0x0c, 0x18, 0x30, 0x60, 0xc0, 0x07, 0x0e, 0x1c, 0x38, 0x70, 0xe0,
        0x47, 0x8e, 0x9b, 0xb1, 0xe5, 0x4d, 0x9a, 0xb3, 0xe1, 0x45, 0x8a, 0x93, 0xa1, 0xc5,
        0x0d, 0x1a, 0x34, 0x68, 0xd0, 0x27, 0x4e, 0x9c, 0xbf, 0xf9, 0x75, 0xea, 0x53, 0xa6,
        0xcb, 0x11, 0x22, 0x44, 0x88, 0x97, 0xa9, 0xd5, 0x2d, 0x5a, 0xb4, 0xef, 0x59, 0xb2,
        0xe3, 0x41, 0x82, 0x83, 0x81, 0x85, 0x8d, 0x9d, 0xbd, 0xfd, 0x7d, 0xfa, 0x73, 0xe6,
        0x4b, 0x96, 0xab, 0xd1, 0x25, 0x4a, 0x94, 0xaf, 0xd9, 0x35, 0x6a, 0xd4, 0x2f, 0x5e,
        0xbc, 0xff, 0x79, 0xf2, 0x63, 0xc6, 0x0b, 0x16, 0x2c, 0x58, 0xb0, 0xe7, 0x49, 0x92,
        0xa3, 0xc1, 0x05, 0x0a, 0x14, 0x28, 0x50, 0xa0, 0xc7, 0x09, 0x12, 0x24, 0x48, 0x90,
        0xa7, 0xc9, 0x15, 0x2a, 0x54, 0xa8, 0xd7, 0x29, 0x52, 0xa4, 0xcf, 0x19, 0x32, 0x64,
        0xc8, 0x17, 0x2e, 0x5c, 0xb8, 0xf7, 0x69, 0xd2, 0x23, 0x46, 0x8c, 0x9f, 0xb9, 0xf5,
        0x6d, 0xda, 0x33, 0x66, 0xcc, 0x1f, 0x3e, 0x7c, 0xf8, 0x77, 0xee, 0x5b, 0xb6, 0xeb,
        0x51, 0xa2, 0xc3, 0x00,
    ];
    let gf = GfTables::new(POLY_187);
    for i in 0..255 {
        assert_eq!(
            gf.alpha_pow(i), REFERENCE_ALPHA_TO[i],
            "exp[{i}] mismatch vs. reference ALPHA_TO"
        );
    }
}

fn known_answer_block() -> [u8; N] {
    let mut block = [0u8; N];
    for (i, b) in block[..K].iter_mut().enumerate() {
        *b = i as u8;
    }
    let parity: [u8; NROOTS] = [
        0x2f, 0xbd, 0x4f, 0xb4, 0x74, 0x84, 0x94, 0xb9, 0xac, 0xd5, 0x54, 0x62, 0x72, 0x12,
        0xee, 0xb3, 0xeb, 0xed, 0x41, 0x19, 0x1d, 0xe1, 0xd3, 0x63, 0x20, 0xea, 0x49, 0x29,
        0x0b, 0x25, 0xab, 0xcf,
    ];
    block[K..].copy_from_slice(&parity);
    block
}

#[test]
fn matches_known_answer_conventional_vector_encode() {
    let rs = CcsdsReedSolomon::new(1).unwrap();
    let expected = known_answer_block();
    let mut block = [0u8; N];
    rs.encode(&expected[..K], &mut block).unwrap();
    assert_eq!(
        block, expected,
        "encoded parity does not match the real CCSDS RS(255,223) known-answer vector"
    );
}

#[test]
fn matches_known_answer_conventional_vector_decode() {
    let rs = CcsdsReedSolomon::new(1).unwrap();
    let expected = known_answer_block();

    let error_positions_and_values: [(usize, u8); 16] = [
        (0, 0x58),
        (2, 0xA3),
        (5, 0xCD),
        (14, 0x0D),
        (50, 0xCA),
        (51, 0x96),
        (80, 0x1B),
        (89, 0xA2),
        (91, 0xAC),
        (100, 0xB9),
        (145, 0xE5),
        (176, 0x94),
        (185, 0xC3),
        (214, 0x97),
        (231, 0x7A),
        (250, 0x29),
    ];
    let mut corrupted = expected;
    for &(pos, val) in &error_positions_and_values {
        corrupted[pos] ^= val;
    }

    let rs_check = corrupted != expected;
    assert!(rs_check, "test setup error: no corruption applied");

    let corrected = rs.decode_block(&mut corrupted).unwrap();
    assert_eq!(corrected, 16, "expected exactly 16 corrected symbols");
    assert_eq!(
        corrupted, expected,
        "decode did not recover the exact known-answer block"
    );
}

#[test]
fn round_trip_no_errors() {
    let rs = CcsdsReedSolomon::new(1).unwrap();
    let data: Vec<u8> = (0..K as u32).map(|i| (i * 37 + 11) as u8).collect();
    let mut block = vec![0u8; N];
    rs.encode(&data, &mut block).unwrap();
    let corrected = rs.decode(&mut block).unwrap();
    assert_eq!(corrected, 0);
    assert_eq!(&block[..K], &data[..]);
}

#[test]
fn round_trip_random_errors_up_to_capacity() {
    let mut rng = Xorshift64::new(0xCC5D5);
    let rs = CcsdsReedSolomon::new(1).unwrap();
    for trial in 0..200 {
        let data: Vec<u8> = (0..K).map(|_| rng.next_below(256) as u8).collect();
        let mut block = vec![0u8; N];
        rs.encode(&data, &mut block).unwrap();

        let num_errors = 1 + rng.next_below(NROOTS / 2);
        let mut positions: Vec<usize> = (0..N).collect();
        for i in 0..num_errors {
            let j = i + rng.next_below(N - i);
            positions.swap(i, j);
        }
        for &pos in &positions[..num_errors] {
            let flip = 1 + rng.next_below(255) as u8;
            block[pos] ^= flip;
        }

        let corrected = rs.decode(&mut block).unwrap_or_else(|e| {
            panic!("trial {trial}: decode failed with {num_errors} errors: {e:?}")
        });
        assert_eq!(
            corrected, num_errors,
            "trial {trial}: corrected count mismatch"
        );
        assert_eq!(&block[..K], &data[..], "trial {trial}: data not recovered");
    }
}

#[test]
fn interleaved_round_trip() {
    for &depth in &[1usize, 2, 3, 4, 5, 8] {
        let rs = CcsdsReedSolomon::new(depth).unwrap();
        let data: Vec<u8> = (0..rs.data_len() as u32)
            .map(|i| (i * 13 + 7) as u8)
            .collect();
        let mut block = vec![0u8; rs.block_len()];
        rs.encode(&data, &mut block).unwrap();

        for stream in 0..depth {
            block[stream] ^= 0xFF;
        }
        let corrected = rs.decode(&mut block).unwrap();
        assert_eq!(corrected, depth, "interleaving depth {depth}");
        assert_eq!(
            &block[..rs.data_len()],
            &data[..],
            "interleaving depth {depth}"
        );
    }
}

#[test]
fn invalid_interleaving_depth_rejected() {
    assert!(CcsdsReedSolomon::new(0).is_err());
    assert!(CcsdsReedSolomon::new(6).is_err());
    assert!(CcsdsReedSolomon::new(7).is_err());
    assert!(CcsdsReedSolomon::new(9).is_err());
    for &ok in &[1, 2, 3, 4, 5, 8] {
        assert!(CcsdsReedSolomon::new(ok).is_ok());
    }
}

#[test]
fn wrong_length_buffers_rejected() {
    let rs = CcsdsReedSolomon::new(1).unwrap();
    let mut short_out = vec![0u8; N - 1];
    assert!(rs.encode(&vec![0u8; K], &mut short_out).is_err());
    let mut short_block = vec![0u8; N - 1];
    assert!(rs.decode(&mut short_block).is_err());
}

#[test]
fn known_answer_vector_is_sensitive_to_decoder_correctness() {
    let rs = CcsdsReedSolomon::new(1).unwrap();
    let mut block = known_answer_block();
    block[0] ^= 0x01;
    let corrected = rs.decode_block(&mut block).unwrap();
    assert_eq!(corrected, 1);
    assert_eq!(block, known_answer_block());
}

#[test]
fn a_burst_over_all_codewords_is_corrected() {
    let rs = CcsdsReedSolomon::new(5).unwrap();
    let data: Vec<u8> = (0..rs.data_len() as u32).map(|i| (i * 31 + 5) as u8).collect();
    let mut block = vec![0u8; rs.block_len()];
    rs.encode(&data, &mut block).unwrap();
    let sent = block.clone();
    for k in 333..333 + 16 * 5 {
        block[k] ^= 0x5A;
    }
    assert_eq!(rs.decode(&mut block), Ok(80));
    assert_eq!(block, sent);
}

#[test]
fn too_many_errors_are_reported_and_change_nothing() {
    let rs = CcsdsReedSolomon::new(1).unwrap();
    let mut block = known_answer_block();
    for k in 0..40 {
        block[3 * k] ^= 0x80 + k as u8;
    }
    let before = block;
    assert_eq!(rs.decode_block(&mut block), Err(FecError::DecoderNotConverged));
    assert_eq!(block, before);
}

#[test]
fn reed_solomon_errors_name_their_cause() {
    assert_eq!(
        CcsdsReedSolomon::new(6).err(),
        Some(FecError::InvalidParam(
            "CCSDS RS interleaving depth must be one of 1, 2, 3, 4, 5, 8"
        ))
    );
    let rs = CcsdsReedSolomon::new(2).unwrap();
    assert_eq!(rs.interleaving(), 2);
    assert_eq!(
        rs.encode(&[0u8; 445], &mut [0u8; 510]),
        Err(FecError::BufferTooSmall { required: 446, provided: 445 })
    );
    assert_eq!(
        rs.decode(&mut [0u8; 255]),
        Err(FecError::BufferTooSmall { required: 510, provided: 255 })
    );
}

#[test]
fn field_tables_multiply_and_invert() {
    let gf = GfTables::new(POLY_187);
    assert_eq!(gf.mul(0x80, 2), 0x87);
    assert_eq!(gf.mul(7, 0), 0);
    for a in 1..=255u8 {
        assert_eq!(gf.mul(a, gf.inv(a)), 1);
    }
}
