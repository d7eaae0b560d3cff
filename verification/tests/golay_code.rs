//! The extended Golay code.

use syndrome::error::FecError;
use syndrome::golay::{
    bits_to_u32, build_b_rows, build_g_rows, build_h_rows, count_ones, quadratic_residues_mod_11,
    transpose_b, u32_to_bits, GolayCode, GOLAY_D, GOLAY_K, GOLAY_N, UNCORRECTABLE,
};

struct XorShift32(u32);

impl XorShift32 {
    fn next(&mut self) -> u32 {
        let mut x = self.0;
        x ^= x << 13;
        x ^= x >> 17;
        x ^= x << 5;
        self.0 = x;
        x
    }
}

fn full_g_rows() -> [u32; 12] {
    let b = build_b_rows();
    build_g_rows(&b)
}

fn full_h_rows() -> [u32; 12] {
    let b = build_b_rows();
    let bt = transpose_b(&b);
    build_h_rows(&bt)
}

#[test]
fn qr_set_is_1_3_4_5_9() {
    let is_qr = quadratic_residues_mod_11();
    let expected = [1, 3, 4, 5, 9];
    for r in 0..11usize {
        assert_eq!(is_qr[r], expected.contains(&r), "residue {r}");
    }
}

#[test]
fn g_h_transpose_is_zero() {
    let g = full_g_rows();
    let h = full_h_rows();
    for gi in g {
        for hk in h {
            assert_eq!((gi & hk).count_ones() % 2, 0, "G H^T must vanish");
        }
    }
}

#[test]
fn code_is_self_dual() {
    let g = full_g_rows();
    for gi in g {
        for gj in g {
            assert_eq!((gi & gj).count_ones() % 2, 0, "G G^T must vanish");
        }
    }
}

#[test]
fn every_generator_row_has_weight_at_least_8() {
    let g = full_g_rows();
    for (i, gi) in g.iter().enumerate() {
        assert!(
            gi.count_ones() >= 8,
            "row {i} has weight {}",
            gi.count_ones()
        );
    }
}

#[test]
fn minimum_weight_of_all_codewords_is_8() {
    let golay = GolayCode::new();
    let mut min_weight = u32::MAX;
    let mut weight_counts = [0u32; 25];
    for msg in 0..4096u32 {
        let cw = golay.encode_table()[msg as usize];
        let w = cw.count_ones();
        weight_counts[w as usize] += 1;
        if msg != 0 {
            min_weight = min_weight.min(w);
        }
    }
    assert_eq!(min_weight, 8, "minimum nonzero codeword weight must be 8");
    assert_eq!(weight_counts[0], 1);
    assert_eq!(weight_counts[8], 759);
    assert_eq!(weight_counts[12], 2576);
    assert_eq!(weight_counts[16], 759);
    assert_eq!(weight_counts[24], 1);
}

#[test]
fn syndrome_table_has_exactly_2325_correctable_entries() {
    let golay = GolayCode::new();
    let correctable = golay
        .syndrome_table()
        .iter()
        .filter(|&&e| e != UNCORRECTABLE)
        .count();
    assert_eq!(correctable, 1 + 24 + 276 + 2024);
    assert_eq!(correctable, 2325);
}

fn message_bits(msg: u32) -> [u8; 12] {
    let mut bits = [0u8; 12];
    u32_to_bits(msg, 12, &mut bits);
    bits
}

#[test]
fn exhaustive_correction_up_to_weight_3() {
    let golay = GolayCode::new();
    let mut rng = XorShift32(0xC0FF_EE01);

    for _ in 0..32 {
        let msg = rng.next() & 0x0FFF;
        let info = message_bits(msg);
        let mut codeword = [0u8; 24];
        golay.encode(&info, &mut codeword).unwrap();
        let cw_bits = bits_to_u32(&codeword, 24);

        for b0 in 0..24u32 {
            check_one(&golay, cw_bits, 1 << b0, &info, 1);
        }
        for b0 in 0..24u32 {
            for b1 in (b0 + 1)..24u32 {
                check_one(&golay, cw_bits, (1 << b0) | (1 << b1), &info, 2);
            }
        }
        for b0 in 0..24u32 {
            for b1 in (b0 + 1)..24u32 {
                for b2 in (b1 + 1)..24u32 {
                    check_one(&golay, cw_bits, (1 << b0) | (1 << b1) | (1 << b2), &info, 3);
                }
            }
        }
    }
}

fn check_one(golay: &GolayCode, cw_bits: u32, err: u32, info: &[u8; 12], expected_weight: u32) {
    let received_bits = cw_bits ^ err;
    let mut received = [0u8; 24];
    u32_to_bits(received_bits, 24, &mut received);
    let mut decoded = [0u8; 12];
    let corrected = golay
        .decode(&received, &mut decoded)
        .unwrap_or_else(|e| panic!("expected correction, got {e:?}"));
    assert_eq!(corrected as u32, expected_weight);
    assert_eq!(&decoded, info);
}

#[test]
fn weight_4_errors_are_detected_not_miscorrected() {
    let golay = GolayCode::new();
    let mut rng = XorShift32(0x5EED_1234);

    let info = [1u8, 0, 1, 0, 1, 0, 1, 0, 1, 0, 1, 0];
    let mut codeword = [0u8; 24];
    golay.encode(&info, &mut codeword).unwrap();
    let cw_bits = bits_to_u32(&codeword, 24);

    let mut tested = 0;
    while tested < 200 {
        let mut positions = [0u32; 4];
        let mut count = 0;
        while count < 4 {
            let candidate = rng.next() % 24;
            if !positions[..count].contains(&candidate) {
                positions[count] = candidate;
                count += 1;
            }
        }
        let err = positions.iter().fold(0u32, |acc, &p| acc | (1 << p));

        let received_bits = cw_bits ^ err;
        let mut received = [0u8; 24];
        u32_to_bits(received_bits, 24, &mut received);
        let mut decoded = [0u8; 12];
        let result = golay.decode(&received, &mut decoded);
        assert_eq!(
            result,
            Err(FecError::DecoderNotConverged),
            "weight-4 error pattern {err:#08x} must be detected, not miscorrected"
        );
        tested += 1;
    }
}

#[test]
fn encode_decode_roundtrip_zero_errors() {
    let golay = GolayCode::new();
    for msg in [0u32, 1, 0xABC, 0xFFF, 0x555, 0xAAA] {
        let info = message_bits(msg);
        let mut codeword = [0u8; 24];
        golay.encode(&info, &mut codeword).unwrap();
        let mut decoded = [0u8; 12];
        assert_eq!(golay.decode(&codeword, &mut decoded), Ok(0));
        assert_eq!(decoded, info);
    }
}

#[test]
fn golay_encode_rejects_wrong_lengths() {
    let golay = GolayCode::new();
    let info_short = [0u8; 11];
    let mut out = [0u8; 24];
    assert_eq!(
        golay.encode(&info_short, &mut out),
        Err(FecError::BufferTooSmall {
            required: GOLAY_K,
            provided: 11
        })
    );

    let info = [0u8; 12];
    let mut out_short = [0u8; 23];
    assert_eq!(
        golay.encode(&info, &mut out_short),
        Err(FecError::BufferTooSmall {
            required: GOLAY_N,
            provided: 23
        })
    );
}

#[test]
fn decode_reports_buffer_too_small() {
    let golay = GolayCode::new();
    let received = [0u8; 23];
    let mut out = [0u8; 12];
    assert_eq!(
        golay.decode(&received, &mut out),
        Err(FecError::BufferTooSmall {
            required: 24,
            provided: 23
        })
    );

    let received = [0u8; 24];
    let mut out_short = [0u8; 11];
    assert_eq!(
        golay.decode(&received, &mut out_short),
        Err(FecError::BufferTooSmall {
            required: 12,
            provided: 11
        })
    );
}

#[test]
fn golay_encodes_the_low_bits() {
    let golay = GolayCode::default();
    let mut a = [0u8; 24];
    let mut b = [0u8; 24];
    golay.encode(&[1, 0, 0, 1, 0, 0, 0, 0, 1, 0, 0, 1], &mut a).unwrap();
    golay.encode(&[3, 2, 0, 5, 0, 8, 0, 0, 1, 0, 0, 255], &mut b).unwrap();
    assert_eq!(a, b);
}

#[test]
fn golay_parameters_and_bit_counts() {
    assert_eq!((GOLAY_N, GOLAY_K, GOLAY_D), (24, 12, 8));
    for w in [0u32, 1, 0x80, 0xFF_FFFF, 0xFFFF_FFFF, 0x1234_5678] {
        assert_eq!(count_ones(w), w.count_ones());
    }
}

#[test]
fn bits_and_words_convert_both_ways() {
    let mut out = [9u8; 5];
    u32_to_bits(0b10110, 5, &mut out);
    assert_eq!(bits_to_u32(&out, 5), 0b10110);
    assert_eq!(out, [0, 1, 1, 0, 1]);
}

#[test]
fn words_of_different_messages_are_eight_apart() {
    let golay = GolayCode::new();
    let word = |m: u32| {
        let mut info = [0u8; 12];
        u32_to_bits(m, 12, &mut info);
        let mut out = [0u8; 24];
        golay.encode(&info, &mut out).unwrap();
        out
    };
    for m in (0..4096u32).step_by(61) {
        for n in (0..m).step_by(7) {
            let apart = word(m).iter().zip(&word(n)).filter(|(a, b)| a != b).count();
            assert!(apart >= GOLAY_D);
        }
    }
}
