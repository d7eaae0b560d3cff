//! The Hamming code of length seven.

use syndrome::hamming::{decode_hamming_7_4, encode_hamming_7_4, syndrome, Hamming74, H_ROWS};

#[test]
fn roundtrip_enumeration() {
    for v in 0u8..16u8 {
        let c = encode_hamming_7_4(v);
        let d = decode_hamming_7_4(c).unwrap();
        assert_eq!(d, v);
    }
}

#[test]
fn syndrome_matches_h_matrix_exhaustively() {
    for r in 0u8..128u8 {
        let b = |pos: u8| -> u8 { (r >> (pos - 1)) & 1 };
        let p1 = b(1);
        let p2 = b(2);
        let d3 = b(3);
        let p4 = b(4);
        let d2 = b(5);
        let d1 = b(6);
        let d0 = b(7);

        let s1 = p1 ^ d3 ^ d2 ^ d0;
        let s2 = p2 ^ d3 ^ d1 ^ d0;
        let s4 = p4 ^ d2 ^ d1 ^ d0;
        let expected = (s4 << 2) | (s2 << 1) | s1;

        assert_eq!(
            syndrome(r),
            expected,
            "syndrome(H, r={r:#09b}) must match the classic s1/s2/s4 formula"
        );
    }
}

#[test]
fn h_rows_match_documented_matrix() {
    assert_eq!(H_ROWS[0], 0b1010101, "p1 row must cover positions 1,3,5,7");
    assert_eq!(H_ROWS[1], 0b1100110, "p2 row must cover positions 2,3,6,7");
    assert_eq!(H_ROWS[2], 0b1111000, "p4 row must cover positions 4,5,6,7");
}

#[test]
fn nonzero_syndrome_value_equals_error_position() {
    for n in 0u8..16u8 {
        let c = encode_hamming_7_4(n);
        for pos in 1u8..=7u8 {
            let flipped = c ^ (1 << (pos - 1));
            assert_eq!(
                syndrome(flipped & 0x7F),
                pos,
                "flipping position {pos} of codeword for nibble {n:#06b} \
                 must yield syndrome value {pos}"
            );
        }
    }
}

#[test]
fn proptest_roundtrip() {
    for n in 0u8..16 {
        let c = encode_hamming_7_4(n);
        assert_eq!(decode_hamming_7_4(c), Ok(n));
        assert_eq!(Hamming74::encode(n), c);
        assert_eq!(Hamming74::decode(c), Ok(n));
    }
}

#[test]
fn proptest_single_bit_correction() {
    for n in 0u8..16 {
        for bit in 0u8..7 {
            let c = encode_hamming_7_4(n);
            let e = c ^ (1 << bit);
            assert_eq!(decode_hamming_7_4(e), Ok(n));
        }
    }
}

#[test]
fn codewords_of_the_unit_nibbles() {
    assert_eq!(encode_hamming_7_4(0), 0);
    assert_eq!(encode_hamming_7_4(0b1010) & 0x7F, 0b0101101);
    assert_eq!(encode_hamming_7_4(0b1111), 0b111_1111);
    for n in [1u8, 2, 4, 8] {
        assert_eq!(syndrome(encode_hamming_7_4(n)), 0);
    }
}

#[test]
fn two_errors_decode_to_another_nibble() {
    for nibble in 0u8..16 {
        let code = encode_hamming_7_4(nibble);
        for i in 0..7 {
            for j in 0..i {
                let wrong = decode_hamming_7_4(code ^ (1 << i) ^ (1 << j)).unwrap();
                assert_ne!(wrong, nibble);
            }
        }
    }
}
