//! Cyclic redundancy checks.

use syndrome::crc::{compute_bit_serial, Crc24, CrcKind};

struct Xorshift64(u64);

impl Xorshift64 {
    fn new(seed: u64) -> Self {
        Xorshift64(seed)
    }

    fn next_u64(&mut self) -> u64 {
        let mut x: u64 = self.0;
        x ^= x << 13;
        x ^= x >> 7;
        x ^= x << 17;
        self.0 = x;
        x
    }

    fn next_bool(&mut self) -> bool {
        self.next_u64() >> 63 == 1
    }
}

#[test]
fn all_zeros_produces_zero_remainder() {
    for kind in [CrcKind::Crc24A, CrcKind::Crc24B, CrcKind::Crc6] {
        let crc = Crc24::new(kind);
        assert_eq!(
            crc.compute(&vec![0u8; kind.length()]),
            0,
            "kind={kind:?} all-zeros should give remainder 0"
        );
    }
}

#[test]
fn attach_then_check_roundtrip() {
    for kind in [
        CrcKind::Crc24A,
        CrcKind::Crc24B,
        CrcKind::Crc24C,
        CrcKind::Crc16,
        CrcKind::Crc11,
        CrcKind::Crc6,
    ] {
        let crc = Crc24::new(kind);
        let payload: Vec<u8> = (0u8..64).map(|i| i & 1).collect();
        let mut bits = payload.clone();
        crc.attach(&mut bits);
        assert_eq!(bits.len(), payload.len() + kind.length());
        assert!(crc.check(&bits), "round-trip failed for {kind:?}");
    }
}

#[test]
fn single_bit_flip_detected() {
    let crc = Crc24::new(CrcKind::Crc24A);
    let payload: Vec<u8> = vec![1, 0, 1, 1, 0, 0, 1, 0, 1, 1, 0, 1, 1, 0, 0, 0];
    let mut bits = payload.clone();
    crc.attach(&mut bits);
    bits[0] ^= 1;
    assert!(!crc.check(&bits));
}

#[test]
fn crc_polynomial_lengths() {
    assert_eq!(CrcKind::Crc24A.length(), 24);
    assert_eq!(CrcKind::Crc16.length(), 16);
    assert_eq!(CrcKind::Crc11.length(), 11);
    assert_eq!(CrcKind::Crc6.length(), 6);
}

#[test]
fn check_returns_false_for_too_short_input() {
    let crc = Crc24::new(CrcKind::Crc24A);
    assert!(!crc.check(&[0u8; 10]));
}

fn next_bits(rng: &mut Xorshift64, len: usize) -> Vec<u8> {
    (0..len).map(|_| rng.next_bool() as u8).collect()
}

#[test]
fn table_matches_bit_serial_reference() {
    for kind in [
        CrcKind::Crc24A,
        CrcKind::Crc24B,
        CrcKind::Crc24C,
        CrcKind::Crc16,
        CrcKind::Crc11,
        CrcKind::Crc6,
    ] {
        let crc = Crc24::new(kind);
        let len = kind.length();
        let mask = (1u32 << len).wrapping_sub(1);
        let poly = kind.poly() & mask;

        let mut rng = Xorshift64::new(0x9E3779B97F4A7C15 ^ (kind as u64 + 1));
        for _ in 0..200 {
            let n = 1 + (rng.next_u64() % 2000) as usize;
            let bits = next_bits(&mut rng, n);
            let table_driven = crc.compute(&bits);
            let bit_serial = compute_bit_serial(&bits, len, poly, mask);
            assert_eq!(
                table_driven, bit_serial,
                "kind={kind:?} len={n} mismatch: table={table_driven:#x} bit_serial={bit_serial:#x}"
            );
        }
    }
}

#[test]
fn remainders_of_a_single_one() {
    assert_eq!(Crc24::new(CrcKind::Crc6).compute(&[1]), 0x21);
    assert_eq!(Crc24::new(CrcKind::Crc11).compute(&[1]), 0x621);
    assert_eq!(Crc24::new(CrcKind::Crc16).compute(&[1]), 0x1021);
    assert_eq!(Crc24::new(CrcKind::Crc24A).compute(&[1]), 0x86_4CFB);
    assert_eq!(Crc24::new(CrcKind::Crc24B).compute(&[1]), 0x80_0063);
    assert_eq!(Crc24::new(CrcKind::Crc24C).compute(&[1]), 0xB2_B117);
}

#[test]
fn remainder_of_a_sum_is_the_sum_of_remainders() {
    let mut rng = Xorshift64::new(5);
    let crc = Crc24::new(CrcKind::Crc16);
    for n in [1usize, 7, 8, 100] {
        let a = next_bits(&mut rng, n);
        let b = next_bits(&mut rng, n);
        let c: Vec<u8> = a.iter().zip(b.iter()).map(|(x, y)| x ^ y).collect();
        assert_eq!(crc.compute(&c), crc.compute(&a) ^ crc.compute(&b));
    }
}

#[test]
fn every_single_flip_is_detected() {
    let mut rng = Xorshift64::new(77);
    for kind in [CrcKind::Crc24A, CrcKind::Crc24C, CrcKind::Crc16, CrcKind::Crc11, CrcKind::Crc6] {
        let crc = Crc24::new(kind);
        let mut word = next_bits(&mut rng, 50);
        crc.attach(&mut word);
        for i in 0..word.len() {
            word[i] ^= 1;
            assert!(!crc.check(&word), "{kind:?} {i}");
            word[i] ^= 1;
        }
        assert!(crc.check(&word));
    }
}

#[test]
fn bursts_within_the_parity_length_are_detected() {
    let mut rng = Xorshift64::new(0x0BAD_5EED_0BAD_5EED);
    for kind in [
        CrcKind::Crc24A,
        CrcKind::Crc24B,
        CrcKind::Crc24C,
        CrcKind::Crc16,
        CrcKind::Crc11,
        CrcKind::Crc6,
    ] {
        let crc = Crc24::new(kind);
        let mut word: Vec<u8> = (0..40).map(|_| rng.next_bool() as u8).collect();
        crc.attach(&mut word);
        assert!(crc.check(&word));
        let len = kind.length();
        for start in 0..=word.len() - len {
            for _ in 0..50 {
                let mut hit = word.clone();
                for bit in &mut hit[start..start + len] {
                    *bit ^= rng.next_bool() as u8;
                }
                assert_eq!(crc.check(&hit), hit == word);
            }
        }
        assert!(!crc.check(&word[..len - 1]));
    }
}
