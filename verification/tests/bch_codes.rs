//! Binary BCH codes.

use syndrome::bch::{cyclotomic_coset_mod255, BchCode};
use syndrome::error::FecError;

const N: usize = 255;

struct Xorshift64(u64);

impl Xorshift64 {
    fn new(seed: u64) -> Self {
        Xorshift64(if seed == 0 { 1 } else { seed })
    }

    fn next_u64(&mut self) -> u64 {
        let mut x: u64 = self.0;
        x ^= x << 13;
        x ^= x >> 7;
        x ^= x << 17;
        self.0 = x;
        x
    }

    fn next_range(&mut self, n: usize) -> usize {
        (self.next_u64() % n as u64) as usize
    }

    fn next_bool(&mut self) -> bool {
        self.next_u64() >> 63 == 1
    }
}

fn random_bits(rng: &mut Xorshift64, len: usize) -> Vec<u8> {
    (0..len).map(|_| rng.next_bool() as u8).collect()
}

fn inject_errors(rng: &mut Xorshift64, buf: &mut [u8], count: usize) -> Vec<usize> {
    let mut used = [false; N];
    let mut positions = Vec::with_capacity(count);
    while positions.len() < count {
        let pos = rng.next_range(buf.len());
        if !used[pos] {
            used[pos] = true;
            positions.push(pos);
            buf[pos] ^= 1;
        }
    }
    positions
}

#[test]
fn generator_degree_equals_n_minus_k() {
    for t in 1..=10usize {
        let bch = BchCode::new(t).unwrap();
        assert_eq!(bch.parity_len(), bch.n() - bch.k(), "t={t}");
        assert!(bch.parity_len() > 0, "t={t}");
    }
    for t in 1..=10usize {
        let bch = BchCode::new(t).unwrap();
        println!(
            "t={} -> n={} k={} parity={}",
            t,
            bch.n(),
            bch.k(),
            bch.parity_len()
        );
    }
}

#[test]
fn dimension_shrinks_as_t_grows() {
    let mut prev_k = usize::MAX;
    for t in 1..=10usize {
        let bch = BchCode::new(t).unwrap();
        assert!(
            bch.k() <= prev_k,
            "k should not increase as t grows: t={t} k={} prev_k={prev_k}",
            bch.k()
        );
        prev_k = bch.k();
    }
}

#[test]
fn invalid_t_rejected() {
    assert!(BchCode::new(0).is_err());
    assert!(BchCode::new(11).is_err());
}

#[test]
fn generator_divides_x255_plus_1() {
    for t in 1..=10usize {
        let bch = BchCode::new(t).unwrap();
        let nk = bch.parity_len();
        let mut g_full: u128 = 0;
        for (i, &c) in bch.generator().iter().enumerate() {
            assert!(c <= 1, "t={t}");
            g_full |= (c as u128) << i;
        }
        let mask: u128 = (1u128 << nk) - 1;
        let g_low = g_full & mask;
        let mut r: u128 = 1;
        for _ in 0..255 {
            r <<= 1;
            if (r >> nk) & 1 == 1 {
                r ^= (1u128 << nk) | g_low;
            }
        }
        assert_eq!(r, 1, "x^255 mod g(x) should be 1 for t={t}");
    }
}

#[test]
fn encoded_codewords_have_zero_syndromes() {
    let mut rng = Xorshift64::new(12345);
    for t in [1usize, 2, 4, 8] {
        let bch = BchCode::new(t).unwrap();
        for _ in 0..10 {
            let info = random_bits(&mut rng, bch.k());
            let mut codeword = vec![0u8; bch.n()];
            bch.encode(&info, &mut codeword).unwrap();
            let mut check = codeword.clone();
            assert_eq!(bch.decode(&mut check), Ok(0), "t={t}");
            assert_eq!(check, codeword, "t={t}: no bits should change");
        }
    }
}

#[test]
fn round_trip_exact_error_counts() {
    for t in [1usize, 2, 4, 8] {
        let bch = BchCode::new(t).unwrap();
        for j in 0..=t {
            for trial in 0..10u64 {
                let mut rng = Xorshift64::new(1000 * t as u64 + 10 * j as u64 + trial + 1);
                let info = random_bits(&mut rng, bch.k());
                let mut codeword = vec![0u8; bch.n()];
                bch.encode(&info, &mut codeword).unwrap();

                let mut received = codeword.clone();
                inject_errors(&mut rng, &mut received, j);

                let result = bch.decode(&mut received);
                assert_eq!(
                    result,
                    Ok(j),
                    "t={t} j={j} trial={trial}: expected {j} corrected bits"
                );
                assert_eq!(
                    received, codeword,
                    "t={t} j={j} trial={trial}: decoded codeword mismatch"
                );
                assert_eq!(
                    &received[..bch.k()],
                    &info[..],
                    "t={t} j={j} trial={trial}: info bits mismatch"
                );
            }
        }
    }
}

#[test]
fn beyond_capacity_never_panics() {
    let t = 2usize;
    let bch = BchCode::new(t).unwrap();
    for extra_errors in [4usize, 5usize] {
        for trial in 0..30u64 {
            let mut rng = Xorshift64::new(50_000 + extra_errors as u64 * 100 + trial + 1);
            let info = random_bits(&mut rng, bch.k());
            let mut codeword = vec![0u8; bch.n()];
            bch.encode(&info, &mut codeword).unwrap();

            let mut received = codeword.clone();
            inject_errors(&mut rng, &mut received, extra_errors);

            match bch.decode(&mut received) {
                Err(_) => {}
                Ok(_) => {
                    let mut recheck = received.clone();
                    assert_eq!(
                        bch.decode(&mut recheck),
                        Ok(0),
                        "miscorrection must land on a valid codeword \
                         (extra_errors={extra_errors} trial={trial})"
                    );
                }
            }
        }
    }
}

#[test]
fn shortened_round_trip() {
    let mut rng = Xorshift64::new(777);
    for t in [1usize, 2, 4] {
        let bch = BchCode::new(t).unwrap();
        let k_short = bch.k() / 4;
        for j in 0..=t {
            let info = random_bits(&mut rng, k_short);
            let mut codeword = vec![0u8; k_short + bch.parity_len()];
            bch.shortened_encode(k_short, &info, &mut codeword).unwrap();

            let mut received = codeword.clone();
            inject_errors(&mut rng, &mut received, j);

            let result = bch.shortened_decode(k_short, &mut received);
            assert_eq!(result, Ok(j), "t={t} k_short={k_short} j={j}");
            assert_eq!(&received[..k_short], &info[..], "t={t} j={j}");
        }
    }
}

#[test]
fn shortened_encode_rejects_bad_length() {
    let bch = BchCode::new(2).unwrap();
    let info = vec![0u8; 5];
    let mut out = vec![0u8; 5 + bch.parity_len()];
    assert!(bch.shortened_encode(bch.k() + 1, &info, &mut out).is_err());
}

#[test]
fn bch_encode_rejects_wrong_lengths() {
    let bch = BchCode::new(2).unwrap();
    let mut codeword = vec![0u8; bch.n()];
    let bad_info = vec![0u8; bch.k() - 1];
    assert!(bch.encode(&bad_info, &mut codeword).is_err());

    let info = vec![0u8; bch.k()];
    let mut short_codeword = vec![0u8; bch.n() - 1];
    assert!(bch.encode(&info, &mut short_codeword).is_err());
}

#[test]
fn decode_rejects_wrong_length() {
    let bch = BchCode::new(2).unwrap();
    let mut bad = vec![0u8; bch.n() - 1];
    assert!(bch.decode(&mut bad).is_err());
}

#[test]
fn bch_errors_name_their_cause() {
    let bch = BchCode::new(2).unwrap();
    assert_eq!(
        BchCode::new(11).err(),
        Some(FecError::InvalidParam("t must be in 1..=10 for BCH(255) over GF(2^8)"))
    );
    let mut out = vec![0u8; 255];
    assert_eq!(
        bch.encode(&vec![0u8; bch.k() + 1], &mut out),
        Err(FecError::InvalidParam("info length must equal k"))
    );
    let mut not_bits = vec![0u8; bch.k()];
    not_bits[3] = 2;
    assert_eq!(
        bch.encode(&not_bits, &mut out),
        Err(FecError::InvalidParam("info bits must be 0 or 1"))
    );
    assert_eq!(
        bch.decode(&mut vec![0u8; 254]),
        Err(FecError::BufferTooSmall { required: 255, provided: 254 })
    );
    assert_eq!(
        bch.shortened_decode(10, &mut vec![0u8; 9]),
        Err(FecError::BufferTooSmall { required: 26, provided: 9 })
    );
}

#[test]
fn bch_parameters_of_the_first_codes() {
    let expected = [247, 239, 231, 223, 215, 207, 199, 191, 187, 179];
    for (i, &k) in expected.iter().enumerate() {
        assert_eq!(BchCode::new(i + 1).unwrap().k(), k);
    }
    assert_eq!(
        BchCode::new(1).unwrap().generator().as_slice(),
        &[1, 0, 1, 1, 1, 0, 0, 0, 1]
    );
}

#[test]
fn cosets_close_under_doubling() {
    assert_eq!(cyclotomic_coset_mod255(1), vec![1, 2, 4, 8, 16, 32, 64, 128]);
    assert_eq!(cyclotomic_coset_mod255(17), vec![17, 34, 68, 136]);
    assert_eq!(cyclotomic_coset_mod255(85), vec![85, 170]);
}

#[test]
fn rotated_codeword_is_accepted() {
    let bch = BchCode::new(3).unwrap();
    let mut rng = Xorshift64::new(99);
    let info = random_bits(&mut rng, bch.k());
    let mut w = vec![0u8; 255];
    bch.encode(&info, &mut w).unwrap();
    w.rotate_left(17);
    assert_eq!(bch.decode(&mut w), Ok(0));
}

#[test]
fn sum_of_codewords_is_accepted() {
    let bch = BchCode::new(3).unwrap();
    let mut rng = Xorshift64::new(41);
    let mut a = vec![0u8; 255];
    let mut b = vec![0u8; 255];
    bch.encode(&random_bits(&mut rng, bch.k()), &mut a).unwrap();
    bch.encode(&random_bits(&mut rng, bch.k()), &mut b).unwrap();
    assert!(a.iter().zip(b.iter()).filter(|(x, y)| x != y).count() >= 7);
    let mut c: Vec<u8> = a.iter().zip(b.iter()).map(|(x, y)| x ^ y).collect();
    assert_eq!(bch.decode(&mut c), Ok(0));
}

#[test]
fn correction_keeps_the_upper_bits() {
    let bch = BchCode::new(2).unwrap();
    let mut w = vec![0x40u8; 255];
    w[7] = 0x41;
    assert_eq!(bch.decode(&mut w), Ok(1));
    assert_eq!(w, vec![0x40u8; 255]);
}
