//! Polar codes.

use syndrome::channel_sim::AwgnChannel;
use syndrome::crc::{Crc24, CrcKind};
use syndrome::error::FecError;
use syndrome::polar::{polar_transform, PolarDecoder, PolarEncoder};
use syndrome::reliability::frozen_mask;
use syndrome::reliability_table::RELIABILITY_SEQ;

struct Xorshift64(u64);

impl Xorshift64 {
    fn new(seed: u64) -> Self {
        Xorshift64(seed)
    }

    fn next_u64(&mut self) -> u64 {
        let mut x: u64 = self.0;
        x ^= x << 13;
        x ^= x >> 7;
        x ^= x << 17;
        self.0 = x;
        x
    }

    fn next_bool(&mut self) -> bool {
        self.next_u64() >> 63 == 1
    }
}

fn plus(a: u32, b: u32) -> u32 {
    (f32::from_bits(a) + f32::from_bits(b)).to_bits()
}

fn uniform(p: u32) -> f32 {
    f32::from_bits(p) - 1.0
}

fn gaussian(p: u32, q: u32) -> f32 {
    let u1 = uniform(p).max(1e-38_f32);
    let u2 = uniform(q);
    (-2.0 * u1.ln()).sqrt() * (2.0 * core::f32::consts::PI * u2).cos()
}

fn sigma_of(ebno_db: f32, code_rate: f32) -> f32 {
    let ebno_linear = 10.0_f32.powf(ebno_db / 10.0);
    (1.0 / (2.0 * code_rate * ebno_linear)).sqrt()
}

fn receive(x: u32, p: u32, q: u32, sigma: u32) -> u32 {
    let s = f32::from_bits(sigma);
    let r = f32::from_bits(x) + gaussian(p, q) * s;
    (r * (2.0 / (s * s))).to_bits()
}

fn awgn(ebno_db: f32, code_rate: f32, seed: u64) -> AwgnChannel {
    AwgnChannel::new(sigma_of(ebno_db, code_rate).to_bits(), seed)
}

fn noiseless_llr(codeword: &[u8], scale: f32) -> Vec<u32> {
    codeword
        .iter()
        .map(|&b| if b == 0 { scale } else { -scale }.to_bits())
        .collect()
}

fn random_bits(rng: &mut Xorshift64, len: usize) -> Vec<u8> {
    (0..len).map(|_| rng.next_bool() as u8).collect()
}

#[derive(Clone)]
struct Path {
    llr: Vec<Vec<f32>>,
    beta: Vec<u8>,
    decoded: Vec<u8>,
    metric: f32,
}

fn reference_node(
    frozen: &[bool],
    start: usize,
    length: usize,
    level: usize,
    list_size: usize,
    paths: &mut Vec<Path>,
) {
    if length == 1 {
        if frozen[start] {
            for path in paths.iter_mut() {
                let l = path.llr[level][0];
                path.decoded[start] = 0;
                path.beta[start] = 0;
                path.metric += 0.0_f32.max(-l);
            }
        } else {
            let mut forked: Vec<Path> = Vec::new();
            for path in paths.iter() {
                let l = path.llr[level][0];
                for bit in 0..2u8 {
                    let mut p = path.clone();
                    p.decoded[start] = bit;
                    p.beta[start] = bit;
                    p.metric += 0.0_f32.max(if bit == 0 { -l } else { l });
                    forked.push(p);
                }
            }
            forked.sort_by(|a, b| a.metric.partial_cmp(&b.metric).unwrap());
            forked.truncate(list_size);
            *paths = forked;
        }
        return;
    }
    let half = length / 2;
    for path in paths.iter_mut() {
        for i in 0..half {
            let a = path.llr[level][i];
            let b = path.llr[level][half + i];
            let sign = (a.to_bits() ^ b.to_bits()) & 0x8000_0000;
            path.llr[level + 1][i] = f32::from_bits(a.abs().min(b.abs()).to_bits() | sign);
        }
    }
    reference_node(frozen, start, half, level + 1, list_size, paths);
    for path in paths.iter_mut() {
        for i in 0..half {
            let a = path.llr[level][i];
            let b = path.llr[level][half + i];
            path.llr[level + 1][i] = if path.beta[start + i] == 0 { b + a } else { b - a };
        }
    }
    reference_node(frozen, start + half, half, level + 1, list_size, paths);
    for path in paths.iter_mut() {
        for i in 0..half {
            path.beta[start + i] ^= path.beta[start + half + i];
        }
    }
}

fn reference_scl(llr: &[u32], k: usize, list_size: usize, crc: Option<CrcKind>, out: &mut [u8]) {
    let n = llr.len();
    let frozen = frozen_mask(n, k);
    let levels = n.trailing_zeros() as usize;
    let mut first: Vec<Vec<f32>> = (0..=levels).map(|l| vec![0.0f32; n >> l]).collect();
    first[0] = llr.iter().map(|&p| f32::from_bits(p)).collect();
    let mut paths = vec![Path {
        llr: first,
        beta: vec![0u8; n],
        decoded: vec![0u8; n],
        metric: 0.0,
    }];
    reference_node(&frozen, 0, n, 0, list_size, &mut paths);
    let info_of = |p: &Path| -> Vec<u8> {
        (0..n).filter(|&i| !frozen[i]).map(|i| p.decoded[i]).collect()
    };
    let best = match crc {
        Some(kind) => {
            let eng = Crc24::new(kind);
            paths
                .iter()
                .find(|p| eng.check(&info_of(p)))
                .unwrap_or(&paths[0])
        }
        None => &paths[0],
    };
    out.copy_from_slice(&info_of(best));
}

#[test]
fn encode_all_zeros_info_gives_all_zeros() {
    let enc = PolarEncoder::new(8, 4).unwrap();
    let info = vec![0u8; 4];
    let mut cw = vec![0u8; 8];
    enc.encode(&info, &mut cw).unwrap();
    assert!(cw.iter().all(|&b| b == 0));
}

#[test]
fn invalid_n_rejected() {
    assert!(PolarEncoder::new(7, 4).is_err());
    assert!(PolarEncoder::new(0, 0).is_err());
}

#[test]
fn list_size_zero_rejected() {
    assert!(PolarDecoder::new(8, 4, 0, None).is_err());
    assert!(PolarDecoder::new(8, 4, 1, None).is_ok());
}

#[test]
fn frozen_mask_has_correct_info_count() {
    let n = 32usize;
    let k = 12usize;
    let mask = frozen_mask(n, k);
    let info_count = mask.iter().filter(|&&f| !f).count();
    assert_eq!(info_count, k);
}

#[test]
fn frozen_mask_n512_n1024_exact_recovery_from_real_table() {
    for &(n, k) in &[(512usize, 256usize), (1024usize, 512usize)] {
        let mask = frozen_mask(n, k);
        let info_count = mask.iter().filter(|&&f| !f).count();
        assert_eq!(info_count, k, "info bit count mismatch at N={n}, K={k}");

        let candidates: Vec<u16> = RELIABILITY_SEQ
            .iter()
            .copied()
            .filter(|&idx| (idx as usize) < n)
            .collect();
        assert_eq!(
            candidates.len(),
            n,
            "RELIABILITY_SEQ doesn't cover all {n} positions"
        );
        let mut expected_info: Vec<u16> = candidates[candidates.len() - k..].to_vec();
        expected_info.sort_unstable();

        let mut actual_info: Vec<u16> = (0..n as u16).filter(|&i| !mask[i as usize]).collect();
        actual_info.sort_unstable();

        assert_eq!(
            actual_info, expected_info,
            "frozen_mask's selection at N={n}, K={k} does not exactly \
             match the real 3GPP table's K best positions -- exact \
             recovery rate should be 100%, not partial"
        );

        const BETA: f64 = 0.25;
        let nbits = n.trailing_zeros();
        let pw_weight = |idx: u32| -> f64 {
            (0..nbits)
                .filter(|b| (idx >> b) & 1 == 1)
                .map(|b| 2f64.powf(BETA * b as f64))
                .sum()
        };
        let mut pw_order: Vec<u32> = (0..n as u32).collect();
        pw_order.sort_by(|&a, &b| {
            pw_weight(a)
                .partial_cmp(&pw_weight(b))
                .unwrap()
                .then(a.cmp(&b))
        });
        let mut pw_info: Vec<u16> = pw_order[pw_order.len() - k..]
            .iter()
            .map(|&x| x as u16)
            .collect();
        pw_info.sort_unstable();

        assert_ne!(
            actual_info, pw_info,
            "frozen_mask's output at N={n}, K={k} is identical to the \
             PW heuristic's, which would make this test unable to tell \
             apart 'using the real table' from 'still using PW'"
        );
    }
}

#[test]
fn sc_decode_exhaustive_n8_k4() {
    let n = 8usize;
    let k = 4usize;
    let enc = PolarEncoder::new(n, k).unwrap();
    let dec = PolarDecoder::new(n, k, 1, None).unwrap();
    for msg in 0u32..(1 << k) {
        let info: Vec<u8> = (0..k).map(|i| ((msg >> i) & 1) as u8).collect();
        let mut cw = vec![0u8; n];
        enc.encode(&info, &mut cw).unwrap();
        let llr = noiseless_llr(&cw, 10.0);
        let mut out = vec![0u8; k];
        dec.decode_sc(&llr, &mut out, &plus).unwrap();
        assert_eq!(
            out, info,
            "SC decode failed for info={info:?} (n={n}, k={k})"
        );
    }
}

#[test]
fn sc_decode_exhaustive_n16_k8() {
    let n = 16usize;
    let k = 8usize;
    let enc = PolarEncoder::new(n, k).unwrap();
    let dec = PolarDecoder::new(n, k, 1, None).unwrap();
    for msg in 0u32..(1 << k) {
        let info: Vec<u8> = (0..k).map(|i| ((msg >> i) & 1) as u8).collect();
        let mut cw = vec![0u8; n];
        enc.encode(&info, &mut cw).unwrap();
        let llr = noiseless_llr(&cw, 10.0);
        let mut out = vec![0u8; k];
        dec.decode_sc(&llr, &mut out, &plus).unwrap();
        assert_eq!(
            out, info,
            "SC decode failed for info={info:?} (n={n}, k={k})"
        );
    }
}

#[test]
fn scl_decode_exhaustive_n8_k4_list8() {
    let n = 8usize;
    let k = 4usize;
    let enc = PolarEncoder::new(n, k).unwrap();
    let dec = PolarDecoder::new(n, k, 8, None).unwrap();
    for msg in 0u32..(1 << k) {
        let info: Vec<u8> = (0..k).map(|i| ((msg >> i) & 1) as u8).collect();
        let mut cw = vec![0u8; n];
        enc.encode(&info, &mut cw).unwrap();
        let llr = noiseless_llr(&cw, 10.0);
        let mut out = vec![0u8; k];
        dec.decode_scl(&llr, &mut out, &plus).unwrap();
        assert_eq!(
            out, info,
            "SCL decode failed for info={info:?} (n={n}, k={k})"
        );
    }
}

fn sc_random_noiseless_round_trip(n: usize, k: usize, trials: usize, seed: u64) {
    let enc = PolarEncoder::new(n, k).unwrap();
    let dec = PolarDecoder::new(n, k, 1, None).unwrap();
    let mut rng = Xorshift64::new(seed);
    for trial in 0..trials {
        let info = random_bits(&mut rng, k);
        let mut cw = vec![0u8; n];
        enc.encode(&info, &mut cw).unwrap();
        let llr = noiseless_llr(&cw, 10.0);
        let mut out = vec![0u8; k];
        dec.decode_sc(&llr, &mut out, &plus).unwrap();
        assert_eq!(
            out, info,
            "SC random round-trip failed at n={n}, k={k}, trial={trial}"
        );
    }
}

#[test]
fn sc_decode_random_noiseless_n64_k32() {
    sc_random_noiseless_round_trip(64, 32, 100, 0xC0FF_EE01_u64);
}

#[test]
fn sc_decode_random_noiseless_n256_k128() {
    sc_random_noiseless_round_trip(256, 128, 100, 0xC0FF_EE02_u64);
}

#[test]
fn sc_decode_random_noiseless_n512_k256() {
    sc_random_noiseless_round_trip(512, 256, 100, 0xC0FF_EE04_u64);
}

#[test]
fn sc_decode_random_noiseless_n1024_k512() {
    sc_random_noiseless_round_trip(1024, 512, 100, 0xC0FF_EE03_u64);
}

#[test]
fn scl_ca_decode_random_noiseless_with_crc24() {
    let n = 128usize;
    let crc_len = 24usize;
    let info_len = 40usize;
    let k_with_crc = info_len + crc_len;
    let enc = PolarEncoder::new(n, k_with_crc).unwrap();
    let dec = PolarDecoder::new(n, k_with_crc, 8, Some(CrcKind::Crc24A)).unwrap();
    let crc_eng = Crc24::new(CrcKind::Crc24A);
    let mut rng = Xorshift64::new(0xC0FF_EE10_u64);
    for trial in 0..100 {
        let mut info = random_bits(&mut rng, info_len);
        crc_eng.attach(&mut info);
        assert_eq!(info.len(), k_with_crc);
        let mut cw = vec![0u8; n];
        enc.encode(&info, &mut cw).unwrap();
        let llr = noiseless_llr(&cw, 10.0);
        let mut out = vec![0u8; k_with_crc];
        dec.decode_scl(&llr, &mut out, &plus).unwrap();
        assert_eq!(
            out, info,
            "CA-SCL random round-trip failed at trial={trial}"
        );
    }
}

#[test]
fn awgn_n1024_k512_3db_sc_vs_ca_scl() {
    let n = 1024usize;
    let k = 512usize;
    let crc_len = 24usize;
    let info_len = k - crc_len;
    let ebno_db = 3.0f32;
    let trials = 20usize;
    let rate = k as f32 / n as f32;

    let enc_sc = PolarEncoder::new(n, k).unwrap();
    let dec_sc = PolarDecoder::new(n, k, 1, None).unwrap();
    let mut rng_sc = Xorshift64::new(0x5EED_5C00_u64);
    let mut channel_sc = awgn(ebno_db, rate, 0x5EED_C4A0_u64);
    let mut sc_successes = 0usize;
    for _ in 0..trials {
        let info = random_bits(&mut rng_sc, k);
        let mut cw = vec![0u8; n];
        enc_sc.encode(&info, &mut cw).unwrap();
        let llr = channel_sc.transmit(&cw, &receive);
        let mut out = vec![0u8; k];
        dec_sc.decode_sc(&llr, &mut out, &plus).unwrap();
        if out == info {
            sc_successes += 1;
        }
    }

    let enc_ca = PolarEncoder::new(n, k).unwrap();
    let dec_ca = PolarDecoder::new(n, k, 8, Some(CrcKind::Crc24A)).unwrap();
    let crc_eng = Crc24::new(CrcKind::Crc24A);
    let mut rng_ca = Xorshift64::new(0x5EED_5C01_u64);
    let mut channel_ca = awgn(ebno_db, rate, 0x5EED_C4A1_u64);
    let mut ca_successes = 0usize;
    for _ in 0..trials {
        let mut info = random_bits(&mut rng_ca, info_len);
        crc_eng.attach(&mut info);
        let mut cw = vec![0u8; n];
        enc_ca.encode(&info, &mut cw).unwrap();
        let llr = channel_ca.transmit(&cw, &receive);
        let mut out = vec![0u8; k];
        dec_ca.decode_scl(&llr, &mut out, &plus).unwrap();
        if out == info {
            ca_successes += 1;
        }
    }

    assert!(
        sc_successes >= 15,
        "SC success rate too low: {sc_successes}/{trials}"
    );
    assert!(
        ca_successes >= 15,
        "CA-SCL success rate too low: {ca_successes}/{trials}"
    );
}

#[test]
fn scl_arena_matches_reference_random_noisy() {
    struct Cfg {
        n: usize,
        k: usize,
        list_size: usize,
        crc: Option<CrcKind>,
        ebno_db: f32,
        seed: u64,
    }
    let configs = [
        Cfg {
            n: 64,
            k: 32,
            list_size: 4,
            crc: None,
            ebno_db: 2.0,
            seed: 0xA11C_E000,
        },
        Cfg {
            n: 128,
            k: 64,
            list_size: 8,
            crc: Some(CrcKind::Crc24A),
            ebno_db: 1.0,
            seed: 0xA11C_E001,
        },
        Cfg {
            n: 256,
            k: 128,
            list_size: 16,
            crc: Some(CrcKind::Crc11),
            ebno_db: 0.0,
            seed: 0xA11C_E002,
        },
        Cfg {
            n: 1024,
            k: 512,
            list_size: 8,
            crc: Some(CrcKind::Crc24A),
            ebno_db: (-1.0),
            seed: 0xA11C_E003,
        },
    ];

    for cfg in configs {
        assert!(cfg.list_size > 1);
        let rate = cfg.k as f32 / cfg.n as f32;
        let enc = PolarEncoder::new(cfg.n, cfg.k).unwrap();
        let dec = PolarDecoder::new(cfg.n, cfg.k, cfg.list_size, cfg.crc).unwrap();
        let mut rng = Xorshift64::new(cfg.seed);
        let mut channel = awgn(cfg.ebno_db, rate, cfg.seed ^ 0x5EED);

        for trial in 0..40 {
            let info = random_bits(&mut rng, cfg.k);
            let mut cw = vec![0u8; cfg.n];
            enc.encode(&info, &mut cw).unwrap();
            let llr = channel.transmit(&cw, &receive);

            let mut out_arena = vec![0u8; cfg.k];
            let mut out_reference = vec![0u8; cfg.k];
            dec.decode_scl(&llr, &mut out_arena, &plus).unwrap();
            reference_scl(&llr, cfg.k, cfg.list_size, cfg.crc, &mut out_reference);

            assert_eq!(
                out_arena, out_reference,
                "arena vs reference SCL decode mismatch: n={}, k={}, list_size={}, trial={trial}",
                cfg.n, cfg.k, cfg.list_size
            );
        }
    }
}

#[test]
fn polar_transform_is_its_own_inverse() {
    let mut rng = Xorshift64::new(3);
    let u = random_bits(&mut rng, 64);
    let mut w = u.clone();
    polar_transform(&mut w, 0, 64);
    assert_ne!(w, u);
    polar_transform(&mut w, 0, 64);
    assert_eq!(w, u);
    let mut small = vec![1u8, 1, 0, 1];
    polar_transform(&mut small, 0, 4);
    assert_eq!(small, vec![1, 0, 1, 1]);
}

#[test]
fn polar_errors_name_their_cause() {
    assert_eq!(
        PolarEncoder::new(12, 4).err(),
        Some(FecError::InvalidParam("polar N must be a positive power of 2"))
    );
    assert_eq!(PolarEncoder::new(8, 8).err(), Some(FecError::InvalidParam("k must be < n")));
    let dec = PolarDecoder::new(8, 4, 2, None).unwrap();
    let mut out = [0u8; 4];
    assert_eq!(
        dec.decode_scl(&[0u32; 7], &mut out, &plus),
        Err(FecError::BufferTooSmall { required: 8, provided: 7 })
    );
    let mut llr = [1.0f32.to_bits(); 8];
    llr[2] = f32::NAN.to_bits();
    assert!(matches!(dec.decode_sc(&llr, &mut out, &plus), Err(FecError::InvalidParam(_))));
    llr[2] = f32::INFINITY.to_bits();
    assert!(matches!(dec.decode_scl(&llr, &mut out, &plus), Err(FecError::InvalidParam(_))));
}

#[test]
fn mask_above_the_table_follows_the_weights() {
    let n = 2048usize;
    let k = 700usize;
    let weight = |idx: usize| -> f64 {
        (0..11).filter(|b| (idx >> b) & 1 == 1).map(|b| 2f64.powf(0.25 * b as f64)).sum()
    };
    let mut order: Vec<usize> = (0..n).collect();
    order.sort_by(|&a, &b| weight(a).partial_cmp(&weight(b)).unwrap().then(a.cmp(&b)));
    let mut expected = vec![true; n];
    for &i in &order[n - k..] {
        expected[i] = false;
    }
    assert_eq!(frozen_mask(n, k), expected);
}

#[test]
fn every_length_is_decided() {
    let odd = FecError::InvalidParam("polar N must be a positive power of 2");
    for n in [0usize, 3, 0x8000_0001, usize::MAX, usize::MAX - 1] {
        assert_eq!(PolarEncoder::new(n, 1).err(), Some(odd.clone()));
        assert_eq!(PolarDecoder::new(n, 1, 1, None).err(), Some(odd.clone()));
    }
    let big = usize::MAX / 2 + 1;
    let full = FecError::InvalidParam("k must be < n");
    assert_eq!(PolarEncoder::new(big, big).err(), Some(full.clone()));
    assert_eq!(PolarDecoder::new(big, usize::MAX, 1, None).err(), Some(full));
    let e = PolarEncoder::new(2048, 1000).unwrap();
    assert_eq!((e.n(), e.k()), (2048, 1000));
}

#[test]
fn larger_codes_free_every_position_of_smaller_ones() {
    for n in [1usize, 8, 64, 1024, 2048] {
        let step = (n / 64).max(1);
        let mut k = 0;
        while k + step < n {
            let a = frozen_mask(n, k);
            let b = frozen_mask(n, k + step);
            assert_eq!(a.iter().filter(|&&f| !f).count(), k);
            assert!(a.iter().zip(&b).all(|(&f, &g)| f || !g));
            k += step;
        }
    }
}

#[test]
fn encoder_and_decoder_agree_without_noise() {
    let mut rng = Xorshift64::new(0x1234_5678_9ABC_DEF1);
    for (n, k) in [(2usize, 1usize), (16, 9), (128, 70), (1024, 500)] {
        let enc = PolarEncoder::new(n, k).unwrap();
        let info: Vec<u8> = (0..k).map(|_| rng.next_bool() as u8).collect();
        let mut cw = vec![0u8; n];
        enc.encode(&info, &mut cw).unwrap();
        let llr: Vec<u32> =
            cw.iter().map(|&b| if b == 0 { 10.0f32 } else { -10.0 }.to_bits()).collect();
        for list in [1usize, 4] {
            let dec = PolarDecoder::new(n, k, list, None).unwrap();
            let mut out = vec![9u8; k];
            assert_eq!(dec.decode_sc(&llr, &mut out, &plus), Ok(()));
            assert_eq!(out, info);
            let mut out = vec![9u8; k];
            assert_eq!(dec.decode_scl(&llr, &mut out, &plus), Ok(()));
            assert_eq!(out, info);
        }
    }
}
