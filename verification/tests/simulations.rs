//! Payloads, counts and trials of the simulations.

use syndrome::bits::bits_to_bytes_vec;
use syndrome::channel_sim::{splitmix64, AwgnChannel};
use syndrome::error::FecError;
use syndrome::ldpc_decoder::QcLdpcDecoder;
use syndrome::qc_ldpc::{BaseGraph, BaseGraphEntry, BaseGraphTable, QcLdpcEncoder};
use syndrome::simulation::{
    hard_decision_checksum, init_llr, is_good_trial, random_bits, run_ldpc_round_trip, run_trial,
    spread_bits, FrameTally, Xorshift64,
};

fn plus(a: u32, b: u32) -> u32 {
    (f32::from_bits(a) + f32::from_bits(b)).to_bits()
}

fn receive(x: u32, p: u32, q: u32, sigma: u32) -> u32 {
    let s = f32::from_bits(sigma);
    let u1 = (f32::from_bits(p) - 1.0).max(1e-38_f32);
    let u2 = f32::from_bits(q) - 1.0;
    let g = (-2.0 * u1.ln()).sqrt() * (2.0 * core::f32::consts::PI * u2).cos();
    let r = f32::from_bits(x) + g * s;
    (r * (2.0 / (s * s))).to_bits()
}

fn entry(row: usize, col: usize, salt: usize, fixed: Option<i16>) -> BaseGraphEntry {
    let shifts: Vec<i16> = (0..8)
        .map(|set| match fixed {
            Some(s) => s,
            None => ((row * 131 + col * 61 + set * 17 + salt) % 383) as i16,
        })
        .collect();
    BaseGraphEntry { row: row as u8, col: col as u8, shifts }
}

fn table(bg: BaseGraph) -> BaseGraphTable {
    let (rows, cols, x_row) = match bg {
        BaseGraph::Bg1 => (46usize, 68usize, 1usize),
        BaseGraph::Bg2 => (42, 52, 2),
    };
    let kb = cols - rows;
    let mut entries = Vec::new();
    for row in 0..rows {
        for col in 0..kb {
            let used = if row < 4 {
                (row + col) % 2 == 0 || col < 2
            } else {
                (row * 7 + col * 3) % kb < 3
            };
            if used {
                entries.push(entry(row, col, 5, None));
            }
        }
        if row == 0 || row == 3 {
            entries.push(entry(row, kb, 0, Some(1)));
        }
        if row == x_row {
            entries.push(entry(row, kb, 0, Some(0)));
        }
        if row < 4 {
            for (col, pair) in [(kb + 1, [0, 1]), (kb + 2, [1, 2]), (kb + 3, [2, 3])] {
                if pair.contains(&row) {
                    entries.push(entry(row, col, 0, Some(0)));
                }
            }
        } else {
            if row % 3 == 0 {
                entries.push(entry(row, kb + row % 4, 9, None));
            }
            entries.push(entry(row, kb + row, 0, Some(0)));
        }
    }
    BaseGraphTable::new(bg, rows, cols, entries).unwrap()
}

#[test]
fn payload_comes_back_from_the_demonstration() {
    assert!(run_ldpc_round_trip(&table(BaseGraph::Bg2), &plus));
}

#[test]
fn demonstration_fails_without_parity() {
    let t = BaseGraphTable::new(BaseGraph::Bg2, 42, 52, vec![entry(0, 0, 0, None)]).unwrap();
    assert!(!run_ldpc_round_trip(&t, &plus));
}

#[test]
fn trial_over_a_noisy_channel() {
    let t = table(BaseGraph::Bg1);
    let enc = QcLdpcEncoder::new(&t, 8).unwrap();
    let dec = QcLdpcDecoder::with_lifting_size(&t, 8, 0.25f32.to_bits()).unwrap();
    let info = spread_bits(enc.info_bit_count());
    let mut channel = AwgnChannel::new(0.5f32.to_bits(), 3);
    let r = run_trial(&enc, &dec, &info, &mut channel, &receive, 30, &plus);
    assert_eq!(r.codeword.len(), enc.codeword_bit_count());
    assert_eq!(&r.codeword[..info.len()], &info[..]);
    assert!(r.pre_errors > 0);
    assert_eq!(
        r.pre_errors,
        r.pre_hard.iter().zip(r.codeword.iter()).filter(|(a, b)| a != b).count()
    );
    assert_eq!(r.final_errors, 0);
    assert_eq!(r.hard, r.codeword);
    assert!(r.converged && r.iterations_used < 30);
}

#[test]
fn checksums_of_short_words() {
    assert_eq!(hard_decision_checksum(&[]), 0xcbf2_9ce4_8422_2325);
    assert_eq!(hard_decision_checksum(&[0]), 0xaf63_bd4c_8601_b7df);
    assert_eq!(hard_decision_checksum(&[1]), 0xaf63_bc4c_8601_b62c);
    assert_eq!(hard_decision_checksum(&[1, 0, 3]), hard_decision_checksum(&[1, 0, 1]));
}

#[test]
fn generators_and_payloads() {
    assert_eq!(random_bits(8, 7), vec![0, 0, 1, 0, 0, 1, 0, 1]);
    assert_eq!(spread_bits(10), vec![0, 1, 0, 1, 0, 0, 1, 0, 1, 1]);
    let mut zero = Xorshift64::new(0);
    let mut other = Xorshift64::new(0xDEAD_BEEF_CAFE_BABE);
    assert_eq!(other.next_u64(), 0x27DC_5C1B_2D04_284B);
    let mut other = Xorshift64::new(0xDEAD_BEEF_CAFE_BABE);
    assert_eq!(zero.next_u64(), other.next_u64());
    for _ in 0..100 {
        assert!(zero.next_bit() <= 1);
        assert!(zero.next_fraction() < 1 << 24);
    }
    let mut llr = [0u32; 3];
    init_llr(&mut llr);
    assert_eq!(llr.map(f32::from_bits), [0.5, -0.5, 0.5]);
}

#[test]
fn two_seeds_share_a_state() {
    assert_eq!(splitmix64(0x61C8_8646_80B5_83EB), 1);
    assert_eq!(splitmix64(0xF836_4607_E9C9_49BD), 1);
}

#[test]
fn frames_are_counted_until_enough() {
    let mut tally = FrameTally::new();
    let mut n = 0usize;
    while tally.wants_more() {
        let decided = if n % 2 == 0 { [0u8, 1, 1] } else { [0, 0, 0] };
        tally.record(&[0, 0, 0], &decided);
        n += 1;
    }
    assert_eq!(tally.frame_errors(), 50);
    assert_eq!(tally.bit_errors(), 100);
    assert_eq!(tally.frames(), 99);

    let mut clean = FrameTally::new();
    while clean.wants_more() {
        clean.record(&[1, 0], &[1, 0]);
    }
    assert_eq!((clean.frames(), clean.frame_errors(), clean.bit_errors()), (500, 0, 0));
}

#[test]
fn good_trials_show_decoding_at_work() {
    assert!(is_good_trial(25, 4, 0));
    assert!(is_good_trial(160, 13, 0));
    assert!(!is_good_trial(24, 4, 0));
    assert!(!is_good_trial(161, 4, 0));
    assert!(!is_good_trial(100, 3, 0));
    assert!(!is_good_trial(100, 14, 0));
    assert!(!is_good_trial(100, 5, 1));
}

#[test]
fn errors_have_messages() {
    assert_eq!(FecError::InvalidParam("k must be < n").message(), "invalid parameter: k must be < n");
    assert_eq!(FecError::CrcMismatch.message(), "CRC check failed");
    assert_eq!(FecError::DecoderNotConverged.message(), "LDPC decoder did not converge");
    let e = bits_to_bytes_vec(&[0, 1, 1]).err().unwrap();
    assert!(e.message().starts_with("invalid parameter: "));
    assert_eq!(
        FecError::BufferTooSmall { required: 26112, provided: 0 }.message(),
        "buffer too small: required 26112 bytes, got 0"
    );
}
