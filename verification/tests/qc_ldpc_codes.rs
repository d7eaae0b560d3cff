//! Quasi-cyclic LDPC codes.

use syndrome::error::FecError;
use syndrome::ldpc_decoder::QcLdpcDecoder;
use syndrome::qc_ldpc::{
    ils_for_z, BaseGraph, BaseGraphEntry, BaseGraphTable, QcLdpcEncoder, QcLdpcParams,
};

fn plus(a: u32, b: u32) -> u32 {
    (f32::from_bits(a) + f32::from_bits(b)).to_bits()
}

fn entry(row: usize, col: usize, salt: usize, fixed: Option<i16>) -> BaseGraphEntry {
    let shifts: Vec<i16> = (0..8)
        .map(|set| match fixed {
            Some(s) => s,
            None => ((row * 131 + col * 61 + set * 17 + salt) % 383) as i16,
        })
        .collect();
    BaseGraphEntry { row: row as u8, col: col as u8, shifts }
}

fn table(bg: BaseGraph) -> BaseGraphTable {
    let (rows, cols, x_row) = match bg {
        BaseGraph::Bg1 => (46usize, 68usize, 1usize),
        BaseGraph::Bg2 => (42, 52, 2),
    };
    let kb = cols - rows;
    let mut entries = Vec::new();
    for row in 0..rows {
        for col in 0..kb {
            let used = if row < 4 {
                (row + col) % 2 == 0 || col < 2
            } else {
                (row * 7 + col * 3) % kb < 3
            };
            if used {
                entries.push(entry(row, col, 5, None));
            }
        }
        if row == 0 || row == 3 {
            entries.push(entry(row, kb, 0, Some(1)));
        }
        if row == x_row {
            entries.push(entry(row, kb, 0, Some(0)));
        }
        if row < 4 {
            for (col, pair) in [(kb + 1, [0, 1]), (kb + 2, [1, 2]), (kb + 3, [2, 3])] {
                if pair.contains(&row) {
                    entries.push(entry(row, col, 0, Some(0)));
                }
            }
        } else {
            if row % 3 == 0 {
                entries.push(entry(row, kb + row % 4, 9, None));
            }
            entries.push(entry(row, kb + row, 0, Some(0)));
        }
    }
    BaseGraphTable::new(bg, rows, cols, entries).unwrap()
}

#[test]
fn ils_lookup() {
    assert_eq!(ils_for_z(2), Some(0));
    assert_eq!(ils_for_z(384), Some(1));
    assert_eq!(ils_for_z(320), Some(2));
    assert_eq!(ils_for_z(224), Some(3));
    assert_eq!(ils_for_z(7), Some(3));
    assert_eq!(ils_for_z(1), None);
    assert_eq!(ils_for_z(383), None);
}

#[test]
fn decoder_buffers_bg1_z384() {
    let dec = QcLdpcDecoder::new(&table(BaseGraph::Bg1), 0.25f32.to_bits());
    assert_eq!(dec.variable_node_count(), 68 * 384);
    assert_eq!(dec.check_node_count(), 46 * 384);
    assert!(dec.required_edge_buffer() > 0);
    assert!(dec.required_layer_buffer() > 0);
}

#[test]
fn decoder_buffers_bg2_z128() {
    let dec = QcLdpcDecoder::new(&table(BaseGraph::Bg2), 0.25f32.to_bits());
    assert_eq!(dec.variable_node_count(), 52 * 128);
    assert_eq!(dec.check_node_count(), 42 * 128);
}

#[test]
fn qc_ldpc_decoder_roundtrip() {
    let z = 2usize;
    let dec = QcLdpcDecoder::with_lifting_size(&table(BaseGraph::Bg1), z, 0.25f32.to_bits()).unwrap();
    let n = dec.variable_node_count();
    let mut llr = vec![0.5f32.to_bits(); n];
    let mut edge_r = vec![0u32; dec.required_edge_buffer()];
    let mut scratch = vec![0u32; dec.required_layer_buffer()];
    let mut hard = vec![0u8; n];
    dec.decode_layered_offset_min_sum(&mut llr, &mut edge_r, &mut scratch, &mut hard, 2, &plus)
        .expect("decoder should run");
    assert!(hard.iter().all(|b| *b == 0 || *b == 1));
}

#[test]
fn syndrome_check_early_termination() {
    let z = 2usize;
    let dec = QcLdpcDecoder::with_lifting_size(&table(BaseGraph::Bg2), z, 0.25f32.to_bits()).unwrap();
    let n = dec.variable_node_count();
    let mut llr = vec![10.0f32.to_bits(); n];
    let mut edge_r = vec![0u32; dec.required_edge_buffer()];
    let mut scratch = vec![0u32; dec.required_layer_buffer()];
    let mut hard = vec![0u8; n];
    let iters = dec
        .decode_layered_offset_min_sum(&mut llr, &mut edge_r, &mut scratch, &mut hard, 50, &plus)
        .expect("decoder should succeed");
    assert!(
        iters <= 5,
        "all-zero codeword should converge in ≤5 iterations, used {iters}"
    );
    assert!(
        hard.iter().all(|&b| b == 0),
        "all-zero codeword should decode to all zeros"
    );
}

#[test]
fn encoder_dimensions_bg1_z384() {
    let enc = QcLdpcEncoder::new(&table(BaseGraph::Bg1), 384).unwrap();
    assert_eq!(enc.info_bit_count(), 22 * 384);
    assert_eq!(enc.codeword_bit_count(), 68 * 384);
}

#[test]
fn encoder_dimensions_bg2_z128() {
    let enc = QcLdpcEncoder::new(&table(BaseGraph::Bg2), 128).unwrap();
    assert_eq!(enc.info_bit_count(), 10 * 128);
    assert_eq!(enc.codeword_bit_count(), 52 * 128);
}

#[test]
fn encoder_smoke_bg1_z2() {
    let z = 2usize;
    let enc = QcLdpcEncoder::new(&table(BaseGraph::Bg1), z).unwrap();
    let k = enc.info_bit_count();
    let n = enc.codeword_bit_count();
    let info = vec![0u8; k];
    let mut codeword = vec![0u8; n];
    enc.encode(&info, &mut codeword)
        .expect("encode should succeed");
    assert!(codeword.iter().all(|&b| b == 0));
}


struct XorShift64(u64);
impl XorShift64 {
    fn new(seed: u64) -> Self {
        Self(seed ^ 0x9E37_79B9_7F4A_7C15)
    }
    fn next_u64(&mut self) -> u64 {
        let mut x = self.0;
        x ^= x << 13;
        x ^= x >> 7;
        x ^= x << 17;
        self.0 = x;
        x.wrapping_mul(0x2545_F491_4F6C_DD1D)
    }
    fn random_bits(&mut self, n: usize) -> Vec<u8> {
        let mut bits = Vec::with_capacity(n);
        let mut word = 0u64;
        let mut avail = 0u32;
        for _ in 0..n {
            if avail == 0 {
                word = self.next_u64();
                avail = 64;
            }
            bits.push((word & 1) as u8);
            word >>= 1;
            avail -= 1;
        }
        bits
    }
}

fn codeword_satisfies_all_checks(params: &QcLdpcParams, codeword: &[u8]) -> bool {
    let z = params.z;
    for layer in 0..params.num_row_blocks {
        let begin = params.layer_offsets[layer];
        let end = params.layer_offsets[layer + 1];
        for z_idx in 0..z {
            let mut parity = 0u8;
            for e in begin..end {
                let col = params.submatrix_cols[e];
                let shift = params.submatrix_shifts[e] as usize;
                let s = z_idx + shift;
                let var = col * z + if s >= z { s - z } else { s };
                parity ^= codeword[var];
            }
            if parity != 0 {
                return false;
            }
        }
    }
    true
}

const CANDIDATE_Z: [usize; 7] = [2, 16, 52, 96, 128, 208, 384];

fn valid_test_sizes() -> Vec<usize> {
    CANDIDATE_Z
        .iter()
        .copied()
        .filter(|&z| ils_for_z(z).is_some())
        .collect()
}

#[test]
fn sparse_encoder_used_for_all_tested_bg_z_combos() {
    for &z in &valid_test_sizes() {
        for bg in [BaseGraph::Bg1, BaseGraph::Bg2] {
            let enc = QcLdpcEncoder::new(&table(bg), z).unwrap();
            assert!(
                enc.is_sparse(),
                "expected sparse strategy for {bg:?} z={z}, got dense fallback"
            );
        }
    }
}

#[test]
fn sparse_matches_dense_reference_bg1() {
    for &z in &valid_test_sizes() {
        let enc = QcLdpcEncoder::new(&table(BaseGraph::Bg1), z).unwrap();
        let k = enc.info_bit_count();
        let n = enc.codeword_bit_count();
        let mut rng = XorShift64::new(0xC0FFEE ^ z as u64);
        let info = rng.random_bits(k);

        let mut sparse_cw = vec![0u8; n];
        let mut dense_cw = vec![0u8; n];
        enc.encode(&info, &mut sparse_cw).unwrap();
        enc.encode_dense_reference(&info, &mut dense_cw).unwrap();

        assert_eq!(
            sparse_cw, dense_cw,
            "BG1 z={z}: sparse and dense encodes diverged"
        );
    }
}

#[test]
fn sparse_matches_dense_reference_bg2() {
    for &z in &valid_test_sizes() {
        let enc = QcLdpcEncoder::new(&table(BaseGraph::Bg2), z).unwrap();
        let k = enc.info_bit_count();
        let n = enc.codeword_bit_count();
        let mut rng = XorShift64::new(0xBADC0DE ^ z as u64);
        let info = rng.random_bits(k);

        let mut sparse_cw = vec![0u8; n];
        let mut dense_cw = vec![0u8; n];
        enc.encode(&info, &mut sparse_cw).unwrap();
        enc.encode_dense_reference(&info, &mut dense_cw).unwrap();

        assert_eq!(
            sparse_cw, dense_cw,
            "BG2 z={z}: sparse and dense encodes diverged"
        );
    }
}

#[test]
fn sparse_encoded_codewords_satisfy_syndrome() {
    for &z in &valid_test_sizes() {
        for bg in [BaseGraph::Bg1, BaseGraph::Bg2] {
            let params = QcLdpcParams::new(&table(bg), z).unwrap();
            let enc = QcLdpcEncoder::new(&table(bg), z).unwrap();
            let k = enc.info_bit_count();
            let n = enc.codeword_bit_count();
            let mut rng = XorShift64::new(0x5EED ^ ((bg as u64) << 32) ^ z as u64);
            let info = rng.random_bits(k);

            let mut codeword = vec![0u8; n];
            enc.encode(&info, &mut codeword).unwrap();

            assert!(
                codeword_satisfies_all_checks(&params, &codeword),
                "{bg:?} z={z}: sparse-encoded codeword failed H*c=0"
            );
        }
    }
}

#[test]
fn sparse_all_zero_info_yields_all_zero_codeword() {
    for &z in &valid_test_sizes() {
        for bg in [BaseGraph::Bg1, BaseGraph::Bg2] {
            let enc = QcLdpcEncoder::new(&table(bg), z).unwrap();
            let k = enc.info_bit_count();
            let n = enc.codeword_bit_count();
            let info = vec![0u8; k];
            let mut codeword = vec![0u8; n];
            enc.encode(&info, &mut codeword).unwrap();
            assert!(
                codeword.iter().all(|&b| b == 0),
                "{bg:?} z={z}: all-zero info should yield all-zero codeword"
            );
        }
    }
}

#[test]
fn noisy_codeword_is_corrected() {
    let z = 16usize;
    for bg in [BaseGraph::Bg1, BaseGraph::Bg2] {
        let enc = QcLdpcEncoder::new(&table(bg), z).unwrap();
        let dec = QcLdpcDecoder::with_lifting_size(&table(bg), z, 0.25f32.to_bits()).unwrap();
        let k = enc.info_bit_count();
        let n = enc.codeword_bit_count();
        let mut rng = XorShift64::new(4711);
        let info = rng.random_bits(k);
        let mut codeword = vec![0u8; n];
        enc.encode(&info, &mut codeword).unwrap();
        let mut llr: Vec<u32> = codeword
            .iter()
            .map(|&b| if b == 0 { 4.0f32 } else { -4.0f32 }.to_bits())
            .collect();
        for i in [5usize, 77, 130] {
            llr[i] ^= 0x8000_0000;
        }
        let mut edge_r = vec![0u32; dec.required_edge_buffer()];
        let mut scratch = vec![0u32; dec.required_layer_buffer()];
        let mut hard = vec![0u8; n];
        let used = dec
            .decode_layered_offset_min_sum(
                &mut llr,
                &mut edge_r,
                &mut scratch,
                &mut hard,
                50,
                &plus,
            )
            .unwrap();
        assert!(used < 50);
        assert_eq!(hard, codeword);
        assert!(enc.parameters().check_syndrome(&hard));
    }
}

#[test]
fn filler_bits_are_zero_and_come_back_as_zero() {
    let z = 8usize;
    let bg = BaseGraph::Bg2;
    let enc = QcLdpcEncoder::new(&table(bg), z).unwrap();
    let dec = QcLdpcDecoder::with_lifting_size(&table(bg), z, 0.25f32.to_bits()).unwrap();
    let k = enc.info_bit_count();
    let n = enc.codeword_bit_count();
    let n_filler = 11usize;
    let mut rng = XorShift64::new(8);
    let info = rng.random_bits(k - n_filler);
    let mut codeword = vec![0u8; n];
    enc.encode_5g(&info, n_filler, &mut codeword).unwrap();
    assert!(codeword[k - n_filler..k].iter().all(|&b| b == 0));
    let mut llr: Vec<u32> = codeword
        .iter()
        .map(|&b| if b == 0 { 6.0f32 } else { -6.0f32 }.to_bits())
        .collect();
    let mut edge_r = vec![0u32; dec.required_edge_buffer()];
    let mut scratch = vec![0u32; dec.required_layer_buffer()];
    let mut hard = vec![0u8; n];
    dec.decode_5g(&mut llr, n_filler, &mut edge_r, &mut scratch, &mut hard, 60, &plus)
        .unwrap();
    assert_eq!(&hard[2 * z..k], &codeword[2 * z..k]);
}

#[test]
fn ldpc_errors_name_their_cause() {
    let t = table(BaseGraph::Bg2);
    assert_eq!(
        QcLdpcDecoder::with_lifting_size(&t, 17, 0).err(),
        Some(FecError::InvalidParam("z is not a valid 3GPP lifting size"))
    );
    let enc = QcLdpcEncoder::new(&t, 2).unwrap();
    assert_eq!(enc.base_graph(), BaseGraph::Bg2);
    assert_eq!(enc.lifting_size(), 2);
    assert_eq!(
        enc.encode(&[0u8; 19], &mut [0u8; 104]),
        Err(FecError::BufferTooSmall { required: 20, provided: 19 })
    );
    assert_eq!(
        enc.encode_5g(&[0u8; 19], 21, &mut [0u8; 104]),
        Err(FecError::InvalidParam("n_filler exceeds k_bits"))
    );
    let dec = QcLdpcDecoder::with_lifting_size(&t, 2, 0).unwrap();
    assert_eq!(
        dec.decode_layered_offset_min_sum(
            &mut [0u32; 103],
            &mut [],
            &mut [],
            &mut [0u8; 104],
            1,
            &plus
        ),
        Err(FecError::InvalidParam("llr length must equal variable_node_count()"))
    );
    assert!(matches!(
        dec.decode_layered_offset_min_sum(
            &mut [0u32; 104],
            &mut [],
            &mut [],
            &mut [0u8; 104],
            1,
            &plus
        ),
        Err(FecError::BufferTooSmall { provided: 0, .. })
    ));
}

#[test]
fn tables_of_the_wrong_shape_are_refused() {
    assert!(BaseGraphTable::new(BaseGraph::Bg1, 42, 52, Vec::new()).is_err());
    let outside = vec![entry(42, 0, 0, None)];
    assert!(BaseGraphTable::new(BaseGraph::Bg2, 42, 52, outside).is_err());
    let good = vec![entry(41, 51, 0, None)];
    assert!(BaseGraphTable::new(BaseGraph::Bg2, 42, 52, good).is_ok());
}

#[test]
fn a_graph_without_parity_blocks_cannot_encode() {
    let t = BaseGraphTable::new(BaseGraph::Bg2, 42, 52, vec![entry(0, 0, 0, None)]).unwrap();
    assert_eq!(
        QcLdpcEncoder::new(&t, 2).err(),
        Some(FecError::InvalidParam("parity matrix is singular \u{2014} cannot encode"))
    );
}

#[test]
fn elimination_encodes_graphs_of_another_shape() {
    let bg = BaseGraph::Bg2;
    let mut entries = Vec::new();
    for row in 0..42usize {
        entries.push(entry(row, row % 10, 3, None));
        entries.push(entry(row, 10 + (row * 5) % 42, 0, Some(1)));
    }
    let t = BaseGraphTable::new(bg, 42, 52, entries).unwrap();
    let enc = QcLdpcEncoder::new(&t, 3).unwrap();
    assert!(!enc.is_sparse());
    let mut rng = XorShift64::new(21);
    let info = rng.random_bits(enc.info_bit_count());
    let mut codeword = vec![0u8; enc.codeword_bit_count()];
    enc.encode(&info, &mut codeword).unwrap();
    assert_eq!(&codeword[..info.len()], &info[..]);
    assert!(enc.parameters().check_syndrome(&codeword));
}

#[test]
fn decode_5g_refuses_too_few_likelihoods() {
    let dec = QcLdpcDecoder::with_lifting_size(&table(BaseGraph::Bg1), 2, 0.25f32.to_bits()).unwrap();
    assert_eq!(dec.variable_node_count(), 136);
    assert_eq!(dec.info_bit_count_5g(), 44);
    let mut edge_r = vec![7u32; dec.required_edge_buffer()];
    let mut scratch = vec![7u32; dec.required_layer_buffer()];
    let mut hard = vec![9u8; 136];
    for len in [0usize, 10, 43] {
        let mut llr = vec![5.0f32.to_bits(); len];
        let r = dec.decode_5g(&mut llr, 3, &mut edge_r, &mut scratch, &mut hard, 5, &plus);
        assert_eq!(
            r,
            Err(FecError::InvalidParam("llr length must equal variable_node_count()"))
        );
        assert!(llr.iter().all(|&l| l == 5.0f32.to_bits()));
    }
    assert!(edge_r.iter().chain(&scratch).all(|&w| w == 7));
    assert!(hard.iter().all(|&b| b == 9));
}
