//! Decisions of the foreign interface.

use syndrome::capi::{
    base_graph_from_i32, pointer_status, BaseGraphTables, SyndromeLdpcDecoder,
    SyndromeLdpcEncoder, SyndromeStatus,
};
use syndrome::error::FecError;
use syndrome::qc_ldpc::{BaseGraph, BaseGraphEntry, BaseGraphTable};

fn plus(a: u32, b: u32) -> u32 {
    (f32::from_bits(a) + f32::from_bits(b)).to_bits()
}

fn entry(row: usize, col: usize, salt: usize, fixed: Option<i16>) -> BaseGraphEntry {
    let shifts: Vec<i16> = (0..8)
        .map(|set| match fixed {
            Some(s) => s,
            None => ((row * 131 + col * 61 + set * 17 + salt) % 383) as i16,
        })
        .collect();
    BaseGraphEntry { row: row as u8, col: col as u8, shifts }
}

fn table(bg: BaseGraph) -> BaseGraphTable {
    let (rows, cols, x_row) = match bg {
        BaseGraph::Bg1 => (46usize, 68usize, 1usize),
        BaseGraph::Bg2 => (42, 52, 2),
    };
    let kb = cols - rows;
    let mut entries = Vec::new();
    for row in 0..rows {
        for col in 0..kb {
            let used = if row < 4 {
                (row + col) % 2 == 0 || col < 2
            } else {
                (row * 7 + col * 3) % kb < 3
            };
            if used {
                entries.push(entry(row, col, 5, None));
            }
        }
        if row == 0 || row == 3 {
            entries.push(entry(row, kb, 0, Some(1)));
        }
        if row == x_row {
            entries.push(entry(row, kb, 0, Some(0)));
        }
        if row < 4 {
            for (col, pair) in [(kb + 1, [0, 1]), (kb + 2, [1, 2]), (kb + 3, [2, 3])] {
                if pair.contains(&row) {
                    entries.push(entry(row, col, 0, Some(0)));
                }
            }
        } else {
            if row % 3 == 0 {
                entries.push(entry(row, kb + row % 4, 9, None));
            }
            entries.push(entry(row, kb + row, 0, Some(0)));
        }
    }
    BaseGraphTable::new(bg, rows, cols, entries).unwrap()
}

fn tables() -> BaseGraphTables {
    BaseGraphTables { bg1: table(BaseGraph::Bg1), bg2: table(BaseGraph::Bg2) }
}

#[test]
fn round_trip_through_c_abi() {
    let t = tables();
    let encoder = SyndromeLdpcEncoder::create(&t, 0, 4).ok().unwrap();
    let decoder = SyndromeLdpcDecoder::create(&t, 0, 4, 0.5f32.to_bits()).ok().unwrap();

    let k = encoder.info_bit_count();
    let n = encoder.codeword_bit_count();
    assert_eq!(n, decoder.variable_node_count());
    assert_eq!(k, decoder.info_bit_count());

    let n_filler = 0usize;
    let info: Vec<u8> = (0..k).map(|i| (i % 3 == 0) as u8).collect();
    let mut codeword = vec![0u8; n];
    let status = encoder.encode_5g(&info, n_filler, &mut codeword);
    assert_eq!(status.code(), 0);

    let mut llr: Vec<u32> = codeword
        .iter()
        .map(|&b| if b == 0 { 5.0f32 } else { -5.0f32 }.to_bits())
        .collect();
    let mut edge_r = vec![0u32; decoder.required_edge_buffer()];
    let mut layer_scratch = vec![0u32; decoder.required_layer_buffer()];
    let mut hard = vec![0u8; n];
    let (status, used) = decoder.decode_5g(
        &mut llr,
        n_filler,
        &mut edge_r,
        &mut layer_scratch,
        &mut hard,
        10,
        &plus,
    );
    assert_eq!(status, SyndromeStatus::Success);
    assert!(used.is_some());
    assert_eq!(&hard[..k], &info[..], "decoded info bits must match input");
}

#[test]
fn null_out_pointer_is_rejected() {
    assert_eq!(pointer_status(&[false]).code(), -5);
    assert_eq!(pointer_status(&[true]), SyndromeStatus::Success);
}

#[test]
fn null_handle_is_rejected() {
    assert_eq!(pointer_status(&[false, false, false]), SyndromeStatus::NullPointer);
    assert_eq!(pointer_status(&[true, true, false]), SyndromeStatus::NullPointer);
    assert_eq!(pointer_status(&[true, true, true]), SyndromeStatus::Success);
}

#[test]
fn invalid_base_graph_selector_is_rejected() {
    let r = SyndromeLdpcEncoder::create(&tables(), 2, 4);
    assert_eq!(r.err(), Some(SyndromeStatus::InvalidParam));
    assert_eq!(base_graph_from_i32(0), Ok(BaseGraph::Bg1));
    assert_eq!(base_graph_from_i32(1), Ok(BaseGraph::Bg2));
    assert_eq!(base_graph_from_i32(-1), Err(SyndromeStatus::InvalidParam));
}

#[test]
fn undersized_buffer_is_reported_not_ub() {
    let encoder = SyndromeLdpcEncoder::create(&tables(), 0, 4).ok().unwrap();
    let k = encoder.info_bit_count();
    let n = encoder.codeword_bit_count();
    let info = vec![0u8; k];
    let mut short_codeword = vec![0u8; n - 1];
    let status = encoder.encode_5g(&info, 0, &mut short_codeword);
    assert_eq!(status.code(), -4);
}

#[test]
fn decoding_tells_short_buffers_from_long_ones() {
    let d = SyndromeLdpcDecoder::create(&tables(), 1, 2, 0).ok().unwrap();
    let n = d.variable_node_count();
    let e = d.required_edge_buffer();
    let l = d.required_layer_buffer();
    let mut status = |llr: usize, edge: usize, layer: usize, hard: usize| {
        d.decode_5g(
            &mut vec![0u32; llr],
            0,
            &mut vec![0u32; edge],
            &mut vec![0u32; layer],
            &mut vec![0u8; hard],
            1,
            &plus,
        )
        .0
    };
    assert_eq!(status(n - 1, e, l, n), SyndromeStatus::BufferTooSmall);
    assert_eq!(status(0, e, l, n), SyndromeStatus::BufferTooSmall);
    assert_eq!(status(n, e - 1, l, n), SyndromeStatus::BufferTooSmall);
    assert_eq!(status(n, e, l - 1, n), SyndromeStatus::BufferTooSmall);
    assert_eq!(status(n, e, l, n - 1), SyndromeStatus::BufferTooSmall);
    assert_eq!(status(n + 1, e, l, n), SyndromeStatus::InvalidParam);
    assert_eq!(status(n, e, l, n + 1), SyndromeStatus::InvalidParam);
    assert_eq!(status(n, e, l, n), SyndromeStatus::Success);
}

#[test]
fn statuses_and_errors_correspond() {
    assert_eq!(SyndromeStatus::from(FecError::InvalidParam("x")).code(), -1);
    assert_eq!(SyndromeStatus::from(FecError::CrcMismatch).code(), -2);
    assert_eq!(SyndromeStatus::from(FecError::DecoderNotConverged).code(), -3);
    assert_eq!(
        SyndromeStatus::from(FecError::BufferTooSmall { required: 2, provided: 1 }).code(),
        -4
    );
    assert_eq!(SyndromeStatus::NullPointer.code(), -5);
    assert_eq!(SyndromeStatus::Panic.code(), -6);
    assert_eq!(
        SyndromeLdpcDecoder::create(&tables(), 0, 5000, 0).err(),
        Some(SyndromeStatus::InvalidParam)
    );
}

#[test]
fn violated_checks_are_reported_as_not_converged() {
    let d = SyndromeLdpcDecoder::create(&tables(), 0, 4, 0.5f32.to_bits()).ok().unwrap();
    let n = d.variable_node_count();
    let decode = |llr: &[u32], iterations: usize, hard: &mut [u8]| {
        d.decode_5g(
            &mut llr.to_vec(),
            0,
            &mut vec![0u32; d.required_edge_buffer()],
            &mut vec![0u32; d.required_layer_buffer()],
            hard,
            iterations,
            &plus,
        )
    };

    // One parity bit against the all-zero codeword: without a pass it stays.
    let mut llr = vec![5.0f32.to_bits(); n];
    llr[n - 1] = (-5.0f32).to_bits();
    let mut hard = vec![0u8; n];
    let (status, used) = decode(&llr, 0, &mut hard);
    assert_eq!(status, SyndromeStatus::DecoderNotConverged);
    assert_eq!(status.code(), -3);
    assert_eq!(used, None);
    assert_eq!(hard[n - 1], 1);

    // Signs without a codeword near them, after passes.
    let mut x = 0x9E37_79B9_7F4A_7C15u64;
    let noise: Vec<u32> = (0..n)
        .map(|_| {
            x ^= x << 13;
            x ^= x >> 7;
            x ^= x << 17;
            if x >> 63 == 0 { 5.0f32 } else { -5.0 }.to_bits()
        })
        .collect();
    let (status, used) = decode(&noise, 2, &mut hard);
    assert_eq!(status, SyndromeStatus::DecoderNotConverged);
    assert_eq!(used, None);

    // A codeword converges, with or without passes.
    let clear = vec![5.0f32.to_bits(); n];
    assert_eq!(decode(&clear, 0, &mut hard), (SyndromeStatus::Success, Some(0)));
    assert_eq!(decode(&clear, 5, &mut hard), (SyndromeStatus::Success, Some(1)));
    assert!(hard.iter().all(|&b| b == 0));
}
