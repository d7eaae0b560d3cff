//! The pool of frames.

use std::collections::BTreeSet;

use syndrome::ldpc_decoder::QcLdpcDecoder;
use syndrome::ldpc_pipeline::{pick_worker, LdpcFrame, LdpcPipeline, POOL_SIZE};
use syndrome::qc_ldpc::{BaseGraph, BaseGraphEntry, BaseGraphTable};

fn plus(a: u32, b: u32) -> u32 {
    (f32::from_bits(a) + f32::from_bits(b)).to_bits()
}

fn entry(row: usize, col: usize, salt: usize, fixed: Option<i16>) -> BaseGraphEntry {
    let shifts: Vec<i16> = (0..8)
        .map(|set| match fixed {
            Some(s) => s,
            None => ((row * 131 + col * 61 + set * 17 + salt) % 383) as i16,
        })
        .collect();
    BaseGraphEntry { row: row as u8, col: col as u8, shifts }
}

fn table(bg: BaseGraph) -> BaseGraphTable {
    let (rows, cols, x_row) = match bg {
        BaseGraph::Bg1 => (46usize, 68usize, 1usize),
        BaseGraph::Bg2 => (42, 52, 2),
    };
    let kb = cols - rows;
    let mut entries = Vec::new();
    for row in 0..rows {
        for col in 0..kb {
            let used = if row < 4 {
                (row + col) % 2 == 0 || col < 2
            } else {
                (row * 7 + col * 3) % kb < 3
            };
            if used {
                entries.push(entry(row, col, 5, None));
            }
        }
        if row == 0 || row == 3 {
            entries.push(entry(row, kb, 0, Some(1)));
        }
        if row == x_row {
            entries.push(entry(row, kb, 0, Some(0)));
        }
        if row < 4 {
            for (col, pair) in [(kb + 1, [0, 1]), (kb + 2, [1, 2]), (kb + 3, [2, 3])] {
                if pair.contains(&row) {
                    entries.push(entry(row, col, 0, Some(0)));
                }
            }
        } else {
            if row % 3 == 0 {
                entries.push(entry(row, kb + row % 4, 9, None));
            }
            entries.push(entry(row, kb + row, 0, Some(0)));
        }
    }
    BaseGraphTable::new(bg, rows, cols, entries).unwrap()
}

fn protocol_decoder() -> QcLdpcDecoder {
    QcLdpcDecoder::with_lifting_size(&table(BaseGraph::Bg1), 16, 0.25f32.to_bits()).unwrap()
}

fn fill(frame: &mut LdpcFrame, value: f32) {
    frame.llr_mut().iter_mut().for_each(|v| *v = value.to_bits());
}

fn run_worker(pipe: &mut LdpcPipeline, w: usize) -> bool {
    let decoder = pipe.decoder().clone();
    let iterations = pipe.iterations();
    match pipe.next_work(w) {
        None => false,
        Some(mut frame) => {
            frame.decode(&decoder, iterations, &plus);
            pipe.complete(w, frame);
            true
        }
    }
}

fn run_all(pipe: &mut LdpcPipeline) {
    for w in (0..pipe.worker_count()).rev() {
        while run_worker(pipe, w) {}
    }
}

#[test]
fn pick_worker_prefers_the_least_loaded() {
    for cursor in 0..8 {
        assert_eq!(pick_worker(&[3, 0, 5], cursor), 1);
        assert_eq!(pick_worker(&[9, 9, 1, 9], cursor), 2);
        assert_eq!(pick_worker(&[0, 4, 4, 4], cursor), 0);
    }
    for cursor in 0..4 {
        assert_eq!(pick_worker(&[7], cursor), 0);
    }
}

#[test]
fn pick_worker_rotates_when_all_workers_are_equal() {
    let idle = [0usize; 4];
    let picks: Vec<usize> = (0..8).map(|c| pick_worker(&idle, c)).collect();
    assert_eq!(picks, vec![0, 1, 2, 3, 0, 1, 2, 3]);

    let busy = [2usize; 3];
    let picks: Vec<usize> = (0..6).map(|c| pick_worker(&busy, c)).collect();
    assert_eq!(picks, vec![0, 1, 2, 0, 1, 2]);
}

#[test]
fn pick_worker_breaks_minimum_ties_without_choosing_a_busier_worker() {
    let load = [1usize, 6, 1, 6];
    for cursor in 0..8 {
        let chosen = pick_worker(&load, cursor);
        assert!(
            chosen == 0 || chosen == 2,
            "cursor {cursor} chose worker {chosen}, which is not at the minimum load"
        );
    }
    let chosen: BTreeSet<usize> = (0..8).map(|c| pick_worker(&load, c)).collect();
    assert_eq!(chosen, [0, 2].into_iter().collect());
}

#[test]
fn outstanding_counts_return_to_zero_after_a_full_drain() {
    let decoder =
        QcLdpcDecoder::with_lifting_size(&table(BaseGraph::Bg2), 2, 0.5f32.to_bits()).unwrap();
    let mut pipe = LdpcPipeline::with_workers(decoder, 2, 3);

    const N: usize = 9;
    for _ in 0..N {
        let mut frame = pipe.acquire().expect("pool has 16 slots");
        fill(&mut frame, 1.0);
        assert!(pipe.submit(frame).is_ok(), "rings hold 16 each");
    }
    assert_eq!(
        pipe.outstanding().iter().sum::<usize>(),
        N,
        "every submitted frame must be counted against some worker"
    );
    assert_eq!(pipe.outstanding(), &[3, 3, 3]);

    let mut received = 0usize;
    while received < N {
        if let Some(frame) = pipe.try_recv() {
            pipe.release(frame);
            received += 1;
        } else {
            run_all(&mut pipe);
        }
    }
    assert!(
        pipe.outstanding().iter().all(|&c| c == 0),
        "load counters left as {:?} after draining every frame",
        pipe.outstanding()
    );
}

#[test]
fn pipeline_roundtrip_single_frame() {
    let decoder = protocol_decoder();
    let n = decoder.variable_node_count();
    let mut pipe = LdpcPipeline::new(decoder, 5, Some(4));

    let mut frame = pipe.acquire().expect("pool should have free slots");
    fill(&mut frame, 5.0);
    assert!(pipe.submit(frame).is_ok());

    let result = loop {
        if let Some(r) = pipe.try_recv() {
            break r;
        }
        run_all(&mut pipe);
    };

    assert_eq!(result.hard().len(), n);
    assert!(result.hard().iter().all(|&b| b == 0));
    assert_eq!(result.iterations_used(), 1);
    pipe.release(result);
}

#[test]
fn pipeline_all_slots_cycle() {
    let decoder = protocol_decoder();
    let mut pipe = LdpcPipeline::new(decoder, 3, None);
    assert_eq!(pipe.worker_count(), 1);

    for _ in 0..POOL_SIZE {
        let mut frame = pipe.acquire().expect("enough slots");
        fill(&mut frame, 5.0);
        assert!(pipe.submit(frame).is_ok());
    }
    assert!(pipe.acquire().is_none());

    let mut received = 0usize;
    while received < POOL_SIZE {
        if let Some(result) = pipe.try_recv() {
            pipe.release(result);
            received += 1;
        } else {
            run_all(&mut pipe);
        }
    }
    assert_eq!(received, POOL_SIZE);
}

#[test]
fn pipeline_multi_worker_throughput() {
    let decoder = protocol_decoder();
    let n = decoder.variable_node_count();
    let mut pipe = LdpcPipeline::with_workers(decoder, 3, 4);

    const FRAMES: usize = 64;
    let mut submitted = 0usize;
    let mut received = 0usize;

    while submitted < FRAMES || received < FRAMES {
        if submitted < FRAMES {
            if let Some(mut frame) = pipe.acquire() {
                fill(&mut frame, 5.0);
                assert!(pipe.submit(frame).is_ok());
                submitted += 1;
            }
        }
        if let Some(result) = pipe.try_recv() {
            assert_eq!(result.hard().len(), n);
            assert!(result.hard().iter().all(|&b| b == 0));
            pipe.release(result);
            received += 1;
        } else {
            run_worker(&mut pipe, received % 4);
        }
    }
    assert_eq!(received, FRAMES);
}

#[test]
fn new_uses_available_hardware_parallelism() {
    for (detected, expected) in [(None, 1usize), (Some(0), 1), (Some(1), 1), (Some(5), 5), (Some(64), 8)] {
        let pipe = LdpcPipeline::new(protocol_decoder(), 3, detected);
        assert_eq!(pipe.worker_count(), expected);
    }
}

#[test]
fn pipeline_worker_count_clamp() {
    let decoder = protocol_decoder();
    let mut pipe = LdpcPipeline::with_workers(decoder, 3, 0);
    let mut frame = pipe.acquire().expect("pool has slots");
    fill(&mut frame, 5.0);
    assert!(pipe.submit(frame).is_ok());
    let result = loop {
        if let Some(r) = pipe.try_recv() {
            break r;
        }
        run_all(&mut pipe);
    };
    assert!(result.hard().iter().all(|&b| b == 0));
    pipe.release(result);
}

#[test]
fn tags_travel_with_their_frames() {
    let mut pipe = LdpcPipeline::with_workers(protocol_decoder(), 3, 2);
    for tag in 10..14usize {
        let mut frame = pipe.acquire().unwrap();
        assert_eq!(frame.tag(), 0);
        frame.set_tag(tag);
        fill(&mut frame, if tag % 2 == 0 { 5.0 } else { 4.0 });
        assert!(pipe.submit(frame).is_ok());
    }
    run_all(&mut pipe);
    let mut tags = Vec::new();
    while let Some(frame) = pipe.try_recv() {
        tags.push(frame.tag());
        pipe.release(frame);
    }
    assert_eq!(tags, vec![10, 12, 11, 13]);
}

#[test]
fn released_frames_lose_their_tag() {
    let dec = QcLdpcDecoder::with_lifting_size(&table(BaseGraph::Bg2), 2, 0.25f32.to_bits()).unwrap();
    let mut pipe = LdpcPipeline::with_workers(dec, 1, 1);
    let mut f = pipe.acquire().unwrap();
    f.set_tag(7);
    assert_eq!(f.tag(), 7);
    pipe.release(f);
    let g = pipe.acquire().unwrap();
    assert_eq!(g.tag(), 0);
}
