//! Soft combining.

use syndrome::error::FecError;
use syndrome::harq::HarqBuffer;
use syndrome::qc_ldpc::BaseGraph;

fn scatter(
    e: &[u32],
    acc: &Vec<u32>,
    rv: usize,
    _qm: usize,
    _bg: BaseGraph,
    z: usize,
    _n_filler: usize,
) -> Result<Vec<u32>, FecError> {
    if rv > 3 {
        return Err(FecError::InvalidParam("rv must be 0..=3"));
    }
    let n = acc.len();
    let start = 2 * z + rv * n / 4;
    let mut out = acc.clone();
    for (i, &p) in e.iter().enumerate() {
        let k = (start + i) % n;
        out[k] = (f32::from_bits(out[k]) + f32::from_bits(p)).to_bits();
    }
    Ok(out)
}

fn total(buf: &HarqBuffer) -> f32 {
    buf.llr_buffer().iter().map(|&p| f32::from_bits(p)).sum()
}

#[test]
fn new_buffer_all_zeros() {
    let buf = HarqBuffer::new(BaseGraph::Bg1, 2);
    assert_eq!(buf.ncb(), 66 * 2);
    assert!(buf.llr_buffer().iter().all(|&p| f32::from_bits(p) == 0.0));
}

#[test]
fn combine_accumulates() {
    let mut buf = HarqBuffer::new(BaseGraph::Bg1, 2);
    let e = vec![1.0f32.to_bits(); 16];
    buf.combine(&e, 0, 1, 0, &scatter).unwrap();
    let sum1: f32 = total(&buf);
    buf.combine(&e, 0, 1, 0, &scatter).unwrap();
    let sum2: f32 = total(&buf);
    assert!(sum2 > sum1, "second combine must increase total LLR energy");
    assert_eq!(buf.tx_count(), 2);
}

#[test]
fn flush_resets_to_zero() {
    let mut buf = HarqBuffer::new(BaseGraph::Bg2, 4);
    buf.combine(&[2.0f32.to_bits(); 16], 0, 1, 0, &scatter).unwrap();
    buf.flush();
    assert_eq!(buf.tx_count(), 0);
    assert!(buf.llr_buffer().iter().all(|&p| f32::from_bits(p) == 0.0));
}

#[test]
fn copy_llr_into_error_on_short_buffer() {
    let buf = HarqBuffer::new(BaseGraph::Bg1, 2);
    let mut dst = vec![0u32; 1];
    assert!(buf.copy_llr_into(&mut dst).is_err());
}

#[test]
fn combine_with_zero_lifting_size_returns_err_not_panic() {
    let mut buf = HarqBuffer::new(BaseGraph::Bg1, 0);
    let e = vec![1.0f32.to_bits(); 8];
    assert!(buf.combine(&e, 0, 1, 0, &scatter).is_err());
}

#[test]
fn refused_transmission_changes_nothing() {
    let mut buf = HarqBuffer::new(BaseGraph::Bg2, 2);
    let e = vec![1.0f32.to_bits(); 8];
    buf.combine(&e, 1, 1, 0, &scatter).unwrap();
    let before = buf.llr_buffer().clone();
    assert_eq!(
        buf.combine(&e, 4, 1, 0, &scatter),
        Err(FecError::InvalidParam("rv must be 0..=3"))
    );
    assert_eq!(buf.tx_count(), 1);
    assert_eq!(*buf.llr_buffer(), before);
}

#[test]
fn an_override_replaces_the_filler_count() {
    let count = |_: &[u32],
                 acc: &Vec<u32>,
                 _: usize,
                 _: usize,
                 _: BaseGraph,
                 _: usize,
                 n_filler: usize|
     -> Result<Vec<u32>, FecError> { Ok(vec![n_filler as u32; acc.len()]) };
    let mut buf = HarqBuffer::with_filler(BaseGraph::Bg2, 1, 7);
    buf.combine(&[], 0, 1, 0, &count).unwrap();
    assert_eq!(*buf.llr_buffer(), vec![7u32; 50]);
    buf.combine(&[], 0, 1, 9, &count).unwrap();
    assert_eq!(*buf.llr_buffer(), vec![9u32; 50]);
}

#[test]
fn copying_keeps_what_lies_behind() {
    let mut buf = HarqBuffer::new(BaseGraph::Bg2, 1);
    buf.combine(&[3.0f32.to_bits(); 4], 0, 1, 0, &scatter).unwrap();
    let mut dst = vec![5u32; 52];
    buf.copy_llr_into(&mut dst).unwrap();
    assert_eq!(&dst[..50], buf.llr_buffer().as_slice());
    assert_eq!(&dst[50..], &[5, 5]);
    assert_eq!(
        buf.copy_llr_into(&mut [0u32; 49]),
        Err(FecError::BufferTooSmall { required: 50, provided: 49 })
    );
}
