//! Quantized likelihoods.

use syndrome::quantize::{clamp_llr, dequantize_llr, quantize_llr};

fn rounded(scale: f32) -> impl Fn(f32) -> i32 {
    move |l| (l * scale).round() as i32
}

fn scaled(scale: f32) -> impl Fn(i8) -> f32 {
    let inv = 1.0 / scale;
    move |q| (q as f32) * inv
}

#[test]
fn positive_clamps_to_127() {
    let mut q = [0i8; 1];
    quantize_llr(&[1e9f32], &mut q, &rounded(8.0));
    assert_eq!(q[0], 127);
}

#[test]
fn negative_clamps_to_neg127() {
    let mut q = [0i8; 1];
    quantize_llr(&[-1e9f32], &mut q, &rounded(8.0));
    assert_eq!(q[0], -127);
}

#[test]
fn minus128_never_produced() {
    let mut q = [0i8; 1];
    quantize_llr(&[f32::NEG_INFINITY], &mut q, &rounded(8.0));
    assert_ne!(q[0], i8::MIN);
}

#[test]
fn roundtrip_within_range() {
    let scale = 8.0f32;
    let vals = [-10.0f32, -1.0, 0.0, 0.5, 1.0, 10.0];
    let mut q = [0i8; 6];
    quantize_llr(&vals, &mut q, &rounded(scale));
    let mut out = [0.0f32; 6];
    dequantize_llr(&q, &mut out, &scaled(scale));
    for (&orig, &dq) in vals.iter().zip(out.iter()) {
        let err = (orig - dq).abs();
        assert!(
            err <= 1.0 / scale + 1e-5,
            "quantization error {err} exceeds 1 LSB for {orig}"
        );
    }
}

#[test]
fn clamping_at_the_ends() {
    assert_eq!(clamp_llr(i32::MIN), -127);
    assert_eq!(clamp_llr(-128), -127);
    assert_eq!(clamp_llr(-127), -127);
    assert_eq!(clamp_llr(-3), -3);
    assert_eq!(clamp_llr(127), 127);
    assert_eq!(clamp_llr(128), 127);
}
