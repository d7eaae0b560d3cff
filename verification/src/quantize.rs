//! Likelihoods as signed bytes.
//!
//! Scaling and rounding are functions that the caller hands in; a byte is the
//! rounded number, clamped so that its negation is a byte too.

use vstd::prelude::*;

verus! {

/// A number, clamped to the signed bytes whose negation is a signed byte.
pub open spec fn clamped(v: int) -> i8 {
    (if v < -127 {
        -127
    } else if v > 127 {
        127
    } else {
        v
    }) as i8
}

/// Clamps a number.
pub fn clamp_llr(v: i32) -> (q: i8)
    ensures
        q == clamped(v as int),
        -127 <= q <= 127,
{
    if v < -127 {
        -127
    } else if v > 127 {
        127
    } else {
        v as i8
    }
}

/// Clamping keeps the order of numbers.
pub proof fn lemma_clamped_monotone(a: int, b: int)
    requires
        a <= b,
    ensures
        clamped(a) <= clamped(b),
{
}

/// Clamping commutes with negation.
pub proof fn lemma_clamped_odd(v: int)
    ensures
        clamped(-v) == -clamped(v),
{
}

/// A clamped number stays as it is when clamped again.
pub proof fn lemma_clamped_stable(v: int)
    ensures
        clamped(clamped(v) as int) == clamped(v),
{
}

/// A byte is the clamping of a number that `rounded` makes of a likelihood.
pub open spec fn quantized<T, F: Fn(T) -> i32>(rounded: F, x: T, q: i8) -> bool {
    exists|v: i32| #[trigger] call_ensures(rounded, (x,), v) && q == clamped(v as int)
}

/// Replaces each entry of `out` with the clamped number that `rounded` makes
/// of the likelihood.
pub fn quantize_llr<T: Copy, F: Fn(T) -> i32>(llr: &[T], out: &mut [i8], rounded: &F)
    requires
        llr@.len() == old(out)@.len(),
        forall|x: T| call_requires(*rounded, (x,)),
    ensures
        final(out)@.len() == old(out)@.len(),
        forall|i: int|
            0 <= i < llr@.len() ==> quantized(*rounded, llr@[i], #[trigger] final(out)@[i]),
        forall|i: int| 0 <= i < llr@.len() ==> -127 <= #[trigger] final(out)@[i] <= 127,
{
    let mut i: usize = 0;
    while i < llr.len()
        invariant
            i <= llr@.len(),
            llr@.len() == out@.len(),
            forall|x: T| call_requires(*rounded, (x,)),
            forall|k: int|
                0 <= k < i ==> quantized(*rounded, llr@[k], #[trigger] out@[k]),
            forall|k: int| 0 <= k < i ==> -127 <= #[trigger] out@[k] <= 127,
        decreases llr@.len() - i,
    {
        let v: i32 = rounded(llr[i]);
        let q: i8 = clamp_llr(v);
        assert(quantized(*rounded, llr@[i as int], q));
        out[i] = q;
        i = i + 1;
    }
}

/// Replaces each entry of `out` with what `scaled` makes of the byte.
pub fn dequantize_llr<T: Copy, F: Fn(i8) -> T>(q: &[i8], out: &mut [T], scaled: &F)
    requires
        q@.len() == old(out)@.len(),
        forall|x: i8| call_requires(*scaled, (x,)),
    ensures
        final(out)@.len() == old(out)@.len(),
        forall|i: int|
            0 <= i < q@.len() ==> call_ensures(*scaled, (q@[i],), #[trigger] final(out)@[i]),
{
    let mut i: usize = 0;
    while i < q.len()
        invariant
            i <= q@.len(),
            q@.len() == out@.len(),
            forall|x: i8| call_requires(*scaled, (x,)),
            forall|k: int| 0 <= k < i ==> call_ensures(*scaled, (q@[k],), #[trigger] out@[k]),
        decreases q@.len() - i,
    {
        let value: T = scaled(q[i]);
        out[i] = value;
        i = i + 1;
    }
}

/// How far two numbers are apart.
pub open spec fn distance(a: int, b: int) -> int {
    if a <= b {
        b - a
    } else {
        a - b
    }
}

/// Clamping loses as little as it can: of the bytes whose negation is a byte,
/// none is nearer to the number.
pub proof fn lemma_clamped_nearest(v: int, w: int)
    requires
        -127 <= w <= 127,
    ensures
        -127 <= clamped(v) <= 127,
        distance(v, clamped(v) as int) <= distance(v, w),
{
}

} // verus!
