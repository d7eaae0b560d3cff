//! Log-likelihood ratios as the bit patterns of single-precision numbers.
//!
//! Signs, magnitudes and comparisons are exact on the patterns. Only the
//! addition of two values is left to the caller, who hands it over as a
//! function.

use vstd::prelude::*;

verus! {

/// The sign bit of a pattern.
pub const SIGN: u32 = 0x8000_0000;

/// The pattern of infinity.
pub const INFINITE: u32 = 0x7F80_0000;

/// The pattern without its sign: the magnitude. Magnitudes of numbers are
/// ordered like their patterns, and a pattern that is no number is above
/// them all.
pub open spec fn magnitude(p: u32) -> u32 {
    p & 0x7FFF_FFFF
}

/// Below zero.
pub open spec fn negative(p: u32) -> bool {
    0x8000_0000 < p <= 0xFF80_0000
}

/// Above zero.
pub open spec fn positive(p: u32) -> bool {
    0 < p <= 0x7F80_0000
}

/// A number, and not infinite.
pub open spec fn finite(p: u32) -> bool {
    magnitude(p) < 0x7F80_0000
}

/// The hard decision: one below zero, zero otherwise.
pub open spec fn hard(p: u32) -> u8 {
    if negative(p) {
        1
    } else {
        0
    }
}

/// Clearly decides for bit `b`.
pub open spec fn decides(p: u32, b: u8) -> bool {
    if b == 0 {
        positive(p)
    } else {
        negative(p)
    }
}

/// The pattern with the sign flipped where `u` is one.
pub open spec fn signed(p: u32, u: u8) -> u32 {
    if u == 0 {
        p
    } else {
        p ^ 0x8000_0000
    }
}

/// The smaller magnitude, with the product of the signs.
pub open spec fn check_node(a: u32, b: u32) -> u32 {
    let m = if magnitude(a) <= magnitude(b) {
        magnitude(a)
    } else {
        magnitude(b)
    };
    m | ((a ^ b) & 0x8000_0000)
}

/// What deciding bit `b` costs: the magnitude where it goes against the
/// sign.
pub open spec fn penalty(p: u32, b: u8) -> u32 {
    if b == 0 && negative(p) {
        p ^ 0x8000_0000
    } else if b != 0 && positive(p) {
        p
    } else {
        0
    }
}

/// Facts about signs and magnitudes.
pub proof fn lemma_patterns(a: u32, b: u32)
    by (bit_vector)
    ensures
        positive(a) && positive(b) ==> positive(check_node(a, b)),
        negative(a) && negative(b) ==> positive(check_node(a, b)),
        positive(a) && negative(b) ==> negative(check_node(a, b)),
        negative(a) && positive(b) ==> negative(check_node(a, b)),
        negative(a) ==> positive(a ^ 0x8000_0000),
        positive(a) ==> negative(a ^ 0x8000_0000),
        positive(a) ==> !negative(a),
        magnitude(a) <= 0x7FFF_FFFF,
        (a ^ 0x8000_0000) ^ 0x8000_0000 == a,
        a <= 0x7FFF_FFFF ==> magnitude(a) == a,
        a > 0x7FFF_FFFF ==> magnitude(a) == a - 0x8000_0000,
        a <= 0x7FFF_FFFF ==> a ^ 0x8000_0000 == a + 0x8000_0000,
        a > 0x7FFF_FFFF ==> a ^ 0x8000_0000 == a - 0x8000_0000,
        magnitude(a ^ 0x8000_0000) == magnitude(a),
        magnitude(check_node(a, b)) == (if magnitude(a) <= magnitude(b) {
            magnitude(a)
        } else {
            magnitude(b)
        }),
        (check_node(a, b) > 0x7FFF_FFFF) == ((a > 0x7FFF_FFFF) != (b > 0x7FFF_FFFF)),
        a <= 0x7FFF_FFFF ==> a | 0x8000_0000 == a + 0x8000_0000,
        a > 0x7FFF_FFFF ==> a | 0x8000_0000 == a,
        a | 0 == a,
        a <= 0x7FFF_FFFF ==> a & 0x8000_0000 == 0,
        a > 0x7FFF_FFFF ==> a & 0x8000_0000 == 0x8000_0000,
        0x8000_0000u32 ^ 0x8000_0000 == 0,
        0u32 ^ 0x8000_0000 == 0x8000_0000,
        0x8000_0000u32 ^ 0 == 0x8000_0000,
        0u32 ^ 0u32 == 0,
{
}

/// The hard decision.
pub fn hard_bit(p: u32) -> (b: u8)
    ensures
        b == hard(p),
{
    if p > 0x8000_0000 && p <= 0xFF80_0000 {
        1
    } else {
        0
    }
}

/// Whether every pattern is a finite number.
pub fn all_finite(llr: &[u32]) -> (r: bool)
    ensures
        r == forall|i: int| 0 <= i < llr@.len() ==> finite(#[trigger] llr@[i]),
{
    let mut i: usize = 0;
    while i < llr.len()
        invariant
            i <= llr@.len(),
            forall|j: int| 0 <= j < i ==> finite(#[trigger] llr@[j]),
        decreases llr@.len() - i,
    {
        if llr[i] & 0x7FFF_FFFF >= 0x7F80_0000 {
            assert(!finite(llr@[i as int]));
            return false;
        }
        i = i + 1;
    }
    true
}

/// The sign flipped where `u` is one.
pub fn with_sign(p: u32, u: u8) -> (r: u32)
    ensures
        r == signed(p, u),
{
    if u == 0 {
        p
    } else {
        p ^ 0x8000_0000
    }
}

/// The smaller magnitude, with the product of the signs.
pub fn combine(a: u32, b: u32) -> (r: u32)
    ensures
        r == check_node(a, b),
{
    let x: u32 = a & 0x7FFF_FFFF;
    let y: u32 = b & 0x7FFF_FFFF;
    let m: u32 = if x <= y {
        x
    } else {
        y
    };
    m | ((a ^ b) & 0x8000_0000)
}

/// What deciding bit `b` costs.
pub fn cost(p: u32, b: u8) -> (r: u32)
    ensures
        r == penalty(p, b),
{
    if b == 0 {
        if p > 0x8000_0000 && p <= 0xFF80_0000 {
            p ^ 0x8000_0000
        } else {
            0
        }
    } else if p > 0 && p <= 0x7F80_0000 {
        p
    } else {
        0
    }
}

} // verus!
