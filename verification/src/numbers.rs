//! The numbers that single-precision patterns stand for, in units of the
//! smallest one, `2^-149`.
//!
//! On this scale every finite pattern is an integer, so what decoding does
//! with patterns can be said in terms of sums, minima and signs of integers.

use crate::soft::{check_node, finite, hard, lemma_patterns, magnitude, penalty, signed};
use vstd::arithmetic::power2::{lemma_pow2_pos, lemma_pow2_unfold, pow2};
use vstd::prelude::*;

verus! {

/// The number of a pattern without a sign: below exponent one the fraction
/// itself, above it the fraction with a leading one, doubled by each further
/// exponent.
pub open spec fn amount(m: int) -> int {
    let e = m / 0x80_0000;
    let f = m % 0x80_0000;
    if e <= 0 {
        f
    } else {
        (0x80_0000 + f) * pow2((e - 1) as nat)
    }
}

/// The number that a pattern stands for.
pub open spec fn value(p: u32) -> int {
    if p < 0x8000_0000 {
        amount(p as int)
    } else {
        -amount(p - 0x8000_0000)
    }
}

/// The distance from zero.
pub open spec fn absolute(v: int) -> int {
    if v < 0 {
        -v
    } else {
        v
    }
}

/// The smaller of two.
pub open spec fn lesser(a: int, b: int) -> int {
    if a <= b {
        a
    } else {
        b
    }
}

/// A finite multiple of the unit.
pub open spec fn whole(p: u32, unit: int) -> bool {
    finite(p) && value(p) % unit == 0
}

/// The addition is exact on multiples of the unit, as long as the sum of
/// their distances from zero stays within a bound. Single-precision addition
/// is, for a power of two as the unit and `2^24` of it as the bound.
pub open spec fn adds_exactly<F: Fn(u32, u32) -> u32>(plus: F, unit: int, most: int) -> bool {
    forall|a: u32, b: u32, c: u32|
        #[trigger] call_ensures(plus, (a, b), c) && whole(a, unit) && whole(b, unit) && absolute(
            value(a),
        ) + absolute(value(b)) <= most ==> whole(c, unit) && value(c) == value(a) + value(b)
}

proof fn lemma_amount_step(m: int)
    requires
        0 <= m,
    ensures
        0 <= amount(m) < amount(m + 1),
{
    let e = m / 0x80_0000;
    let f = m % 0x80_0000;
    let g = (m + 1) % 0x80_0000;
    if f == 0x80_0000 - 1 {
        assert(g == 0 && (m + 1) / 0x80_0000 == e + 1);
    } else {
        assert(g == f + 1 && (m + 1) / 0x80_0000 == e);
    }
    if e == 0 {
        assert(pow2(0) == 1) by {
            vstd::arithmetic::power2::lemma2_to64();
        }
    } else {
        let k = pow2((e - 1) as nat) as int;
        lemma_pow2_pos((e - 1) as nat);
        lemma_pow2_unfold(e as nat);
        assert((0x80_0000 + f) * k < (0x80_0000 + f + 1) * k && 0 <= (0x80_0000 + f) * k)
            by (nonlinear_arith)
            requires
                k > 0,
                f >= 0,
        ;
        assert((0x80_0000 + f + 1) * k == 0x80_0000 * (2 * k) || f != 0x80_0000 - 1)
            by (nonlinear_arith);
    }
}

/// Larger magnitudes are larger numbers.
pub proof fn lemma_amount_order(a: int, b: int)
    requires
        0 <= a <= b,
    ensures
        0 <= amount(a) <= amount(b),
        a < b ==> amount(a) < amount(b),
    decreases b - a,
{
    lemma_amount_step(a);
    if a < b {
        lemma_amount_step(b - 1);
        lemma_amount_order(a, b - 1);
    }
}

/// How patterns and numbers correspond: the number of a pattern is zero only
/// for the two zeros, flipping the sign negates it, its distance from zero is
/// that of the magnitude, and finite ones decide by their sign.
pub proof fn lemma_value(p: u32)
    ensures
        value(p ^ 0x8000_0000) == -value(p),
        absolute(value(p)) == amount(magnitude(p) as int),
        value(p) == 0 <==> magnitude(p) == 0,
        finite(p) ==> (hard(p) == 1 <==> value(p) < 0),
        finite(p) ==> finite(p ^ 0x8000_0000),
        p < 0x8000_0000 ==> value(p) >= 0,
        p >= 0x8000_0000 ==> value(p) <= 0,
        value(0) == 0,
{
    lemma_patterns(p, p);
    lemma_amount_order(0, magnitude(p) as int);
    lemma_amount_order(0, 0);
    assert(amount(0) == 0);
}

/// Turning the sign by a bit negates the number where the bit is set.
pub proof fn lemma_signed_value(p: u32, u: u8)
    ensures
        value(signed(p, u)) == (if u == 0 {
            value(p)
        } else {
            -value(p)
        }),
        finite(p) ==> finite(signed(p, u)),
{
    lemma_value(p);
}

/// The number of a combined likelihood: the smaller distance from zero, below
/// zero where exactly one of the two is.
pub open spec fn joint(a: int, b: int) -> int {
    let m = lesser(absolute(a), absolute(b));
    if (a < 0) == (b < 0) {
        m
    } else {
        -m
    }
}

/// Combining two likelihoods keeps the smaller distance from zero and
/// multiplies the signs.
pub proof fn lemma_combined_value(a: u32, b: u32)
    ensures
        value(check_node(a, b)) == joint(value(a), value(b)),
        finite(a) || finite(b) ==> finite(check_node(a, b)),
{
    lemma_patterns(a, b);
    lemma_value(a);
    lemma_value(b);
    lemma_value(check_node(a, b));
    if magnitude(a) <= magnitude(b) {
        lemma_amount_order(magnitude(a) as int, magnitude(b) as int);
    } else {
        lemma_amount_order(magnitude(b) as int, magnitude(a) as int);
    }
    assert(amount(0) == 0);
}

/// What deciding a bit against a number costs: its distance from zero.
pub open spec fn against(v: int, b: u8) -> int {
    if b == 0 && v < 0 {
        -v
    } else if b != 0 && v > 0 {
        v
    } else {
        0
    }
}

/// The cost of a decision is the distance from zero where it goes against the
/// sign, and nothing else.
pub proof fn lemma_penalty_value(p: u32, b: u8)
    requires
        finite(p),
    ensures
        value(penalty(p, b)) == against(value(p), b),
        finite(penalty(p, b)),
{
    lemma_patterns(p, 0);
    lemma_patterns(0, 0);
    lemma_value(p);
    lemma_value(0);
}

/// Sums, differences and negations of multiples are multiples.
pub proof fn lemma_multiples(x: int, y: int, unit: int)
    requires
        unit > 0,
        x % unit == 0,
        y % unit == 0,
    ensures
        (x + y) % unit == 0,
        (x - y) % unit == 0,
        (-x) % unit == 0,
        0int % unit == 0,
{
    let a = x / unit;
    let b = y / unit;
    vstd::arithmetic::div_mod::lemma_fundamental_div_mod(x, unit);
    vstd::arithmetic::div_mod::lemma_fundamental_div_mod(y, unit);
    assert(x + y == (a + b) * unit && x - y == (a - b) * unit && -x == (-a) * unit && 0 == 0
        * unit) by (nonlinear_arith)
        requires
            x == unit * a,
            y == unit * b,
    ;
    vstd::arithmetic::div_mod::lemma_mod_multiples_basic(a + b, unit);
    vstd::arithmetic::div_mod::lemma_mod_multiples_basic(a - b, unit);
    vstd::arithmetic::div_mod::lemma_mod_multiples_basic(-a, unit);
    vstd::arithmetic::div_mod::lemma_mod_multiples_basic(0, unit);
}

/// Zero is a multiple.
pub proof fn lemma_multiples_zero(unit: int)
    requires
        unit > 0,
    ensures
        whole(0, unit),
{
    lemma_value(0);
    lemma_patterns(0, 0);
    vstd::arithmetic::div_mod::lemma_mod_multiples_basic(0, unit);
    assert(0 * unit == 0);
}

/// A multiple with its sign turned is a multiple.
pub proof fn lemma_whole_signed(p: u32, u: u8, unit: int)
    requires
        unit > 0,
        whole(p, unit),
    ensures
        whole(signed(p, u), unit),
        whole(p ^ 0x8000_0000, unit),
        value(p ^ 0x8000_0000) == -value(p),
{
    lemma_signed_value(p, u);
    lemma_value(p);
    lemma_multiples(value(p), 0, unit);
}

/// Combining multiples gives a multiple.
pub proof fn lemma_whole_combined(a: u32, b: u32, unit: int)
    requires
        unit > 0,
        whole(a, unit),
        whole(b, unit),
    ensures
        whole(check_node(a, b), unit),
{
    lemma_combined_value(a, b);
    lemma_multiples(value(a), value(b), unit);
    lemma_multiples(value(b), value(a), unit);
}

/// The cost of a decision on a multiple is a multiple.
pub proof fn lemma_whole_penalty(p: u32, b: u8, unit: int)
    requires
        unit > 0,
        whole(p, unit),
    ensures
        whole(penalty(p, b), unit),
{
    lemma_penalty_value(p, b);
    lemma_multiples(value(p), 0, unit);
}

} // verus!
