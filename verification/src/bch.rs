//! Binary BCH codes of length `255`, correcting one to ten bit errors.
//!
//! The code of capability `t` consists of the words of `255` bits that
//! vanish, as polynomials over `GF(2^8)`, at the first `2t` powers of the
//! primitive element `2`. Words list their bits highest power first.

use crate::berlekamp::{
    berlekamp_massey, bm, conv, lemma_bm_inv, lemma_bm_locates, lemma_bm_short, lemma_peval_take,
    lemma_recurrence_solved, locator, locator_len,
};
use crate::bits::{is_bits, lemma_low_bit, lemma_xor_bits, low_bits};
use crate::cyclic::{
    distance, divide, divide_step, evaluate, inverse_points, lemma_alpha_eq, lemma_points,
    lemma_syndrome_weights, lemma_syndromes_psums, lemma_systematic, lemma_systematic_unique,
    lemma_times_roots, lemma_weval_xor, multiply_by_root, points, poly_of_roots, remainder,
    syndrome_weights, syndromes_of, systematic, times_root, times_roots, weval, wxor,
};
use crate::error::FecError;
use crate::gf256::{
    GfTables, POLY_11D, gmul, gpow, is_field_poly, lemma_gmul_associates, lemma_gmul_commutes,
    lemma_gmul_distributes, lemma_gmul_units, lemma_no_zero_divisors, lemma_pow_add, lemma_pow_mul,
    lemma_xor,
};
use crate::gfpoly::{
    co, lemma_psum_add, lemma_psum_zero, lemma_vandermonde, lemma_weight_same, peval, psum,
    root_count, weight,
};
use crate::slices::{copy_into, to_vector};
use vstd::arithmetic::power2::{lemma2_to64, lemma_pow2_unfold, pow2};
use vstd::prelude::*;

verus! {

/// Block length.
pub const N: usize = 255;

/// Largest supported correction capability.
pub const MAX_T: usize = 10;

/// `i * 2^k` modulo `255`.
pub open spec fn doubled(i: nat, k: nat) -> nat
    decreases k,
{
    if k == 0 {
        i
    } else {
        (2 * doubled(i, (k - 1) as nat)) % 255
    }
}

spec fn coset_tail(i: nat, x: nat, fuel: nat) -> Seq<nat>
    decreases fuel,
{
    if fuel == 0 {
        Seq::empty()
    } else {
        let y = (2 * x) % 255;
        seq![x] + if y == i {
            Seq::empty()
        } else {
            coset_tail(i, y, (fuel - 1) as nat)
        }
    }
}

/// The cyclotomic coset of `i`: what repeated doubling modulo `255` reaches,
/// each exponent once.
pub closed spec fn coset(i: nat) -> Seq<nat> {
    coset_tail(i, i, 8)
}

/// The odd number of index `h`.
pub open spec fn odd(h: nat) -> nat {
    2 * h + 1
}

/// The exponents of the roots of the generator: the cosets of the odd numbers
/// below `2t`, each coset once.
pub open spec fn root_exponents(t: nat) -> Seq<nat>
    decreases t,
{
    if t == 0 {
        Seq::empty()
    } else {
        let before = root_exponents((t - 1) as nat);
        let i = (2 * t - 1) as nat;
        if before.contains(i) {
            before
        } else {
            before + coset(i)
        }
    }
}

/// The powers of `2` with the listed exponents.
pub open spec fn powers(e: Seq<nat>) -> Seq<u8> {
    Seq::new(e.len(), |i: int| gpow(POLY_11D, 2, e[i]))
}

/// The generator polynomial, lowest coefficient first.
pub open spec fn generator(t: nat) -> Seq<u8> {
    poly_of_roots(POLY_11D, powers(root_exponents(t)))
}

/// The number of information bits of the code of capability `t`.
pub open spec fn dimension(t: nat) -> int {
    255 - root_exponents(t).len()
}

/// `i * 2^k` exceeds its residue by a multiple of `255`.
proof fn lemma_doubled_quotient(i: nat, k: nat) -> (q: nat)
    ensures
        i * pow2(k) == 255 * q + doubled(i, k),
    decreases k,
{
    if k == 0 {
        lemma2_to64();
        assert(i * pow2(0) == i);
        0
    } else {
        let j = (k - 1) as nat;
        let r = lemma_doubled_quotient(i, j);
        let d = doubled(i, j);
        lemma_pow2_unfold(k);
        assert(i * (2 * pow2(j)) == 2 * (i * pow2(j))) by (nonlinear_arith);
        assert(2 * d == 255 * ((2 * d) / 255) + (2 * d) % 255);
        2 * r + (2 * d) / 255
    }
}

proof fn lemma_doubled_cycle(i: nat)
    requires
        i < 255,
    ensures
        doubled(i, 8) == i,
{
    let q = lemma_doubled_quotient(i, 8);
    lemma_doubled_range(i, 8);
    lemma2_to64();
    assert(256 * i == 255 * q + doubled(i, 8));
}

proof fn lemma_doubled_range(i: nat, k: nat)
    requires
        i < 255,
    ensures
        doubled(i, k) < 255,
{
    if k > 0 {
        assert(doubled(i, k) == (2 * doubled(i, (k - 1) as nat)) % 255);
    }
}

/// Doubling modulo `255` is injective.
proof fn lemma_doubled_injective(i: nat, a: nat, b: nat)
    requires
        i < 255,
        a <= b,
        doubled(i, a) == doubled(i, b),
    ensures
        doubled(i, (b - a) as nat) == i,
    decreases a,
{
    if a > 0 {
        let x = doubled(i, (a - 1) as nat);
        let y = doubled(i, (b - 1) as nat);
        lemma_doubled_range(i, (a - 1) as nat);
        lemma_doubled_range(i, (b - 1) as nat);
        assert((2 * x) % 255 == (2 * y) % 255);
        assert(x == y);
        lemma_doubled_injective(i, (a - 1) as nat, (b - 1) as nat);
    }
}

proof fn lemma_coset_tail(i: nat, k: nat)
    requires
        i < 255,
        k < 8,
    ensures
        ({
            let c = coset_tail(i, doubled(i, k), (8 - k) as nat);
            &&& 1 <= c.len() <= 8 - k
            &&& forall|j: int| 0 <= j < c.len() ==> #[trigger] c[j] == doubled(i, k + j as nat)
            &&& doubled(i, k + c.len()) == i
            &&& forall|j: nat| 0 < j < c.len() ==> #[trigger] doubled(i, k + j) != i
        }),
    decreases 8 - k,
{
    let x = doubled(i, k);
    let y = (2 * x) % 255;
    let c = coset_tail(i, x, (8 - k) as nat);
    assert(y == doubled(i, k + 1));
    lemma_doubled_cycle(i);
    if y != i {
        assert(k + 1 != 8);
        lemma_coset_tail(i, k + 1);
        let d = coset_tail(i, y, (8 - (k + 1)) as nat);
        assert(c =~= seq![x] + d);
        assert forall|j: int| 0 <= j < c.len() implies #[trigger] c[j] == doubled(
            i,
            k + j as nat,
        ) by {
            if j > 0 {
                assert(c[j] == d[j - 1]);
                assert((k + 1) + (j - 1) as nat == k + j as nat);
            }
        }
        assert((k + 1) + d.len() == k + c.len());
        assert forall|j: nat| 0 < j < c.len() implies #[trigger] doubled(i, k + j) != i by {
            if j > 1 {
                let m = (j - 1) as nat;
                assert((k + 1) + m == k + j);
                assert(doubled(i, (k + 1) + m) != i);
            }
        }
    } else {
        assert(c =~= seq![x]);
    }
}

/// A coset lists the distinct doublings of its first element, and doubling
/// its last gives its first.
pub proof fn lemma_coset(i: nat)
    requires
        i < 255,
    ensures
        1 <= coset(i).len() <= 8,
        forall|j: int| 0 <= j < coset(i).len() ==> #[trigger] coset(i)[j] == doubled(i, j as nat),
        forall|j: int| 0 <= j < coset(i).len() ==> #[trigger] coset(i)[j] < 255,
        doubled(i, coset(i).len()) == i,
        coset(i).no_duplicates(),
{
    lemma_coset_tail(i, 0);
    let c = coset(i);
    assert forall|j: int| 0 <= j < c.len() implies #[trigger] c[j] == doubled(i, j as nat) by {
        assert(0 + j as nat == j as nat);
    }
    assert forall|j: int| 0 <= j < c.len() implies #[trigger] c[j] < 255 by {
        lemma_doubled_range(i, j as nat);
    }
    assert forall|a: int, b: int| 0 <= a < c.len() && 0 <= b < c.len() && a != b implies c[a]
        != c[b] by {
        if c[a] == c[b] {
            let lo = if a < b {
                a
            } else {
                b
            };
            let hi = if a < b {
                b
            } else {
                a
            };
            lemma_doubled_injective(i, lo as nat, hi as nat);
            let d = (hi - lo) as nat;
            assert(doubled(i, 0 + d) != i);
        }
    }
}

/// Doubling modulo `255` stays within the listed exponents.
#[verifier::opaque]
pub open spec fn closed_under_doubling(e: Seq<nat>) -> bool {
    forall|j: int| 0 <= j < e.len() ==> e.contains((2 * #[trigger] e[j]) % 255)
}

proof fn lemma_closed_step(e: Seq<nat>, v: nat)
    requires
        closed_under_doubling(e),
        e.contains(v),
    ensures
        e.contains((2 * v) % 255),
{
    reveal(closed_under_doubling);
    let j = choose|j: int| 0 <= j < e.len() && e[j] == v;
    assert(e.contains((2 * e[j]) % 255));
}

proof fn lemma_closed_orbit(e: Seq<nat>, i: nat, a: nat, b: nat)
    requires
        closed_under_doubling(e),
        e.contains(doubled(i, a)),
        a <= b,
    ensures
        e.contains(doubled(i, b)),
    decreases b - a,
{
    if a < b {
        lemma_closed_step(e, doubled(i, a));
        assert(doubled(i, a + 1) == (2 * doubled(i, a)) % 255);
        lemma_closed_orbit(e, i, a + 1, b);
    }
}

proof fn lemma_exponents_range(t: nat)
    requires
        t <= MAX_T,
    ensures
        root_exponents(t).len() <= 8 * t,
        t > 0 ==> root_exponents(t).len() > 0,
        forall|j: int|
            0 <= j < root_exponents(t).len() ==> #[trigger] root_exponents(t)[j] < 255,
    decreases t,
{
    if t > 0 {
        let before = root_exponents((t - 1) as nat);
        lemma_exponents_range((t - 1) as nat);
        lemma_coset((2 * t - 1) as nat);
        let c = coset((2 * t - 1) as nat);
        let e = root_exponents(t);
        assert forall|j: int| 0 <= j < e.len() implies #[trigger] e[j] < 255 by {
            if j < before.len() {
                assert(e[j] == before[j]);
            } else {
                assert(e[j] == c[j - before.len()]);
            }
        }
    }
}

proof fn lemma_extended_closed(before: Seq<nat>, i: nat, j: int)
    requires
        closed_under_doubling(before),
        i < 255,
        0 <= j < before.len() + coset(i).len(),
    ensures
        (before + coset(i)).contains((2 * (before + coset(i))[j]) % 255),
{
    let c = coset(i);
    let e = before + c;
    lemma_coset(i);
    if j < before.len() {
        let v = before[j];
        assert(e[j] == v);
        lemma_closed_step(before, v);
        let m = choose|m: int| 0 <= m < before.len() && before[m] == (2 * v) % 255;
        assert(e[m] == (2 * v) % 255);
    } else {
        let k = j - before.len();
        assert(e[j] == c[k]);
        assert(doubled(i, (k + 1) as nat) == (2 * doubled(i, k as nat)) % 255);
        if k + 1 < c.len() {
            assert(e[j + 1] == c[k + 1]);
        } else {
            assert(e[before.len() as int] == c[0]);
        }
    }
}

proof fn lemma_exponents_closed(t: nat)
    requires
        t <= MAX_T,
    ensures
        closed_under_doubling(root_exponents(t)),
    decreases t,
{
    if t == 0 {
        reveal(closed_under_doubling);
    } else {
        let before = root_exponents((t - 1) as nat);
        lemma_exponents_closed((t - 1) as nat);
        let i = (2 * t - 1) as nat;
        lemma_coset(i);
        let c = coset(i);
        let e = root_exponents(t);
        if !before.contains(i) {
            assert forall|j: int| 0 <= j < e.len() implies e.contains((2 * #[trigger] e[j])
                % 255) by {
                lemma_extended_closed(before, i, j);
            }
            reveal(closed_under_doubling);
        }
    }
}

proof fn lemma_exponents_odd(t: nat, h: nat)
    requires
        t <= MAX_T,
        h < t,
    ensures
        root_exponents(t).contains(odd(h)),
    decreases t,
{
    let before = root_exponents((t - 1) as nat);
    let i = (2 * t - 1) as nat;
    lemma_coset(i);
    let e = root_exponents(t);
    if h == t - 1 {
        if !before.contains(i) {
            assert(e[before.len() as int] == coset(i)[0]);
        }
    } else {
        lemma_exponents_odd((t - 1) as nat, h);
        let m = choose|m: int| 0 <= m < before.len() && before[m] == odd(h);
        assert(e[m] == odd(h));
    }
}

/// Each exponent is an odd number below `2t`, doubled some number of times.
proof fn lemma_exponents_origin(t: nat, j: int) -> (r: (nat, nat))
    requires
        t <= MAX_T,
        0 <= j < root_exponents(t).len(),
    ensures
        r.0 < t,
        doubled(odd(r.0), r.1) == root_exponents(t)[j],
    decreases t,
{
    let u = (t - 1) as nat;
    let before = root_exponents(u);
    let i = (2 * t - 1) as nat;
    lemma_coset(i);
    let e = root_exponents(t);
    if j < before.len() {
        assert(e[j] == before[j]);
        lemma_exponents_origin(u, j)
    } else {
        assert(e[j] == coset(i)[j - before.len()]);
        (u, (j - before.len()) as nat)
    }
}

proof fn lemma_exponents_distinct(t: nat)
    requires
        t <= MAX_T,
    ensures
        root_exponents(t).no_duplicates(),
    decreases t,
{
    if t > 0 {
        let before = root_exponents((t - 1) as nat);
        lemma_exponents_distinct((t - 1) as nat);
        lemma_exponents_closed((t - 1) as nat);
        let i = (2 * t - 1) as nat;
        lemma_coset(i);
        let c = coset(i);
        let e = root_exponents(t);
        if !before.contains(i) {
            assert forall|a: int, b: int| 0 <= a < b < e.len() implies e[a] != e[b] by {
                if b < before.len() {
                    assert(before[a] != before[b]);
                } else if a >= before.len() {
                    assert(c[a - before.len()] != c[b - before.len()]);
                } else if e[a] == e[b] {
                    let k = (b - before.len()) as nat;
                    assert(before[a] == doubled(i, k));
                    assert(before.contains(doubled(i, k)));
                    lemma_closed_orbit(before, i, k, c.len());
                }
            }
        }
    }
}

/// Every number from `1` to `2t` is the exponent of a root.
proof fn lemma_consecutive_roots(t: nat, e: nat)
    requires
        t <= MAX_T,
        1 <= e <= 2 * t,
    ensures
        root_exponents(t).contains(e),
    decreases e,
{
    let r = root_exponents(t);
    let h = (e / 2) as nat;
    if e % 2 == 1 {
        lemma_exponents_odd(t, h);
    } else {
        lemma_consecutive_roots(t, h);
        lemma_exponents_closed(t);
        lemma_closed_step(r, h);
        assert((2 * h) % 255 == e);
    }
}

/// The BCH code of capability `t`: the words of `255` bits that vanish at the
/// first `2t` powers of `2`.
pub open spec fn bch_codeword(t: nat, w: Seq<u8>) -> bool {
    &&& w.len() == 255
    &&& is_bits(w)
    &&& forall|e: nat|
        1 <= e <= 2 * t ==> weval(POLY_11D, w, #[trigger] gpow(POLY_11D, 2, e)) == 0
}

/// Squaring is additive.
proof fn lemma_square_sum(p: u8, a: u8, b: u8)
    ensures
        gmul(p, a ^ b, a ^ b) == gmul(p, a, a) ^ gmul(p, b, b),
{
    lemma_gmul_distributes(p, a, b, a ^ b);
    lemma_gmul_distributes(p, a, b, a);
    lemma_gmul_distributes(p, a, b, b);
    lemma_gmul_commutes(p, a, b);
    let x = gmul(p, a, a);
    let y = gmul(p, a, b);
    let z = gmul(p, b, b);
    assert(gmul(p, a ^ b, a ^ b) == (x ^ y) ^ (y ^ z));
    lemma_xor(x, y, z, 0);
}

/// Squaring a product.
proof fn lemma_square_product(p: u8, a: u8, b: u8)
    ensures
        gmul(p, gmul(p, a, b), gmul(p, a, b)) == gmul(p, gmul(p, a, a), gmul(p, b, b)),
{
    let ab = gmul(p, a, b);
    lemma_gmul_associates(p, a, b, ab);
    lemma_gmul_associates(p, b, a, b);
    lemma_gmul_commutes(p, b, a);
    lemma_gmul_associates(p, a, b, b);
    lemma_gmul_associates(p, a, a, gmul(p, b, b));
    assert(gmul(p, b, ab) == gmul(p, gmul(p, b, a), b));
}

/// The elements that squaring fixes are `0` and `1`.
proof fn lemma_square_fixed(p: u8, a: u8)
    requires
        is_field_poly(p),
    ensures
        gmul(p, a, a) == a <==> a <= 1,
{
    lemma_gmul_units(p, a);
    if gmul(p, a, a) == a {
        lemma_gmul_distributes(p, a, 1, a);
        lemma_xor(a, a, 0, 0);
        lemma_no_zero_divisors(p, a, a ^ 1);
        lemma_xor(a, 1, 0, 0);
    }
}

/// Distinct elements have distinct squares.
proof fn lemma_square_injective(p: u8, a: u8, b: u8)
    requires
        is_field_poly(p),
        gmul(p, a, a) == gmul(p, b, b),
    ensures
        a == b,
{
    lemma_square_sum(p, a, b);
    lemma_xor(gmul(p, a, a), gmul(p, b, b), 0, 0);
    lemma_no_zero_divisors(p, a ^ b, a ^ b);
    lemma_xor(a, b, 0, 0);
}

/// The coefficientwise square.
spec fn squares(p: u8, c: Seq<u8>) -> Seq<u8> {
    Seq::new(c.len(), |j: int| gmul(p, c[j], c[j]))
}

proof fn lemma_squares_times_root(p: u8, c: Seq<u8>, r: u8)
    ensures
        squares(p, times_root(p, c, r)) == times_root(p, squares(p, c), gmul(p, r, r)),
{
    let a = squares(p, times_root(p, c, r));
    let b = times_root(p, squares(p, c), gmul(p, r, r));
    assert forall|j: int| 0 <= j < c.len() + 1 implies a[j] == b[j] by {
        let x = co(c, j - 1);
        let y = co(c, j);
        lemma_gmul_units(p, 0);
        assert(co(squares(p, c), j - 1) == gmul(p, x, x));
        assert(co(squares(p, c), j) == gmul(p, y, y));
        lemma_square_sum(p, x, gmul(p, y, r));
        lemma_square_product(p, y, r);
    }
    assert(a =~= b);
}

proof fn lemma_squares_times_roots(p: u8, c: Seq<u8>, roots: Seq<u8>)
    ensures
        squares(p, times_roots(p, c, roots)) == times_roots(p, squares(p, c), squares(p, roots)),
    decreases roots.len(),
{
    if roots.len() > 0 {
        let init = roots.drop_last();
        lemma_squares_times_roots(p, c, init);
        lemma_squares_times_root(p, times_roots(p, c, init), roots.last());
        assert(squares(p, roots).drop_last() =~= squares(p, init));
    }
}

/// The order of two linear factors does not matter.
proof fn lemma_times_root_swap(p: u8, c: Seq<u8>, r: u8, q: u8)
    ensures
        times_root(p, times_root(p, c, r), q) == times_root(p, times_root(p, c, q), r),
{
    let a = times_root(p, times_root(p, c, r), q);
    let b = times_root(p, times_root(p, c, q), r);
    assert forall|j: int| 0 <= j < c.len() + 2 implies a[j] == b[j] by {
        let x = co(c, j - 2);
        let y = co(c, j - 1);
        let z = co(c, j);
        lemma_gmul_units(p, r);
        lemma_gmul_units(p, q);
        lemma_xor(0, 0, 0, 0);
        assert(co(times_root(p, c, r), j - 1) == x ^ gmul(p, y, r));
        assert(co(times_root(p, c, q), j - 1) == x ^ gmul(p, y, q));
        assert(co(times_root(p, c, r), j) == y ^ gmul(p, z, r));
        assert(co(times_root(p, c, q), j) == y ^ gmul(p, z, q));
        lemma_gmul_distributes(p, y, gmul(p, z, r), q);
        lemma_gmul_distributes(p, y, gmul(p, z, q), r);
        lemma_gmul_associates(p, z, r, q);
        lemma_gmul_associates(p, z, q, r);
        lemma_gmul_commutes(p, r, q);
        let yr = gmul(p, y, r);
        let yq = gmul(p, y, q);
        let w = gmul(p, z, gmul(p, r, q));
        lemma_xor(x, yr, yq, w);
        lemma_xor(x, yq, yr, w);
    }
    assert(a =~= b);
}

proof fn lemma_times_roots_first(p: u8, c: Seq<u8>, r: u8, rest: Seq<u8>)
    ensures
        times_roots(p, c, seq![r] + rest) == times_root(p, times_roots(p, c, rest), r),
    decreases rest.len(),
{
    let all = seq![r] + rest;
    if rest.len() == 0 {
        assert(all.drop_last() =~= Seq::<u8>::empty());
        assert(times_roots(p, c, all.drop_last()) == c);
    } else {
        let init = rest.drop_last();
        lemma_times_roots_first(p, c, r, init);
        assert(all.drop_last() =~= seq![r] + init);
        lemma_times_root_swap(p, times_roots(p, c, init), r, rest.last());
    }
}

/// Multiplying in the roots of a whole coset keeps the coefficients binary:
/// squaring permutes those roots, so it fixes the product.
proof fn lemma_coset_binary(c: Seq<u8>, i: nat)
    requires
        i < 255,
        is_bits(c),
    ensures
        is_bits(times_roots(POLY_11D, c, powers(coset(i)))),
{
    let p = POLY_11D;
    lemma_coset(i);
    let e = coset(i);
    let n = e.len();
    let roots = powers(e);
    let rest = roots.drop_first();
    let turned = rest.push(roots[0]);
    assert(squares(p, roots) =~= turned) by {
        assert forall|k: int| 0 <= k < n implies squares(p, roots)[k] == turned[k] by {
            let x = doubled(i, k as nat);
            lemma_pow_add(p, 2, x, x);
            let y = doubled(i, (k + 1) as nat);
            assert(y == (2 * x) % 255);
            lemma_alpha_eq(p, x + x, y);
            if k + 1 < n {
                assert(turned[k] == roots[k + 1]);
                assert(e[k + 1] == y);
            } else {
                assert(e[0] == i);
            }
        }
    }
    let d = times_roots(p, c, roots);
    lemma_squares_times_roots(p, c, roots);
    assert(squares(p, c) =~= c) by {
        assert forall|j: int| 0 <= j < c.len() implies gmul(p, c[j], c[j]) == c[j] by {
            lemma_square_fixed(p, c[j]);
        }
    }
    assert(turned.drop_last() =~= rest);
    lemma_times_roots_first(p, c, roots[0], rest);
    assert(seq![roots[0]] + rest =~= roots);
    assert(squares(p, d) == d);
    assert forall|j: int| 0 <= j < d.len() implies #[trigger] d[j] <= 1 by {
        assert(squares(p, d)[j] == gmul(p, d[j], d[j]));
        lemma_square_fixed(p, d[j]);
    }
}

proof fn lemma_times_roots_concat(p: u8, c: Seq<u8>, a: Seq<u8>, b: Seq<u8>)
    ensures
        times_roots(p, c, a + b) == times_roots(p, times_roots(p, c, a), b),
    decreases b.len(),
{
    if b.len() == 0 {
        assert(a + b =~= a);
    } else {
        lemma_times_roots_concat(p, c, a, b.drop_last());
        assert((a + b).drop_last() =~= a + b.drop_last());
    }
}

/// The generator is a monic binary polynomial with one root per listed
/// exponent.
pub proof fn lemma_generator(t: nat)
    requires
        t <= MAX_T,
    ensures
        generator(t).len() == root_exponents(t).len() + 1,
        generator(t).last() == 1,
        is_bits(generator(t)),
        forall|e: nat|
            root_exponents(t).contains(e) ==> peval(
                POLY_11D,
                generator(t),
                #[trigger] gpow(POLY_11D, 2, e),
            ) == 0,
    decreases t,
{
    let p = POLY_11D;
    let one = seq![1u8];
    let roots = powers(root_exponents(t));
    lemma_times_roots(p, one, roots, 0);
    assert forall|e: nat| root_exponents(t).contains(e) implies peval(
        p,
        generator(t),
        #[trigger] gpow(p, 2, e),
    ) == 0 by {
        let j = choose|j: int| 0 <= j < root_exponents(t).len() && root_exponents(t)[j] == e;
        assert(roots[j] == gpow(p, 2, e));
        assert(roots.contains(gpow(p, 2, e)));
        lemma_times_roots(p, one, roots, gpow(p, 2, e));
    }
    if t == 0 {
        assert(generator(t) =~= one);
    } else {
        lemma_generator((t - 1) as nat);
        let i = (2 * t - 1) as nat;
        let before = root_exponents((t - 1) as nat);
        if !before.contains(i) {
            assert(roots =~= powers(before) + powers(coset(i)));
            lemma_times_roots_concat(p, one, powers(before), powers(coset(i)));
            lemma_coset_binary(generator((t - 1) as nat), i);
        }
    }
}

proof fn lemma_divide_bits(p: u8, g: Seq<u8>, message: Seq<u8>)
    requires
        g.len() >= 2,
        is_bits(g),
        is_bits(message),
    ensures
        divide(p, g, message).len() == g.len() - 1,
        is_bits(divide(p, g, message)),
    decreases message.len(),
{
    if message.len() > 0 {
        let m = message.drop_last();
        lemma_divide_bits(p, g, m);
        let r = divide(p, g, m);
        let fb = message.last() ^ r[r.len() - 1];
        lemma_xor_bits(message.last(), r[r.len() - 1]);
        let s = divide(p, g, message);
        assert forall|i: int| 0 <= i < s.len() implies #[trigger] s[i] <= 1 by {
            lemma_gmul_units(p, fb);
            assert(g[i] <= 1);
            let low = if i == 0 {
                0u8
            } else {
                r[i - 1]
            };
            lemma_xor_bits(low, gmul(p, fb, g[i]));
        }
    }
}

/// The systematic encoding of a full-length message is a codeword.
pub proof fn lemma_encoding_is_codeword(t: nat, info: Seq<u8>)
    requires
        1 <= t <= MAX_T,
        info.len() == dimension(t),
        is_bits(info),
    ensures
        bch_codeword(t, systematic(POLY_11D, generator(t), info)),
        systematic(POLY_11D, generator(t), info).take(dimension(t)) == info,
{
    let p = POLY_11D;
    let g = generator(t);
    let w = systematic(p, g, info);
    lemma_generator(t);
    lemma_exponents_range(t);
    lemma_divide_bits(p, g, info);
    assert forall|e: nat| 1 <= e <= 2 * t implies weval(p, w, #[trigger] gpow(p, 2, e))
        == 0 by {
        lemma_consecutive_roots(t, e);
        lemma_systematic(p, g, info, gpow(p, 2, e));
    }
    let r = divide(p, g, info).reverse();
    assert forall|i: int| 0 <= i < w.len() implies #[trigger] w[i] <= 1 by {
        if i >= info.len() {
            assert(w[i] == r[i - info.len()]);
        }
    }
    assert(w.take(dimension(t)) =~= info);
}

/// The value of a word of bits at a square is the square of its value.
pub proof fn lemma_bits_square(p: u8, w: Seq<u8>, y: u8)
    requires
        is_field_poly(p),
        is_bits(w),
    ensures
        weval(p, w, gmul(p, y, y)) == gmul(p, weval(p, w, y), weval(p, w, y)),
    decreases w.len(),
{
    if w.len() == 0 {
        lemma_gmul_units(p, 0);
    } else {
        let u = w.drop_last();
        lemma_bits_square(p, u, y);
        let v = weval(p, u, y);
        lemma_square_sum(p, gmul(p, v, y), w.last());
        lemma_square_product(p, v, y);
        lemma_square_fixed(p, w.last());
    }
}

/// A codeword vanishes at every root of the generator.
proof fn lemma_codeword_at_roots(t: nat, w: Seq<u8>, h: nat, k: nat)
    requires
        1 <= t <= MAX_T,
        bch_codeword(t, w),
        h < t,
    ensures
        weval(POLY_11D, w, gpow(POLY_11D, 2, doubled(odd(h), k))) == 0,
    decreases k,
{
    let p = POLY_11D;
    if k == 0 {
        assert(weval(p, w, gpow(p, 2, odd(h))) == 0);
    } else {
        let x = doubled(odd(h), (k - 1) as nat);
        lemma_codeword_at_roots(t, w, h, (k - 1) as nat);
        lemma_bits_square(p, w, gpow(p, 2, x));
        lemma_pow_add(p, 2, x, x);
        lemma_alpha_eq(p, x + x, doubled(odd(h), k));
        lemma_gmul_units(p, 0);
    }
}

/// A codeword is determined by its information bits.
pub proof fn lemma_codeword_unique(t: nat, a: Seq<u8>, b: Seq<u8>)
    requires
        1 <= t <= MAX_T,
        bch_codeword(t, a),
        bch_codeword(t, b),
        forall|i: int| 0 <= i < dimension(t) ==> a[i] == b[i],
    ensures
        a == b,
{
    let p = POLY_11D;
    let e = root_exponents(t);
    let roots = powers(e);
    lemma_exponents_range(t);
    lemma_exponents_distinct(t);
    assert(roots.no_duplicates()) by {
        assert forall|i: int, j: int|
            0 <= i < roots.len() && 0 <= j < roots.len() && i != j implies roots[i]
            != roots[j] by {
            lemma_alpha_eq(p, e[i], e[j]);
            assert(e[i] != e[j]);
        }
    }
    assert forall|i: int| #![trigger roots[i]] 0 <= i < roots.len() implies weval(p, a, roots[i])
        == 0 && weval(p, b, roots[i]) == 0 by {
        let (h, k) = lemma_exponents_origin(t, i);
        lemma_codeword_at_roots(t, a, h, k);
        lemma_codeword_at_roots(t, b, h, k);
    }
    lemma_systematic_unique(p, a, b, roots);
}

/// `c` is a codeword within reach of the received bits `r`.
pub open spec fn in_reach(t: nat, r: Seq<u8>, c: Seq<u8>) -> bool {
    bch_codeword(t, c) && distance(r, c) <= t
}

/// The `2t` syndromes of a word.
pub open spec fn bch_syndromes(t: nat, r: Seq<u8>) -> Seq<u8> {
    syndromes_of(POLY_11D, 1, 1, r, 2 * t)
}

/// The word with the low bit flipped at each position whose locator is a
/// root of `c`.
pub open spec fn flip_roots(w: Seq<u8>, c: Seq<u8>) -> Seq<u8> {
    Seq::new(
        w.len(),
        |i: int| if peval(POLY_11D, c, inverse_points(POLY_11D, 1)[i]) == 0 {
            w[i] ^ 1
        } else {
            w[i]
        },
    )
}

proof fn lemma_syndrome_at(t: nat, r: Seq<u8>, m: int)
    requires
        0 <= m < 2 * t,
    ensures
        bch_syndromes(t, r)[m] == weval(POLY_11D, r, gpow(POLY_11D, 2, (m + 1) as nat)),
{
    assert(1 * (1 + m as nat) == (m + 1) as nat);
}

/// A word of bits is a codeword exactly when its syndromes vanish.
pub proof fn lemma_codeword_syndromes(t: nat, w: Seq<u8>)
    requires
        w.len() == 255,
        is_bits(w),
    ensures
        bch_codeword(t, w) <==> forall|m: int|
            0 <= m < 2 * t ==> #[trigger] bch_syndromes(t, w)[m] == 0,
{
    if bch_codeword(t, w) {
        assert forall|m: int| 0 <= m < 2 * t implies #[trigger] bch_syndromes(t, w)[m] == 0 by {
            lemma_syndrome_at(t, w, m);
        }
    }
    if forall|m: int| 0 <= m < 2 * t ==> #[trigger] bch_syndromes(t, w)[m] == 0 {
        assert forall|e: nat| 1 <= e <= 2 * t implies weval(
            POLY_11D,
            w,
            #[trigger] gpow(POLY_11D, 2, e),
        ) == 0 by {
            lemma_syndrome_at(t, w, e - 1);
            assert(bch_syndromes(t, w)[e - 1] == 0);
        }
    }
}

/// The syndromes of a sum are the sums of the syndromes.
proof fn lemma_syndromes_xor(t: nat, a: Seq<u8>, b: Seq<u8>, m: int)
    requires
        a.len() == b.len(),
        0 <= m < 2 * t,
    ensures
        bch_syndromes(t, wxor(a, b))[m] == bch_syndromes(t, a)[m] ^ bch_syndromes(t, b)[m],
{
    lemma_syndrome_at(t, a, m);
    lemma_syndrome_at(t, b, m);
    lemma_syndrome_at(t, wxor(a, b), m);
    lemma_weval_xor(POLY_11D, a, b, gpow(POLY_11D, 2, (m + 1) as nat));
}

/// If a codeword is within reach, the locator has a root for each position
/// at which the received word differs from it, and no other.
proof fn lemma_reach_located(t: nat, r: Seq<u8>, c: Seq<u8>)
    requires
        r.len() == 255,
        in_reach(t, r, c),
    ensures
        locator_len(POLY_11D, bch_syndromes(t, r)) == distance(r, c),
        root_count(
            POLY_11D,
            locator(POLY_11D, bch_syndromes(t, r)),
            inverse_points(POLY_11D, 1),
            255,
        ) == distance(r, c),
        forall|i: int|
            0 <= i < 255 ==> (#[trigger] r[i] != c[i] <==> peval(
                POLY_11D,
                locator(POLY_11D, bch_syndromes(t, r)),
                inverse_points(POLY_11D, 1)[i],
            ) == 0),
{
    let p = POLY_11D;
    let x = points(p, 1);
    let z = inverse_points(p, 1);
    let e = wxor(r, c);
    let n = 2 * t;
    lemma_points(p, 1);
    lemma_codeword_syndromes(t, c);
    assert(bch_syndromes(t, e) =~= bch_syndromes(t, r)) by {
        assert forall|m: int| 0 <= m < n implies bch_syndromes(t, e)[m] == bch_syndromes(
            t,
            r,
        )[m] by {
            lemma_syndromes_xor(t, r, c, m);
            lemma_xor(bch_syndromes(t, r)[m], 0, 0, 0);
            assert(bch_syndromes(t, c)[m] == 0);
        }
    }
    let w = syndrome_weights(p, e, x, 1);
    lemma_syndromes_psums(p, 1, 1, e, n);
    lemma_syndrome_weights(p, 1, 1, e);
    lemma_bm_locates(p, w, x, z, n);
    assert forall|i: int| 0 <= i < 255 implies (#[trigger] r[i] != c[i] <==> peval(
        p,
        locator(p, bch_syndromes(t, r)),
        z[i],
    ) == 0) by {
        lemma_xor(r[i], c[i], 0, 0);
        assert(w[i] == 0 <==> e[i] == 0);
    }
}

proof fn lemma_psum_squares(e: Seq<u8>, x: Seq<u8>, k: nat)
    requires
        e.len() <= x.len(),
    ensures
        psum(POLY_11D, squares(POLY_11D, e), squares(POLY_11D, x), k) == gmul(
            POLY_11D,
            psum(POLY_11D, e, x, k),
            psum(POLY_11D, e, x, k),
        ),
        psum(POLY_11D, e, squares(POLY_11D, x), k) == psum(POLY_11D, e, x, 2 * k),
    decreases e.len(),
{
    let p = POLY_11D;
    if e.len() == 0 {
        lemma_gmul_units(p, 0);
    } else {
        let u = e.drop_last();
        let a = e.last();
        let n = e.len() - 1;
        let y = x[n];
        lemma_psum_squares(u, x, k);
        assert(squares(p, e).drop_last() =~= squares(p, u));
        let z = gpow(p, y, k);
        assert(gpow(p, gmul(p, y, y), k) == gmul(p, z, z)) by {
            assert(gpow(p, y, 2) == gmul(p, y, y)) by {
                reveal_with_fuel(gpow, 3);
                lemma_gmul_units(p, y);
            }
            lemma_pow_mul(p, y, 2, k);
            lemma_pow_add(p, y, k, k);
        }
        lemma_square_sum(p, psum(p, u, x, k), gmul(p, a, z));
        lemma_square_product(p, a, z);
        lemma_pow_add(p, y, k, k);
        assert(k + k == 2 * k);
    }
}

/// Weights whose power sums double like those of bits are bits.
proof fn lemma_frobenius_weights(e: Seq<u8>, t: nat)
    requires
        e.len() == 255,
        weight(e) <= t,
        forall|j: nat|
            1 <= j <= t ==> psum(POLY_11D, e, points(POLY_11D, 1), 2 * j) == gmul(
                POLY_11D,
                #[trigger] psum(POLY_11D, e, points(POLY_11D, 1), j),
                psum(POLY_11D, e, points(POLY_11D, 1), j),
            ),
    ensures
        is_bits(e),
{
    let p = POLY_11D;
    let x = points(p, 1);
    let xx = squares(p, x);
    lemma_points(p, 1);
    assert(xx.no_duplicates()) by {
        assert forall|i: int, j: int| 0 <= i < xx.len() && 0 <= j < xx.len() && i != j implies xx[i]
            != xx[j] by {
            if xx[i] == xx[j] {
                lemma_square_injective(p, x[i], x[j]);
            }
        }
    }
    let d = wxor(squares(p, e), e);
    let f = syndrome_weights(p, d, xx, 1);
    assert forall|k: nat| k < t implies #[trigger] psum(p, f, xx, k) == 0 by {
        let j = k + 1;
        lemma_psum_squares(e, x, j);
        lemma_psum_add(p, squares(p, e), e, xx, j);
        assert(psum(p, e, x, 2 * j) == gmul(p, psum(p, e, x, j), psum(p, e, x, j)));
        lemma_xor(psum(p, e, x, 2 * j), 0, 0, 0);
        crate::cyclic::lemma_psum_split(p, d, xx, 1, k);
    }
    assert forall|i: int| 0 <= i < 255 implies (#[trigger] f[i] == 0 <==> d[i] == 0) by {
        lemma_no_zero_divisors(p, x[i], x[i]);
        reveal_with_fuel(gpow, 2);
        lemma_gmul_units(p, xx[i]);
        lemma_no_zero_divisors(p, d[i], xx[i]);
    }
    lemma_weight_same(f, d);
    lemma_weight_subset(d, e, p);
    lemma_vandermonde(p, f, xx, t);
    assert forall|i: int| 0 <= i < e.len() implies #[trigger] e[i] <= 1 by {
        assert(f[i] == 0);
        lemma_xor(gmul(p, e[i], e[i]), e[i], 0, 0);
        lemma_square_fixed(p, e[i]);
    }
}

proof fn lemma_weight_subset(d: Seq<u8>, e: Seq<u8>, p: u8)
    requires
        d == wxor(squares(p, e), e),
    ensures
        weight(d) <= weight(e),
    decreases e.len(),
{
    if e.len() > 0 {
        let u = e.drop_last();
        lemma_weight_subset(wxor(squares(p, u), u), u, p);
        assert(d.drop_last() =~= wxor(squares(p, u), u));
        lemma_gmul_units(p, 0);
        lemma_xor(0, 0, 0, 0);
    }
}

/// If the locator has as many roots as its length and that is at most `t`,
/// flipping at the roots gives a codeword.
proof fn lemma_located_codeword(t: nat, r: Seq<u8>)
    requires
        r.len() == 255,
        is_bits(r),
        locator_len(POLY_11D, bch_syndromes(t, r)) <= t,
        root_count(
            POLY_11D,
            locator(POLY_11D, bch_syndromes(t, r)),
            inverse_points(POLY_11D, 1),
            255,
        ) == locator_len(POLY_11D, bch_syndromes(t, r)),
    ensures
        bch_codeword(t, flip_roots(r, locator(POLY_11D, bch_syndromes(t, r)))),
        distance(r, flip_roots(r, locator(POLY_11D, bch_syndromes(t, r)))) == locator_len(
            POLY_11D,
            bch_syndromes(t, r),
        ),
{
    let p = POLY_11D;
    let x = points(p, 1);
    let z = inverse_points(p, 1);
    let n = 2 * t;
    let s = bch_syndromes(t, r);
    let st = bm(p, s, n);
    let l = st.l;
    let c = st.c;
    lemma_points(p, 1);
    lemma_bm_inv(p, s, n);
    let d = c.take(l as int + 1);
    crate::berlekamp::lemma_root_count_take(p, c, z, 255, l + 1);
    assert forall|i: int| d.len() - 1 <= i < s.len() implies #[trigger] conv(p, d, s, i)
        == 0 by {
        crate::berlekamp::lemma_conv_same(p, d, c, s, i);
        assert(conv(p, c, s, i) == 0);
    }
    let w = lemma_recurrence_solved(p, d, s, x, z, 255);
    let e = Seq::new(255, |i: int| gmul(p, w[i], z[i]));
    assert(syndrome_weights(p, e, x, 1) =~= w) by {
        assert forall|i: int| 0 <= i < 255 implies syndrome_weights(p, e, x, 1)[i] == w[i] by {
            reveal_with_fuel(gpow, 2);
            lemma_gmul_units(p, x[i]);
            lemma_gmul_associates(p, w[i], z[i], x[i]);
            assert(gmul(p, z[i], x[i]) == 1);
            lemma_gmul_units(p, w[i]);
        }
    }
    lemma_syndrome_weights(p, 1, 1, e);
    assert forall|i: int| 0 <= i < 255 && w[i] != 0 implies #[trigger] peval(p, c, z[i])
        == 0 by {
        assert(peval(p, d, z[i]) == 0);
        lemma_peval_take(p, c, z[i], l + 1);
    }
    crate::berlekamp::lemma_roots_cover(p, c, w, z);
    lemma_bm_short(p, w, x, n);
    assert(weight(e) == l);
    lemma_syndromes_psums(p, 1, 1, e, n);
    assert(bch_syndromes(t, e) == s);
    assert forall|j: nat| 1 <= j <= t implies psum(p, e, x, 2 * j) == gmul(
        p,
        #[trigger] psum(p, e, x, j),
        psum(p, e, x, j),
    ) by {
        let a = (j - 1) as nat;
        let b = (2 * j - 1) as nat;
        crate::cyclic::lemma_psum_split(p, e, x, 1, a);
        crate::cyclic::lemma_psum_split(p, e, x, 1, b);
        assert(1 + a == j && 1 + b == 2 * j);
        assert(s[a as int] == psum(p, w, x, a));
        assert(s[b as int] == psum(p, w, x, b));
        lemma_syndrome_at(t, r, a as int);
        lemma_syndrome_at(t, r, b as int);
        assert((a + 1) as nat == j && (b + 1) as nat == 2 * j);
        lemma_pow_add(p, 2, j, j);
        assert(j + j == 2 * j);
        lemma_bits_square(p, r, gpow(p, 2, j));
    }
    lemma_frobenius_weights(e, t);
    let q = flip_roots(r, c);
    assert(q =~= wxor(r, e)) by {
        assert forall|i: int| 0 <= i < 255 implies q[i] == r[i] ^ e[i] by {
            assert(w[i] != 0 <==> peval(p, c, z[i]) == 0);
            assert(syndrome_weights(p, e, x, 1)[i] == 0 <==> e[i] == 0);
            assert(e[i] <= 1);
            lemma_xor(r[i], 0, 0, 0);
        }
    }
    assert(is_bits(q)) by {
        assert forall|i: int| 0 <= i < q.len() implies #[trigger] q[i] <= 1 by {
            assert(e[i] <= 1 && r[i] <= 1);
            lemma_xor_bits(r[i], e[i]);
        }
    }
    assert forall|m: int| 0 <= m < 2 * t implies #[trigger] bch_syndromes(t, q)[m] == 0 by {
        lemma_syndromes_xor(t, r, e, m);
        lemma_xor(s[m], s[m], 0, 0);
    }
    lemma_codeword_syndromes(t, q);
    assert(wxor(r, q) =~= e) by {
        assert forall|i: int| 0 <= i < 255 implies r[i] ^ q[i] == e[i] by {
            lemma_xor(e[i], r[i], 0, 0);
            lemma_xor(r[i], e[i], 0, 0);
            lemma_xor(r[i], q[i], 0, 0);
        }
    }
}

/// Lists the cyclotomic coset of `i` modulo `255`.
pub fn cyclotomic_coset_mod255(i: usize) -> (c: Vec<usize>)
    requires
        i < 255,
    ensures
        c@.len() == coset(i as nat).len(),
        forall|j: int| 0 <= j < c@.len() ==> #[trigger] c@[j] == coset(i as nat)[j],
{
    let mut c: Vec<usize> = Vec::new();
    let mut x: usize = i;
    let ghost full = coset(i as nat);
    proof {
        lemma_coset(i as nat);
        assert(full =~= Seq::<nat>::empty() + coset_tail(i as nat, x as nat, 8));
    }
    while c.len() < 8
        invariant_except_break
            i < 255,
            x < 255,
            c@.len() < 8,
            full == full.take(c@.len() as int) + coset_tail(
                i as nat,
                x as nat,
                (8 - c@.len()) as nat,
            ),
            c@.len() < full.len(),
        invariant
            c@.len() <= 8,
            full == coset(i as nat),
            full.len() <= 8,
            forall|j: int| 0 <= j < c@.len() ==> #[trigger] c@[j] == full[j],
        ensures
            c@.len() == full.len(),
        decreases 8 - c@.len(),
    {
        let ghost n = c@.len();
        let ghost tail = coset_tail(i as nat, x as nat, (8 - n) as nat);
        assert(full[n as int] == tail[0]);
        c.push(x);
        x = (x * 2) % 255;
        proof {
            assert(x as nat == (2 * full[n as int]) % 255);
            if x == i {
                assert(tail.len() == 1);
            } else {
                let next = coset_tail(i as nat, x as nat, (7 - n) as nat);
                assert(tail =~= seq![full[n as int]] + next);
                assert(full =~= full.take(n as int + 1) + next);
            }
        }
        if x == i || c.len() == 8 {
            break;
        }
    }
    c
}

/// A binary BCH code of length `255`.
pub struct BchCode {
    t: usize,
    k: usize,
    generator: Vec<u8>,
    gf: GfTables,
}

impl BchCode {
    /// The correction capability of the code.
    pub closed spec fn capability(&self) -> nat {
        self.t as nat
    }

    /// The code holds what its capability determines.
    pub closed spec fn wf(&self) -> bool {
        &&& 1 <= self.t <= MAX_T
        &&& self.k == dimension(self.t as nat)
        &&& self.generator@ == generator(self.t as nat)
        &&& self.gf.wf()
        &&& self.gf.poly() == POLY_11D
    }

    /// What every well-formed code satisfies.
    pub proof fn lemma_wf(&self)
        requires
            self.wf(),
        ensures
            1 <= self.capability() <= MAX_T,
            175 <= dimension(self.capability()) < 255,
    {
        lemma_exponents_range(self.t as nat);
    }

    /// Constructs the code that corrects up to `t` bit errors.
    pub fn new(t: usize) -> (r: Result<BchCode, FecError>)
        ensures
            match r {
                Ok(code) => 1 <= t <= MAX_T && code.wf() && code.capability() == t,
                Err(e) => !(1 <= t <= MAX_T) && e == FecError::InvalidParam(
                    "t must be in 1..=10 for BCH(255) over GF(2^8)",
                ),
            },
    {
        if t == 0 || t > MAX_T {
            return Err(
                FecError::InvalidParam("t must be in 1..=10 for BCH(255) over GF(2^8)"),
            );
        }
        let gf: GfTables = GfTables::new(POLY_11D);
        let ghost p = POLY_11D;
        let mut g: Vec<u8> = vec![1u8; 1];
        let mut seen: [bool; 255] = [false; 255];
        let mut h: usize = 0;
        proof {
            assert(g@ =~= seq![1u8]);
            assert(powers(root_exponents(0)) =~= Seq::<u8>::empty());
        }
        while h < t
            invariant
                1 <= t <= MAX_T,
                h <= t,
                gf.wf(),
                gf.poly() == POLY_11D,
                p == POLY_11D,
                g@ == generator(h as nat),
                forall|e: int|
                    0 <= e < 255 ==> (#[trigger] seen@[e] <==> root_exponents(h as nat).contains(
                        e as nat,
                    )),
            decreases t - h,
        {
            let i: usize = 2 * h + 1;
            let ghost before = root_exponents(h as nat);
            proof {
                lemma_exponents_range(h as nat);
                lemma_generator(h as nat);
                assert(root_exponents((h + 1) as nat) == if before.contains(i as nat) {
                    before
                } else {
                    before + coset(i as nat)
                });
                assert(seen@[i as int] <==> before.contains(i as nat));
            }
            if !seen[i] {
                let c: Vec<usize> = cyclotomic_coset_mod255(i);
                let ghost cs = coset(i as nat);
                proof {
                    lemma_coset(i as nat);
                    assert(before + cs.take(0) =~= before);
                }
                let mut j: usize = 0;
                while j < c.len()
                    invariant
                        gf.wf(),
                        gf.poly() == POLY_11D,
                        p == POLY_11D,
                        cs == coset(i as nat),
                        c@.len() == cs.len(),
                        cs.len() <= 8,
                        before.len() <= 80,
                        forall|m: int| 0 <= m < cs.len() ==> #[trigger] cs[m] < 255,
                        forall|m: int| 0 <= m < c@.len() ==> #[trigger] c@[m] == cs[m],
                        j <= c@.len(),
                        g@ == poly_of_roots(p, powers(before + cs.take(j as int))),
                        g@.len() == before.len() + j + 1,
                        forall|e: int|
                            0 <= e < 255 ==> (#[trigger] seen@[e] <==> (before + cs.take(
                                j as int,
                            )).contains(e as nat)),
                    decreases c@.len() - j,
                {
                    let e: usize = c[j];
                    let ghost now = before + cs.take(j as int);
                    let ghost next = before + cs.take(j as int + 1);
                    assert(cs[j as int] < 255);
                    let root: u8 = gf.alpha_pow(e);
                    g = multiply_by_root(&gf, &g, root);
                    seen[e] = true;
                    proof {
                        assert(next =~= now.push(e as nat));
                        assert(powers(next).drop_last() =~= powers(now));
                        assert(powers(next).last() == root);
                        assert forall|m: int| 0 <= m < 255 implies (#[trigger] seen@[m]
                            <==> next.contains(m as nat)) by {
                            if m == e {
                                assert(next[next.len() - 1] == e);
                            } else {
                                if now.contains(m as nat) {
                                    let q = choose|q: int| 0 <= q < now.len() && now[q] == m;
                                    assert(next[q] == m);
                                }
                                if next.contains(m as nat) {
                                    let q = choose|q: int| 0 <= q < next.len() && next[q] == m;
                                    assert(now[q] == m);
                                }
                            }
                        }
                    }
                    j = j + 1;
                }
                assert(cs.take(j as int) =~= cs);
            }
            h = h + 1;
        }
        proof {
            lemma_generator(t as nat);
            lemma_exponents_range(t as nat);
        }
        let k: usize = N + 1 - g.len();
        Ok(BchCode { t, k, generator: g, gf })
    }

    /// Block length, always `255`.
    pub fn n(&self) -> (r: usize)
        ensures
            r == 255,
    {
        N
    }

    /// Number of information bits.
    pub fn k(&self) -> (r: usize)
        requires
            self.wf(),
        ensures
            r == dimension(self.capability()),
    {
        self.k
    }

    /// Number of bit errors the code corrects.
    pub fn t(&self) -> (r: usize)
        ensures
            r == self.capability(),
    {
        self.t
    }

    /// Number of parity bits, the degree of the generator.
    pub fn parity_len(&self) -> (r: usize)
        requires
            self.wf(),
        ensures
            r == 255 - dimension(self.capability()),
            r == generator(self.capability()).len() - 1,
    {
        proof {
            lemma_generator(self.t as nat);
        }
        self.generator.len() - 1
    }

    /// The coefficients of the generator polynomial, lowest first.
    pub fn generator(&self) -> (g: &Vec<u8>)
        requires
            self.wf(),
        ensures
            g@ == generator(self.capability()),
    {
        &self.generator
    }
}

/// Zero bits ahead of a word.
pub open spec fn padded(n: int, w: Seq<u8>) -> Seq<u8> {
    Seq::new((n - w.len()) as nat, |i: int| 0u8) + w
}

/// The received entries with their low bits replaced by those of `c`.
pub open spec fn with_low_bits(w: Seq<u8>, c: Seq<u8>) -> Seq<u8> {
    Seq::new(w.len(), |i: int| w[i] ^ ((w[i] & 1) ^ c[i]))
}

/// What a failed decoding leaves behind: flips at the roots of a locator that
/// is short enough, and nothing otherwise.
pub open spec fn leftover(t: nat, w: Seq<u8>) -> Seq<u8> {
    let s = bch_syndromes(t, low_bits(w));
    if 1 <= locator_len(POLY_11D, s) <= t {
        flip_roots(w, locator(POLY_11D, s))
    } else {
        w
    }
}

/// The outcome of decoding a full-length word: the low bits move to the
/// codeword within reach, and decoding fails exactly when there is none.
pub open spec fn decoded(
    t: nat,
    before: Seq<u8>,
    after: Seq<u8>,
    r: Result<usize, FecError>,
) -> bool {
    match r {
        Ok(n) => exists|c: Seq<u8>| #[trigger]
            in_reach(t, low_bits(before), c) && n == distance(low_bits(before), c) && after
                == with_low_bits(before, c),
        Err(e) => {
            &&& e == FecError::DecoderNotConverged
            &&& forall|c: Seq<u8>| !#[trigger] in_reach(t, low_bits(before), c)
            &&& after == leftover(t, before)
        },
    }
}

proof fn lemma_divide_leading_zeros(p: u8, g: Seq<u8>, n: nat, info: Seq<u8>)
    requires
        g.len() >= 2,
    ensures
        divide(p, g, Seq::new(n, |i: int| 0u8) + info) == divide(p, g, info),
    decreases n + info.len(),
{
    let zeros = Seq::new(n, |i: int| 0u8);
    let all = zeros + info;
    if info.len() > 0 {
        lemma_divide_leading_zeros(p, g, n, info.drop_last());
        assert(all.drop_last() =~= zeros + info.drop_last());
    } else if n > 0 {
        let m = (n - 1) as nat;
        let fewer = Seq::new(m, |i: int| 0u8);
        lemma_divide_leading_zeros(p, g, m, info);
        assert(all.drop_last() =~= fewer + info);
        assert(info =~= Seq::<u8>::empty());
        let r = divide(p, g, info);
        assert(divide(p, g, all) =~= r) by {
            lemma_xor(0, 0, 0, 0);
            assert forall|i: int| 0 <= i < r.len() implies divide_step(p, g, r, 0)[i] == 0 by {
                lemma_gmul_units(p, g[i]);
            }
        }
    } else {
        assert(all =~= info);
    }
}

/// Whether every entry is `0` or `1`.
fn all_bits(w: &[u8]) -> (r: bool)
    ensures
        r == is_bits(w@),
{
    let mut i: usize = 0;
    while i < w.len()
        invariant
            i <= w@.len(),
            forall|j: int| 0 <= j < i ==> #[trigger] w@[j] <= 1,
        decreases w@.len() - i,
    {
        if w[i] > 1 {
            assert(w@[i as int] > 1);
            return false;
        }
        i = i + 1;
    }
    true
}

/// Whether the first `n` entries are zero.
fn leading_zeros(w: &Vec<u8>, n: usize) -> (r: bool)
    requires
        n <= w@.len(),
    ensures
        r == starts_with_zeros(w@, n as int),
{
    let mut i: usize = 0;
    while i < n
        invariant
            i <= n,
            n <= w@.len(),
            starts_with_zeros(w@, i as int),
        decreases n - i,
    {
        if w[i] != 0 {
            assert(w@[i as int] != 0);
            return false;
        }
        i = i + 1;
    }
    true
}

impl BchCode {
    /// Writes `info` followed by its parity bits.
    fn write_systematic(&self, info: &[u8], out: &mut [u8])
        requires
            self.wf(),
            old(out)@.len() == info@.len() + 255 - dimension(self.capability()),
        ensures
            final(out)@ == systematic(POLY_11D, generator(self.capability()), info@),
    {
        proof {
            lemma_generator(self.t as nat);
            lemma_exponents_range(self.t as nat);
        }
        let r: Vec<u8> = remainder(&self.gf, &self.generator, info);
        let k: usize = info.len();
        let m: usize = r.len();
        let n: usize = out.len();
        let ghost target = systematic(POLY_11D, generator(self.capability()), info@);
        let mut i: usize = 0;
        while i < k
            invariant
                i <= k,
                k == info@.len(),
                m == r@.len(),
                n == k + m,
                out@.len() == n,
                target == info@ + r@.reverse(),
                forall|j: int| 0 <= j < i ==> #[trigger] out@[j] == target[j],
            decreases k - i,
        {
            out[i] = info[i];
            i = i + 1;
        }
        let mut j: usize = 0;
        while j < m
            invariant
                j <= m,
                k == info@.len(),
                m == r@.len(),
                n == k + m,
                out@.len() == n,
                target == info@ + r@.reverse(),
                forall|q: int| 0 <= q < k + j ==> #[trigger] out@[q] == target[q],
            decreases m - j,
        {
            assert(target[k + j] == r@.reverse()[j as int]);
            out[k + j] = r[m - 1 - j];
            j = j + 1;
        }
        assert(out@ =~= target);
    }

    /// Encodes `k` information bits, highest power first, into a codeword
    /// that starts with them.
    pub fn encode(&self, info: &[u8], codeword_out: &mut [u8]) -> (r: Result<(), FecError>)
        requires
            self.wf(),
        ensures
            final(codeword_out)@.len() == old(codeword_out)@.len(),
            info@.len() != dimension(self.capability()) ==> r == Err::<(), _>(
                FecError::InvalidParam("info length must equal k"),
            ),
            info@.len() == dimension(self.capability()) && old(codeword_out)@.len() != 255 ==> r
                == Err::<(), _>(
                FecError::BufferTooSmall { required: 255, provided: old(codeword_out)@.len() as usize },
            ),
            info@.len() == dimension(self.capability()) && old(codeword_out)@.len() == 255
                && !is_bits(info@) ==> r == Err::<(), _>(
                FecError::InvalidParam("info bits must be 0 or 1"),
            ),
            info@.len() == dimension(self.capability()) && old(codeword_out)@.len() == 255
                && is_bits(info@) ==> r is Ok,
            r is Ok ==> bch_codeword(self.capability(), final(codeword_out)@)
                && final(codeword_out)@.take(info@.len() as int) == info@,
            r is Err ==> final(codeword_out)@ == old(codeword_out)@,
    {
        if info.len() != self.k {
            return Err(FecError::InvalidParam("info length must equal k"));
        }
        if codeword_out.len() != N {
            return Err(FecError::BufferTooSmall { required: N, provided: codeword_out.len() });
        }
        if !all_bits(info) {
            return Err(FecError::InvalidParam("info bits must be 0 or 1"));
        }
        proof {
            self.lemma_wf();
            lemma_encoding_is_codeword(self.t as nat, info@);
        }
        self.write_systematic(info, codeword_out);
        Ok(())
    }

    /// Encodes `k_short` information bits with the shortened code, whose
    /// words are codewords that start with `k - k_short` zero bits, which are
    /// left out.
    pub fn shortened_encode(
        &self,
        k_short: usize,
        info: &[u8],
        codeword_out: &mut [u8],
    ) -> (r: Result<(), FecError>)
        requires
            self.wf(),
        ensures
            final(codeword_out)@.len() == old(codeword_out)@.len(),
            k_short > dimension(self.capability()) ==> r == Err::<(), _>(
                FecError::InvalidParam("k_short must be <= k"),
            ),
            k_short <= dimension(self.capability()) && info@.len() != k_short ==> r == Err::<
                (),
                _,
            >(FecError::InvalidParam("info length must equal k_short")),
            k_short <= dimension(self.capability()) && info@.len() == k_short
                && old(codeword_out)@.len() != k_short + 255 - dimension(self.capability()) ==> r
                == Err::<(), _>(
                FecError::BufferTooSmall {
                    required: (k_short + 255 - dimension(self.capability())) as usize,
                    provided: old(codeword_out)@.len() as usize,
                },
            ),
            k_short <= dimension(self.capability()) && info@.len() == k_short
                && old(codeword_out)@.len() == k_short + 255 - dimension(self.capability())
                && !is_bits(info@) ==> r
                == Err::<(), _>(FecError::InvalidParam("info bits must be 0 or 1")),
            k_short <= dimension(self.capability()) && info@.len() == k_short
                && old(codeword_out)@.len() == k_short + 255 - dimension(self.capability())
                && is_bits(info@) ==> r is Ok,
            r is Ok ==> bch_codeword(self.capability(), padded(255, final(codeword_out)@))
                && final(codeword_out)@.take(k_short as int) == info@,
            r is Err ==> final(codeword_out)@ == old(codeword_out)@,
    {
        proof {
            self.lemma_wf();
        }
        if k_short > self.k {
            return Err(FecError::InvalidParam("k_short must be <= k"));
        }
        if info.len() != k_short {
            return Err(FecError::InvalidParam("info length must equal k_short"));
        }
        let out_len: usize = k_short + (N - self.k);
        if codeword_out.len() != out_len {
            return Err(
                FecError::BufferTooSmall { required: out_len, provided: codeword_out.len() },
            );
        }
        if !all_bits(info) {
            return Err(FecError::InvalidParam("info bits must be 0 or 1"));
        }
        self.write_systematic(info, codeword_out);
        proof {
            let t = self.capability();
            let g = generator(t);
            let n = (dimension(t) - k_short) as nat;
            let zeros = Seq::new(n, |i: int| 0u8);
            let full = zeros + info@;
            lemma_generator(t);
            lemma_divide_leading_zeros(POLY_11D, g, n, info@);
            assert(is_bits(full)) by {
                assert forall|i: int| 0 <= i < full.len() implies #[trigger] full[i] <= 1 by {
                    if i >= n {
                        assert(full[i] == info@[i - n]);
                    }
                }
            }
            lemma_encoding_is_codeword(t, full);
            lemma_divide_bits(POLY_11D, g, info@);
            assert(padded(255, codeword_out@) =~= systematic(POLY_11D, g, full));
            assert(codeword_out@.take(k_short as int) =~= info@);
        }
        Ok(())
    }

    /// The `2t` syndromes of a word of bits: the odd ones by evaluation, the
    /// even ones as squares.
    fn syndromes(&self, w: &Vec<u8>) -> (r: (Vec<u8>, bool))
        requires
            self.wf(),
            w@.len() == 255,
            is_bits(w@),
        ensures
            r.0@ == bch_syndromes(self.capability(), w@),
            r.1 == !bch_codeword(self.capability(), w@),
    {
        let two_t: usize = 2 * self.t;
        let ghost t = self.t as nat;
        let ghost p = POLY_11D;
        let mut s: Vec<u8> = Vec::new();
        let mut any: bool = false;
        let mut m: usize = 0;
        while m < two_t
            invariant
                self.wf(),
                w@.len() == 255,
                is_bits(w@),
                t == self.t,
                two_t == 2 * t,
                t <= 10,
                p == POLY_11D,
                m <= two_t,
                s@.len() == m,
                forall|j: int| 0 <= j < m ==> #[trigger] s@[j] == bch_syndromes(t, w@)[j],
                any <==> exists|j: int| 0 <= j < m && #[trigger] bch_syndromes(t, w@)[j] != 0,
            decreases two_t - m,
        {
            let e: usize = m + 1;
            proof {
                lemma_syndrome_at(t, w@, m as int);
            }
            let v: u8 = if e % 2 == 1 {
                let y: u8 = self.gf.alpha_pow(e);
                evaluate(&self.gf, w.as_slice(), y)
            } else {
                let half: usize = e / 2 - 1;
                let a: u8 = s[half];
                proof {
                    let x = (e / 2) as nat;
                    assert(s@[half as int] == bch_syndromes(t, w@)[half as int]);
                    lemma_syndrome_at(t, w@, half as int);
                    lemma_pow_add(p, 2, x, x);
                    assert(x + x == e);
                    lemma_bits_square(p, w@, gpow(p, 2, x));
                }
                self.gf.mul(a, a)
            };
            assert(v == bch_syndromes(t, w@)[m as int]);
            if v != 0 {
                any = true;
            }
            s.push(v);
            m = m + 1;
        }
        proof {
            assert(s@ =~= bch_syndromes(t, w@));
            lemma_codeword_syndromes(t, w@);
        }
        (s, any)
    }

    /// Decodes a full-length word in place.
    fn decode_full(&self, w: &mut Vec<u8>) -> (r: Result<usize, FecError>)
        requires
            self.wf(),
            old(w)@.len() == 255,
        ensures
            final(w)@.len() == 255,
            decoded(self.capability(), old(w)@, final(w)@, r),
    {
        let ghost t = self.capability();
        let ghost before = w@;
        let ghost r = low_bits(before);
        let ghost p = POLY_11D;
        let ghost z = inverse_points(p, 1);
        let mut low: Vec<u8> = Vec::new();
        let mut i: usize = 0;
        while i < 255
            invariant
                i <= 255,
                w@ == before,
                before.len() == 255,
                low@.len() == i,
                forall|j: int| 0 <= j < i ==> #[trigger] low@[j] == before[j] & 1,
            decreases 255 - i,
        {
            low.push(w[i] & 1);
            i = i + 1;
        }
        proof {
            assert(low@ =~= r);
            assert forall|j: int| 0 <= j < r.len() implies #[trigger] r[j] <= 1 by {
                lemma_low_bit(before[j]);
            }
        }
        let (s, any): (Vec<u8>, bool) = self.syndromes(&low);
        if !any {
            proof {
                lemma_self_distance(r);
                assert(in_reach(t, r, r));
                assert(with_low_bits(before, r) =~= before) by {
                    assert forall|j: int| 0 <= j < 255 implies before[j] ^ ((before[j] & 1)
                        ^ r[j]) == before[j] by {
                        lemma_low_bit(before[j]);
                    }
                }
            }
            return Ok(0);
        }
        let (c, l): (Vec<u8>, usize) = berlekamp_massey(&self.gf, s.as_slice());
        if l == 0 || l > self.t {
            proof {
                assert forall|q: Seq<u8>| !#[trigger] in_reach(t, r, q) by {
                    if in_reach(t, r, q) {
                        lemma_reach_located(t, r, q);
                        if distance(r, q) == 0 {
                            lemma_zero_distance(r, q);
                        }
                    }
                }
                assert(leftover(t, before) =~= before);
            }
            return Err(FecError::DecoderNotConverged);
        }
        let mut corrected: usize = 0;
        let mut u: usize = 0;
        while u < 255
            invariant
                self.wf(),
                p == POLY_11D,
                z == inverse_points(p, 1),
                u <= 255,
                before.len() == 255,
                w@.len() == 255,
                c@ == locator(p, s@),
                forall|j: int| 0 <= j < u ==> #[trigger] w@[j] == flip_roots(before, c@)[j],
                forall|j: int| u <= j < 255 ==> #[trigger] w@[j] == before[j],
                corrected == root_count(p, c@, z, u as nat),
                corrected <= u,
            decreases 255 - u,
        {
            let y: u8 = self.gf.alpha_pow(u + 1);
            let v: u8 = crate::berlekamp::polynomial_value(&self.gf, &c, y);
            assert(y == z[u as int]);
            if v == 0 {
                let b: u8 = w[u] ^ 1;
                w.set(u, b);
                corrected = corrected + 1;
            }
            u = u + 1;
        }
        proof {
            assert(w@ =~= flip_roots(before, c@));
        }
        if corrected != l {
            proof {
                assert forall|q: Seq<u8>| !#[trigger] in_reach(t, r, q) by {
                    if in_reach(t, r, q) {
                        lemma_reach_located(t, r, q);
                    }
                }
            }
            return Err(FecError::DecoderNotConverged);
        }
        proof {
            lemma_located_codeword(t, r);
            let q = flip_roots(r, c@);
            assert(in_reach(t, r, q));
            assert(with_low_bits(before, q) =~= flip_roots(before, c@)) by {
                assert forall|j: int| 0 <= j < 255 implies with_low_bits(before, q)[j]
                    == flip_roots(before, c@)[j] by {
                    lemma_low_bit(before[j]);
                }
            }
        }
        Ok(corrected)
    }

    /// Corrects up to `t` bit errors in a received word, in place, and
    /// returns their number.
    pub fn decode(&self, codeword: &mut [u8]) -> (r: Result<usize, FecError>)
        requires
            self.wf(),
        ensures
            final(codeword)@.len() == old(codeword)@.len(),
            old(codeword)@.len() != 255 ==> final(codeword)@ == old(codeword)@ && r == Err::<
                usize,
                _,
            >(FecError::BufferTooSmall { required: 255, provided: old(codeword)@.len() as usize }),
            old(codeword)@.len() == 255 ==> decoded(
                self.capability(),
                old(codeword)@,
                final(codeword)@,
                r,
            ),
    {
        if codeword.len() != N {
            return Err(FecError::BufferTooSmall { required: N, provided: codeword.len() });
        }
        let mut w: Vec<u8> = to_vector(codeword);
        let r: Result<usize, FecError> = self.decode_full(&mut w);
        copy_into(&w, 0, codeword);
        assert(w@.skip(0) =~= w@);
        r
    }

    /// Decodes a word of the shortened code in place: the left-out zero bits
    /// are put back for decoding, and a correction among them is a failure.
    pub fn shortened_decode(&self, k_short: usize, codeword: &mut [u8]) -> (r: Result<
        usize,
        FecError,
    >)
        requires
            self.wf(),
        ensures
            final(codeword)@.len() == old(codeword)@.len(),
            k_short > dimension(self.capability()) ==> final(codeword)@ == old(codeword)@ && r
                == Err::<usize, _>(FecError::InvalidParam("k_short must be <= k")),
            k_short <= dimension(self.capability()) && old(codeword)@.len() != k_short + 255
                - dimension(self.capability()) ==> final(codeword)@ == old(codeword)@ && r == Err::<
                usize,
                _,
            >(
                FecError::BufferTooSmall {
                    required: (k_short + 255 - dimension(self.capability())) as usize,
                    provided: old(codeword)@.len() as usize,
                },
            ),
            k_short <= dimension(self.capability()) && old(codeword)@.len() == k_short + 255
                - dimension(self.capability()) ==> shortened_decoded(
                self.capability(),
                old(codeword)@,
                final(codeword)@,
                r,
            ),
    {
        proof {
            self.lemma_wf();
        }
        if k_short > self.k {
            return Err(FecError::InvalidParam("k_short must be <= k"));
        }
        let out_len: usize = k_short + (N - self.k);
        if codeword.len() != out_len {
            return Err(FecError::BufferTooSmall { required: out_len, provided: codeword.len() });
        }
        let pad: usize = self.k - k_short;
        let ghost before = codeword@;
        let mut full: Vec<u8> = vec![0u8; pad];
        let mut i: usize = 0;
        while i < out_len
            invariant
                i <= out_len,
                out_len == codeword@.len(),
                codeword@ == before,
                full@.len() == pad + i,
                forall|j: int| 0 <= j < pad ==> full@[j] == 0,
                forall|j: int| 0 <= j < i ==> full@[pad + j] == before[j],
            decreases out_len - i,
        {
            full.push(codeword[i]);
            i = i + 1;
        }
        let ghost wide = full@;
        assert(wide =~= padded(255, before));
        let corrected: usize = match self.decode_full(&mut full) {
            Ok(n) => n,
            Err(e) => {
                assert(forall|c: Seq<u8>| !#[trigger] in_reach(self.capability(), low_bits(wide), c));
                return Err(e);
            },
        };
        let ghost c = choose|c: Seq<u8>| #[trigger]
            in_reach(self.capability(), low_bits(wide), c) && corrected == distance(
                low_bits(wide),
                c,
            ) && full@ == with_low_bits(wide, c);
        if !leading_zeros(&full, pad) {
            proof {
                let q = choose|q: int| 0 <= q < pad && full@[q] != 0;
                lemma_pad_bit(c[q]);
                assert(c[q] != 0);
                assert(is_bits(low_bits(wide))) by {
                    assert forall|i: int| 0 <= i < 255 implies #[trigger] low_bits(wide)[i]
                        <= 1 by {
                        lemma_low_bit(wide[i]);
                    }
                }
                lemma_only_reach(self.capability(), low_bits(wide), c);
            }
            return Err(FecError::DecoderNotConverged);
        }
        copy_into(&full, pad, codeword);
        proof {
            assert(starts_with_zeros(c, pad as int)) by {
                assert forall|q: int| 0 <= q < pad implies #[trigger] c[q] == 0 by {
                    assert(full@[q] == 0);
                    lemma_pad_bit(c[q]);
                }
            }
            let tail = c.skip(pad as int);
            assert(codeword@ =~= with_low_bits(before, tail)) by {
                assert forall|q: int| 0 <= q < before.len() implies codeword@[q] == with_low_bits(
                    before,
                    tail,
                )[q] by {
                    assert(wide[pad + q] == before[q]);
                    assert(full@[pad + q] == wide[pad + q] ^ ((wide[pad + q] & 1) ^ c[pad + q]));
                }
            }
        }
        Ok(corrected)
    }
}

proof fn lemma_pad_bit(a: u8)
    by (bit_vector)
    ensures
        0u8 ^ ((0u8 & 1) ^ a) == a,
{
}

/// The first `n` entries are zero.
pub open spec fn starts_with_zeros(c: Seq<u8>, n: int) -> bool {
    forall|i: int| 0 <= i < n ==> #[trigger] c[i] == 0
}

/// The outcome of decoding a word of the shortened code: success exactly when
/// a codeword within reach of the zero-extended word starts with the left-out
/// zeros.
pub open spec fn shortened_decoded(
    t: nat,
    before: Seq<u8>,
    after: Seq<u8>,
    r: Result<usize, FecError>,
) -> bool {
    let pad = 255 - before.len();
    let wide = low_bits(padded(255, before));
    match r {
        Ok(n) => exists|c: Seq<u8>| #[trigger]
            in_reach(t, wide, c) && starts_with_zeros(c, pad) && n == distance(wide, c) && after
                == with_low_bits(before, c.skip(pad)),
        Err(e) => {
            &&& e == FecError::DecoderNotConverged
            &&& forall|c: Seq<u8>| #[trigger]
                in_reach(t, wide, c) ==> !starts_with_zeros(c, pad)
            &&& after == before
        },
    }
}

proof fn lemma_self_distance(r: Seq<u8>)
    ensures
        distance(r, r) == 0,
{
    let d = wxor(r, r);
    assert forall|i: int| 0 <= i < d.len() implies d[i] == 0 by {
        lemma_xor(r[i], r[i], 0, 0);
    }
    lemma_psum_zero(POLY_11D, d, d, 0);
}

proof fn lemma_zero_weight(d: Seq<u8>)
    requires
        weight(d) == 0,
    ensures
        forall|i: int| 0 <= i < d.len() ==> d[i] == 0,
    decreases d.len(),
{
    if d.len() > 0 {
        lemma_zero_weight(d.drop_last());
        assert forall|i: int| 0 <= i < d.len() implies d[i] == 0 by {
            if i < d.len() - 1 {
                assert(d.drop_last()[i] == d[i]);
            }
        }
    }
}

/// Words at distance zero are equal.
proof fn lemma_zero_distance(a: Seq<u8>, b: Seq<u8>)
    requires
        a.len() == b.len(),
        distance(a, b) == 0,
    ensures
        a == b,
{
    let d = wxor(a, b);
    lemma_zero_weight(d);
    assert forall|i: int| 0 <= i < a.len() implies a[i] == b[i] by {
        assert(d[i] == 0);
        lemma_xor(a[i], b[i], 0, 0);
    }
    assert(a =~= b);
}

/// At most one codeword is within reach of a word of bits.
pub proof fn lemma_reach_unique(t: nat, r: Seq<u8>, c: Seq<u8>, d: Seq<u8>)
    requires
        r.len() == 255,
        is_bits(r),
        in_reach(t, r, c),
        in_reach(t, r, d),
    ensures
        c == d,
{
    lemma_reach_located(t, r, c);
    lemma_reach_located(t, r, d);
    assert forall|i: int| 0 <= i < 255 implies c[i] == d[i] by {
        assert(r[i] != c[i] <==> r[i] != d[i]);
        assert(c[i] <= 1 && d[i] <= 1 && r[i] <= 1);
    }
    assert(c =~= d);
}

proof fn lemma_only_reach(t: nat, r: Seq<u8>, c: Seq<u8>)
    requires
        r.len() == 255,
        is_bits(r),
        in_reach(t, r, c),
    ensures
        forall|d: Seq<u8>| #[trigger] in_reach(t, r, d) ==> d == c,
{
    assert forall|d: Seq<u8>| #[trigger] in_reach(t, r, d) implies d == c by {
        lemma_reach_unique(t, r, c, d);
    }
}

} // verus!
