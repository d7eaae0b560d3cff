//! Arithmetic in `GF(2^8)` for the two field polynomials the codes use.
//!
//! An element is a byte; addition is xor. The field polynomial is named by
//! its low eight bits (the leading `x^8` is implicit), so every operation
//! takes that byte first.

use vstd::prelude::*;

verus! {

/// Low byte of `x^8 + x^4 + x^3 + x^2 + 1`, the field of the BCH codes.
pub const POLY_11D: u8 = 0x1D;

/// Low byte of `x^8 + x^7 + x^2 + x + 1`, the field of the CCSDS code.
pub const POLY_187: u8 = 0x87;

/// The field polynomials supported here, for both of which `2` is primitive.
pub open spec fn is_field_poly(p: u8) -> bool {
    p == POLY_11D || p == POLY_187
}

/// Multiplication by the element `x` (the byte `2`).
pub open spec fn xtime(p: u8, a: u8) -> u8 {
    if a & 0x80 == 0 {
        a << 1
    } else {
        (a << 1) ^ p
    }
}

/// The term of a product that bit `i` of the multiplier selects.
pub open spec fn picked(b: u8, i: u8, a: u8) -> u8 {
    if (b >> i) & 1 == 0 {
        0
    } else {
        a
    }
}

/// The sum of `x^i * a` over the bits `i` set in `b`.
pub open spec fn product_of_bits(p: u8, a: u8, b: u8) -> u8 {
    let a1 = xtime(p, a);
    let a2 = xtime(p, a1);
    let a3 = xtime(p, a2);
    let a4 = xtime(p, a3);
    let a5 = xtime(p, a4);
    let a6 = xtime(p, a5);
    let a7 = xtime(p, a6);
    ((picked(b, 0, a) ^ picked(b, 1, a1)) ^ (picked(b, 2, a2) ^ picked(b, 3, a3))) ^ ((picked(
        b,
        4,
        a4,
    ) ^ picked(b, 5, a5)) ^ (picked(b, 6, a6) ^ picked(b, 7, a7)))
}

/// The field product.
#[verifier::opaque]
pub open spec fn gmul(p: u8, a: u8, b: u8) -> u8 {
    product_of_bits(p, a, b)
}

/// The `n`-th power of `a`.
pub open spec fn gpow(p: u8, a: u8, n: nat) -> u8
    decreases n,
{
    if n == 0 {
        1
    } else {
        gmul(p, a, gpow(p, a, (n - 1) as nat))
    }
}

/// Xor is an abelian group operation in which every element is its own
/// inverse.
pub proof fn lemma_xor(a: u8, b: u8, c: u8, d: u8)
    by (bit_vector)
    ensures
        a ^ b == b ^ a,
        (a ^ b) ^ c == a ^ (b ^ c),
        a ^ a == 0u8,
        a ^ 0u8 == a,
        0u8 ^ a == a,
        (a ^ b) ^ b == a,
        a ^ b == 0u8 <==> a == b,
        (a ^ b) ^ (c ^ d) == (a ^ c) ^ (b ^ d),
        (a ^ b) ^ (b ^ c) == a ^ c,
        a ^ b == a ^ c <==> b == c,
{
}

proof fn lemma_xtime_linear(p: u8, a: u8, b: u8)
    by (bit_vector)
    ensures
        xtime(p, a ^ b) == xtime(p, a) ^ xtime(p, b),
        xtime(p, 0) == 0,
{
}

proof fn lemma_picked(a: u8, b: u8, c: u8, p: u8, i: u8)
    by (bit_vector)
    requires
        i < 8,
    ensures
        picked(c, i, a ^ b) == picked(c, i, a) ^ picked(c, i, b),
        picked(a ^ b, i, c) == picked(a, i, c) ^ picked(b, i, c),
        xtime(p, picked(c, i, a)) == picked(c, i, xtime(p, a)),
        picked(c, i, 0) == 0,
        picked(0, i, c) == 0,
{
}


/// The sum of eight terms, in the order in which a product adds them.
spec fn tree(x: Seq<u8>) -> u8 {
    ((x[0] ^ x[1]) ^ (x[2] ^ x[3])) ^ ((x[4] ^ x[5]) ^ (x[6] ^ x[7]))
}

proof fn lemma_tree_sum(x: Seq<u8>, y: Seq<u8>, z: Seq<u8>)
    requires
        forall|i: int| 0 <= i < 8 ==> #[trigger] z[i] == x[i] ^ y[i],
    ensures
        tree(z) == tree(x) ^ tree(y),
{
    lemma_xor(x[0], y[0], x[1], y[1]);
    lemma_xor(x[2], y[2], x[3], y[3]);
    lemma_xor(x[4], y[4], x[5], y[5]);
    lemma_xor(x[6], y[6], x[7], y[7]);
    lemma_xor(x[0] ^ x[1], y[0] ^ y[1], x[2] ^ x[3], y[2] ^ y[3]);
    lemma_xor(x[4] ^ x[5], y[4] ^ y[5], x[6] ^ x[7], y[6] ^ y[7]);
    lemma_xor(
        (x[0] ^ x[1]) ^ (x[2] ^ x[3]),
        (y[0] ^ y[1]) ^ (y[2] ^ y[3]),
        (x[4] ^ x[5]) ^ (x[6] ^ x[7]),
        (y[4] ^ y[5]) ^ (y[6] ^ y[7]),
    );
}

/// `x^i * a`.
spec fn xtimes(p: u8, a: u8, i: nat) -> u8
    decreases i,
{
    if i == 0 {
        a
    } else {
        xtime(p, xtimes(p, a, (i - 1) as nat))
    }
}

/// The eight terms that a product adds.
spec fn terms(p: u8, a: u8, b: u8) -> Seq<u8> {
    Seq::new(8, |i: int| picked(b, i as u8, xtimes(p, a, i as nat)))
}

proof fn lemma_gmul_tree(p: u8, a: u8, b: u8)
    ensures
        gmul(p, a, b) == tree(terms(p, a, b)),
{
    reveal(gmul);
    reveal_with_fuel(xtimes, 9);
    let t = terms(p, a, b);
    let a1 = xtime(p, a);
    let a2 = xtime(p, a1);
    let a3 = xtime(p, a2);
    let a4 = xtime(p, a3);
    let a5 = xtime(p, a4);
    let a6 = xtime(p, a5);
    let a7 = xtime(p, a6);
    assert(t[0] == picked(b, 0, a));
    assert(t[1] == picked(b, 1, a1));
    assert(t[2] == picked(b, 2, a2));
    assert(t[3] == picked(b, 3, a3));
    assert(t[4] == picked(b, 4, a4));
    assert(t[5] == picked(b, 5, a5));
    assert(t[6] == picked(b, 6, a6));
    assert(t[7] == picked(b, 7, a7));
}

proof fn lemma_xtimes_linear(p: u8, a: u8, b: u8, i: nat)
    ensures
        xtimes(p, a ^ b, i) == xtimes(p, a, i) ^ xtimes(p, b, i),
        xtimes(p, xtime(p, a), i) == xtime(p, xtimes(p, a, i)),
    decreases i,
{
    if i > 0 {
        lemma_xtimes_linear(p, a, b, (i - 1) as nat);
        lemma_xtime_linear(p, xtimes(p, a, (i - 1) as nat), xtimes(p, b, (i - 1) as nat));
    }
}

/// The product distributes over addition on both sides.
pub proof fn lemma_gmul_distributes(p: u8, a: u8, b: u8, c: u8)
    ensures
        gmul(p, a ^ b, c) == gmul(p, a, c) ^ gmul(p, b, c),
        gmul(p, c, a ^ b) == gmul(p, c, a) ^ gmul(p, c, b),
{
    lemma_gmul_tree(p, a ^ b, c);
    lemma_gmul_tree(p, a, c);
    lemma_gmul_tree(p, b, c);
    lemma_gmul_tree(p, c, a ^ b);
    lemma_gmul_tree(p, c, a);
    lemma_gmul_tree(p, c, b);
    let l = terms(p, a ^ b, c);
    let r = terms(p, c, a ^ b);
    assert forall|i: int| 0 <= i < 8 implies #[trigger] l[i] == terms(p, a, c)[i] ^ terms(
        p,
        b,
        c,
    )[i] by {
        lemma_xtimes_linear(p, a, b, i as nat);
        lemma_picked(xtimes(p, a, i as nat), xtimes(p, b, i as nat), c, p, i as u8);
    }
    assert forall|i: int| 0 <= i < 8 implies #[trigger] r[i] == terms(p, c, a)[i] ^ terms(
        p,
        c,
        b,
    )[i] by {
        lemma_picked(a, b, xtimes(p, c, i as nat), p, i as u8);
    }
    lemma_tree_sum(terms(p, a, c), terms(p, b, c), l);
    lemma_tree_sum(terms(p, c, a), terms(p, c, b), r);
}

proof fn lemma_xtime_tree(p: u8, x: Seq<u8>, y: Seq<u8>)
    requires
        forall|i: int| 0 <= i < 8 ==> #[trigger] y[i] == xtime(p, x[i]),
    ensures
        tree(y) == xtime(p, tree(x)),
{
    lemma_xtime_linear(p, x[0], x[1]);
    lemma_xtime_linear(p, x[2], x[3]);
    lemma_xtime_linear(p, x[4], x[5]);
    lemma_xtime_linear(p, x[6], x[7]);
    lemma_xtime_linear(p, x[0] ^ x[1], x[2] ^ x[3]);
    lemma_xtime_linear(p, x[4] ^ x[5], x[6] ^ x[7]);
    lemma_xtime_linear(p, (x[0] ^ x[1]) ^ (x[2] ^ x[3]), (x[4] ^ x[5]) ^ (x[6] ^ x[7]));
}

proof fn lemma_gmul_xtimes(p: u8, a: u8, b: u8, i: nat)
    ensures
        gmul(p, xtimes(p, a, i), b) == xtimes(p, gmul(p, a, b), i),
    decreases i,
{
    if i > 0 {
        let j = (i - 1) as nat;
        lemma_gmul_xtimes(p, a, b, j);
        let x = xtimes(p, a, j);
        lemma_gmul_tree(p, x, b);
        lemma_gmul_tree(p, xtime(p, x), b);
        let u = terms(p, x, b);
        let v = terms(p, xtime(p, x), b);
        assert forall|k: int| 0 <= k < 8 implies #[trigger] v[k] == xtime(p, u[k]) by {
            lemma_xtimes_linear(p, x, x, k as nat);
            lemma_picked(xtimes(p, x, k as nat), 0, b, p, k as u8);
        }
        lemma_xtime_tree(p, u, v);
    }
}

proof fn lemma_gmul_zero_left(p: u8, b: u8)
    ensures
        gmul(p, 0, b) == 0,
{
    lemma_gmul_distributes(p, 0, 0, b);
    lemma_xor(gmul(p, 0, b), gmul(p, 0, b), 0, 0);
    lemma_xor(0, 0, 0, 0);
}

/// The sum of the eight terms, each multiplied by `b`.
proof fn lemma_gmul_of_tree(p: u8, x: Seq<u8>, y: Seq<u8>, b: u8)
    requires
        forall|i: int| 0 <= i < 8 ==> #[trigger] y[i] == gmul(p, x[i], b),
    ensures
        tree(y) == gmul(p, tree(x), b),
{
    lemma_gmul_distributes(p, x[0], x[1], b);
    lemma_gmul_distributes(p, x[2], x[3], b);
    lemma_gmul_distributes(p, x[4], x[5], b);
    lemma_gmul_distributes(p, x[6], x[7], b);
    lemma_gmul_distributes(p, x[0] ^ x[1], x[2] ^ x[3], b);
    lemma_gmul_distributes(p, x[4] ^ x[5], x[6] ^ x[7], b);
    lemma_gmul_distributes(p, (x[0] ^ x[1]) ^ (x[2] ^ x[3]), (x[4] ^ x[5]) ^ (x[6] ^ x[7]), b);
}

/// Multiplying by `b` and then by `c` is multiplying by `c` and then by `b`.
proof fn lemma_gmul_swap(p: u8, a: u8, b: u8, c: u8)
    ensures
        gmul(p, gmul(p, a, b), c) == gmul(p, gmul(p, a, c), b),
{
    let u = terms(p, a, c);
    let v = terms(p, gmul(p, a, b), c);
    lemma_gmul_tree(p, a, c);
    lemma_gmul_tree(p, gmul(p, a, b), c);
    assert forall|i: int| 0 <= i < 8 implies #[trigger] v[i] == gmul(p, u[i], b) by {
        lemma_gmul_xtimes(p, a, b, i as nat);
        lemma_gmul_zero_left(p, b);
    }
    lemma_gmul_of_tree(p, u, v, b);
}

proof fn lemma_gmul_bits(p: u8, b: u8)
    by (bit_vector)
    ensures
        (((picked(b, 0, 1) ^ picked(b, 1, 2)) ^ (picked(b, 2, 4) ^ picked(b, 3, 8))) ^ ((picked(
            b,
            4,
            16,
        ) ^ picked(b, 5, 32)) ^ (picked(b, 6, 64) ^ picked(b, 7, 128)))) == b,
        xtime(p, 1) == 2,
        xtime(p, 2) == 4,
        xtime(p, 4) == 8,
        xtime(p, 8) == 16,
        xtime(p, 16) == 32,
        xtime(p, 32) == 64,
        xtime(p, 64) == 128,
        picked(1, 0, b) == b,
        picked(1, 1, b) == 0,
        picked(1, 2, b) == 0,
        picked(1, 3, b) == 0,
        picked(1, 4, b) == 0,
        picked(1, 5, b) == 0,
        picked(1, 6, b) == 0,
        picked(1, 7, b) == 0,
        picked(2, 0, b) == 0,
        picked(2, 1, b) == b,
        picked(2, 2, b) == 0,
        picked(2, 3, b) == 0,
        picked(2, 4, b) == 0,
        picked(2, 5, b) == 0,
        picked(2, 6, b) == 0,
        picked(2, 7, b) == 0,
        b ^ 0u8 == b,
        0u8 ^ b == b,
        0u8 ^ 0u8 == 0u8,
{
}

/// `1` is neutral, `0` absorbs, and multiplying by `2` is `xtime`.
pub proof fn lemma_gmul_units(p: u8, a: u8)
    ensures
        gmul(p, a, 1) == a,
        gmul(p, 1, a) == a,
        gmul(p, a, 0) == 0,
        gmul(p, 0, a) == 0,
        gmul(p, a, 2) == xtime(p, a),
{
    lemma_gmul_zero_left(p, a);
    assert(gmul(p, a, 0) == 0) by {
        lemma_gmul_distributes(p, 0, 0, a);
        lemma_xor(gmul(p, a, 0), gmul(p, a, 0), 0, 0);
        lemma_xor(0, 0, 0, 0);
    }
    assert(gmul(p, a, 1) == a && gmul(p, 1, a) == a && gmul(p, a, 2) == xtime(p, a)) by {
        reveal(gmul);
        lemma_gmul_bits(p, a);
        let a1 = xtime(p, a);
        let a2 = xtime(p, a1);
        let a3 = xtime(p, a2);
        let a4 = xtime(p, a3);
        let a5 = xtime(p, a4);
        let a6 = xtime(p, a5);
        let a7 = xtime(p, a6);
        lemma_gmul_bits(p, a1);
        lemma_gmul_bits(p, a2);
        lemma_gmul_bits(p, a3);
        lemma_gmul_bits(p, a4);
        lemma_gmul_bits(p, a5);
        lemma_gmul_bits(p, a6);
        lemma_gmul_bits(p, a7);
    }
}

/// The product is commutative.
pub proof fn lemma_gmul_commutes(p: u8, a: u8, b: u8)
    ensures
        gmul(p, a, b) == gmul(p, b, a),
{
    lemma_gmul_swap(p, 1, a, b);
    lemma_gmul_units(p, a);
    lemma_gmul_units(p, b);
}

/// The product is associative.
pub proof fn lemma_gmul_associates(p: u8, a: u8, b: u8, c: u8)
    ensures
        gmul(p, gmul(p, a, b), c) == gmul(p, a, gmul(p, b, c)),
{
    lemma_gmul_commutes(p, a, b);
    lemma_gmul_swap(p, b, a, c);
    lemma_gmul_commutes(p, gmul(p, b, c), a);
}


/// Exponents add.
pub proof fn lemma_pow_add(p: u8, a: u8, m: nat, n: nat)
    ensures
        gpow(p, a, m + n) == gmul(p, gpow(p, a, m), gpow(p, a, n)),
    decreases m,
{
    if m == 0 {
        lemma_gmul_units(p, gpow(p, a, n));
    } else {
        lemma_pow_add(p, a, (m - 1) as nat, n);
        assert((m + n - 1) as nat == (m - 1) as nat + n);
        lemma_gmul_associates(p, a, gpow(p, a, (m - 1) as nat), gpow(p, a, n));
    }
}

proof fn lemma_products_11d()
    by (bit_vector)
    ensures
        product_of_bits(0x1d, 2, 2) == 4,
        product_of_bits(0x1d, 2, 4) == 8,
        product_of_bits(0x1d, 8, 8) == 64,
        product_of_bits(0x1d, 64, 64) == 205,
        product_of_bits(0x1d, 205, 8) == 38,
        product_of_bits(0x1d, 38, 38) == 96,
        product_of_bits(0x1d, 96, 38) == 193,
        product_of_bits(0x1d, 193, 38) == 185,
        product_of_bits(0x1d, 185, 38) == 15,
        product_of_bits(0x1d, 15, 38) == 223,
        product_of_bits(0x1d, 223, 38) == 26,
        product_of_bits(0x1d, 26, 38) == 59,
        product_of_bits(0x1d, 59, 38) == 169,
        product_of_bits(0x1d, 169, 38) == 85,
        product_of_bits(0x1d, 85, 38) == 145,
        product_of_bits(0x1d, 145, 38) == 150,
        product_of_bits(0x1d, 150, 38) == 100,
        product_of_bits(0x1d, 100, 38) == 89,
        product_of_bits(0x1d, 89, 38) == 36,
        product_of_bits(0x1d, 36, 38) == 44,
        product_of_bits(0x1d, 44, 38) == 1,
        product_of_bits(0x1d, 193, 64) == 10,
        product_of_bits(0x1d, 10, 10) == 68,
        product_of_bits(0x1d, 68, 10) == 146,
        product_of_bits(0x1d, 146, 10) == 221,
        product_of_bits(0x1d, 4, 4) == 16,
        product_of_bits(0x1d, 16, 16) == 29,
        product_of_bits(0x1d, 29, 4) == 116,
        product_of_bits(0x1d, 15, 116) == 214,
        product_of_bits(0x1d, 214, 214) == 215,
{
}

/// Powers of `2` at the multiples of `15`, `51` and `85`.
proof fn lemma_powers_11d()
    ensures
        gpow(POLY_11D, 2, 15) == 38,
        gpow(POLY_11D, 2, 30) == 96,
        gpow(POLY_11D, 2, 45) == 193,
        gpow(POLY_11D, 2, 60) == 185,
        gpow(POLY_11D, 2, 75) == 15,
        gpow(POLY_11D, 2, 90) == 223,
        gpow(POLY_11D, 2, 105) == 26,
        gpow(POLY_11D, 2, 120) == 59,
        gpow(POLY_11D, 2, 135) == 169,
        gpow(POLY_11D, 2, 150) == 85,
        gpow(POLY_11D, 2, 165) == 145,
        gpow(POLY_11D, 2, 180) == 150,
        gpow(POLY_11D, 2, 195) == 100,
        gpow(POLY_11D, 2, 210) == 89,
        gpow(POLY_11D, 2, 225) == 36,
        gpow(POLY_11D, 2, 240) == 44,
        gpow(POLY_11D, 2, 255) == 1,
        gpow(POLY_11D, 2, 51) == 10,
        gpow(POLY_11D, 2, 102) == 68,
        gpow(POLY_11D, 2, 153) == 146,
        gpow(POLY_11D, 2, 204) == 221,
        gpow(POLY_11D, 2, 85) == 214,
        gpow(POLY_11D, 2, 170) == 215,
{
    reveal(gmul);
    lemma_products_11d();
    reveal_with_fuel(gpow, 2);
    assert(gpow(POLY_11D, 2, 1) == 2) by {
        lemma_gmul_units(POLY_11D, 2);
    }
    lemma_pow_add(POLY_11D, 2, 1, 1);
    lemma_pow_add(POLY_11D, 2, 1, 2);
    lemma_pow_add(POLY_11D, 2, 3, 3);
    lemma_pow_add(POLY_11D, 2, 6, 6);
    lemma_pow_add(POLY_11D, 2, 12, 3);
    lemma_pow_add(POLY_11D, 2, 15, 15);
    lemma_pow_add(POLY_11D, 2, 30, 15);
    lemma_pow_add(POLY_11D, 2, 45, 15);
    lemma_pow_add(POLY_11D, 2, 60, 15);
    lemma_pow_add(POLY_11D, 2, 75, 15);
    lemma_pow_add(POLY_11D, 2, 90, 15);
    lemma_pow_add(POLY_11D, 2, 105, 15);
    lemma_pow_add(POLY_11D, 2, 120, 15);
    lemma_pow_add(POLY_11D, 2, 135, 15);
    lemma_pow_add(POLY_11D, 2, 150, 15);
    lemma_pow_add(POLY_11D, 2, 165, 15);
    lemma_pow_add(POLY_11D, 2, 180, 15);
    lemma_pow_add(POLY_11D, 2, 195, 15);
    lemma_pow_add(POLY_11D, 2, 210, 15);
    lemma_pow_add(POLY_11D, 2, 225, 15);
    lemma_pow_add(POLY_11D, 2, 240, 15);
    lemma_pow_add(POLY_11D, 2, 45, 6);
    lemma_pow_add(POLY_11D, 2, 51, 51);
    lemma_pow_add(POLY_11D, 2, 102, 51);
    lemma_pow_add(POLY_11D, 2, 153, 51);
    lemma_pow_add(POLY_11D, 2, 2, 2);
    lemma_pow_add(POLY_11D, 2, 4, 4);
    lemma_pow_add(POLY_11D, 2, 8, 2);
    lemma_pow_add(POLY_11D, 2, 75, 10);
    lemma_pow_add(POLY_11D, 2, 85, 85);
}

proof fn lemma_products_187()
    by (bit_vector)
    ensures
        product_of_bits(0x87, 2, 2) == 4,
        product_of_bits(0x87, 2, 4) == 8,
        product_of_bits(0x87, 8, 8) == 64,
        product_of_bits(0x87, 64, 64) == 221,
        product_of_bits(0x87, 221, 8) == 244,
        product_of_bits(0x87, 244, 244) == 165,
        product_of_bits(0x87, 165, 244) == 120,
        product_of_bits(0x87, 120, 244) == 254,
        product_of_bits(0x87, 254, 244) == 241,
        product_of_bits(0x87, 241, 244) == 143,
        product_of_bits(0x87, 143, 244) == 192,
        product_of_bits(0x87, 192, 244) == 225,
        product_of_bits(0x87, 225, 244) == 249,
        product_of_bits(0x87, 249, 244) == 180,
        product_of_bits(0x87, 180, 244) == 250,
        product_of_bits(0x87, 250, 244) == 47,
        product_of_bits(0x87, 47, 244) == 146,
        product_of_bits(0x87, 146, 244) == 167,
        product_of_bits(0x87, 167, 244) == 23,
        product_of_bits(0x87, 23, 244) == 51,
        product_of_bits(0x87, 51, 244) == 1,
        product_of_bits(0x87, 120, 64) == 108,
        product_of_bits(0x87, 108, 108) == 24,
        product_of_bits(0x87, 24, 108) == 178,
        product_of_bits(0x87, 178, 108) == 199,
        product_of_bits(0x87, 4, 4) == 16,
        product_of_bits(0x87, 16, 16) == 135,
        product_of_bits(0x87, 135, 4) == 149,
        product_of_bits(0x87, 241, 149) == 170,
        product_of_bits(0x87, 170, 170) == 171,
{
}

/// Powers of `2` at the multiples of `15`, `51` and `85`.
proof fn lemma_powers_187()
    ensures
        gpow(POLY_187, 2, 15) == 244,
        gpow(POLY_187, 2, 30) == 165,
        gpow(POLY_187, 2, 45) == 120,
        gpow(POLY_187, 2, 60) == 254,
        gpow(POLY_187, 2, 75) == 241,
        gpow(POLY_187, 2, 90) == 143,
        gpow(POLY_187, 2, 105) == 192,
        gpow(POLY_187, 2, 120) == 225,
        gpow(POLY_187, 2, 135) == 249,
        gpow(POLY_187, 2, 150) == 180,
        gpow(POLY_187, 2, 165) == 250,
        gpow(POLY_187, 2, 180) == 47,
        gpow(POLY_187, 2, 195) == 146,
        gpow(POLY_187, 2, 210) == 167,
        gpow(POLY_187, 2, 225) == 23,
        gpow(POLY_187, 2, 240) == 51,
        gpow(POLY_187, 2, 255) == 1,
        gpow(POLY_187, 2, 51) == 108,
        gpow(POLY_187, 2, 102) == 24,
        gpow(POLY_187, 2, 153) == 178,
        gpow(POLY_187, 2, 204) == 199,
        gpow(POLY_187, 2, 85) == 170,
        gpow(POLY_187, 2, 170) == 171,
{
    reveal(gmul);
    lemma_products_187();
    reveal_with_fuel(gpow, 2);
    assert(gpow(POLY_187, 2, 1) == 2) by {
        lemma_gmul_units(POLY_187, 2);
    }
    lemma_pow_add(POLY_187, 2, 1, 1);
    lemma_pow_add(POLY_187, 2, 1, 2);
    lemma_pow_add(POLY_187, 2, 3, 3);
    lemma_pow_add(POLY_187, 2, 6, 6);
    lemma_pow_add(POLY_187, 2, 12, 3);
    lemma_pow_add(POLY_187, 2, 15, 15);
    lemma_pow_add(POLY_187, 2, 30, 15);
    lemma_pow_add(POLY_187, 2, 45, 15);
    lemma_pow_add(POLY_187, 2, 60, 15);
    lemma_pow_add(POLY_187, 2, 75, 15);
    lemma_pow_add(POLY_187, 2, 90, 15);
    lemma_pow_add(POLY_187, 2, 105, 15);
    lemma_pow_add(POLY_187, 2, 120, 15);
    lemma_pow_add(POLY_187, 2, 135, 15);
    lemma_pow_add(POLY_187, 2, 150, 15);
    lemma_pow_add(POLY_187, 2, 165, 15);
    lemma_pow_add(POLY_187, 2, 180, 15);
    lemma_pow_add(POLY_187, 2, 195, 15);
    lemma_pow_add(POLY_187, 2, 210, 15);
    lemma_pow_add(POLY_187, 2, 225, 15);
    lemma_pow_add(POLY_187, 2, 240, 15);
    lemma_pow_add(POLY_187, 2, 45, 6);
    lemma_pow_add(POLY_187, 2, 51, 51);
    lemma_pow_add(POLY_187, 2, 102, 51);
    lemma_pow_add(POLY_187, 2, 153, 51);
    lemma_pow_add(POLY_187, 2, 2, 2);
    lemma_pow_add(POLY_187, 2, 4, 4);
    lemma_pow_add(POLY_187, 2, 8, 2);
    lemma_pow_add(POLY_187, 2, 75, 10);
    lemma_pow_add(POLY_187, 2, 85, 85);
}

/// A power of a power multiplies exponents.
pub proof fn lemma_pow_mul(p: u8, a: u8, m: nat, n: nat)
    ensures
        gpow(p, gpow(p, a, m), n) == gpow(p, a, m * n),
    decreases n,
{
    if n == 0 {
        assert(m * n == 0) by (nonlinear_arith)
            requires
                n == 0,
        ;
    } else {
        let k = (n - 1) as nat;
        lemma_pow_mul(p, a, m, k);
        lemma_pow_add(p, a, m, m * k);
        assert(m * n == m + m * k) by (nonlinear_arith)
            requires
                n == k + 1,
        ;
    }
}

/// Powers of one.
pub proof fn lemma_pow_one(p: u8, n: nat)
    ensures
        gpow(p, 1, n) == 1,
    decreases n,
{
    if n > 0 {
        lemma_pow_one(p, (n - 1) as nat);
        lemma_gmul_units(p, 1);
    }
}

/// `2` has order dividing `255`.
pub proof fn lemma_alpha_period(p: u8, n: nat, q: nat)
    requires
        is_field_poly(p),
    ensures
        gpow(p, 2, 255 * q + n) == gpow(p, 2, n),
{
    if p == POLY_11D {
        lemma_powers_11d();
    } else {
        lemma_powers_187();
    }
    assert(gpow(p, 2, 255) == 1);
    lemma_pow_mul(p, 2, 255, q);
    lemma_pow_one(p, q);
    lemma_pow_add(p, 2, 255 * q, n);
    lemma_gmul_units(p, gpow(p, 2, n));
}

/// `2` has order exactly `255`.
proof fn lemma_alpha_order(p: u8, d: nat)
    requires
        is_field_poly(p),
        0 < d < 255,
    ensures
        gpow(p, 2, d) != 1,
{
    if p == POLY_11D {
        lemma_powers_11d();
    } else {
        lemma_powers_187();
    }
    if gpow(p, 2, d) == 1 {
        if d % 17 != 0 {
            lemma_pow_mul(p, 2, d, 15);
            lemma_pow_one(p, 15);
            assert(d * 15 == 255 * (d / 17) + 15 * (d % 17));
            lemma_alpha_period(p, 15 * (d % 17), d / 17);
            assert(gpow(p, 2, 15 * (d % 17)) == 1);
            assert(1 <= d % 17 <= 16);
            assert(false);
        } else if d % 5 != 0 {
            lemma_pow_mul(p, 2, d, 51);
            lemma_pow_one(p, 51);
            assert(d * 51 == 255 * (d / 5) + 51 * (d % 5));
            lemma_alpha_period(p, 51 * (d % 5), d / 5);
            assert(1 <= d % 5 <= 4);
            assert(false);
        } else {
            assert(d % 3 != 0);
            lemma_pow_mul(p, 2, d, 85);
            lemma_pow_one(p, 85);
            assert(d * 85 == 255 * (d / 3) + 85 * (d % 3));
            lemma_alpha_period(p, 85 * (d % 3), d / 3);
            assert(1 <= d % 3 <= 2);
            assert(false);
        }
    }
}

/// The first `255` powers of `2` are distinct.
pub proof fn lemma_alpha_distinct(p: u8, i: nat, j: nat)
    requires
        is_field_poly(p),
        i < j < 255,
    ensures
        gpow(p, 2, i) != gpow(p, 2, j),
{
    if gpow(p, 2, i) == gpow(p, 2, j) {
        let k = (255 - i) as nat;
        lemma_pow_add(p, 2, i, k);
        lemma_pow_add(p, 2, j, k);
        lemma_alpha_period(p, 0, 1);
        lemma_alpha_period(p, (j - i) as nat, 1);
        assert(i + k == 255 * 1 + 0);
        assert(j + k == 255 * 1 + (j - i));
        lemma_alpha_order(p, (j - i) as nat);
    }
}

/// No power of `2` is zero.
pub proof fn lemma_alpha_nonzero(p: u8, n: nat)
    requires
        is_field_poly(p),
    ensures
        gpow(p, 2, n) != 0,
{
    let r = n % 255;
    lemma_alpha_period(p, r, n / 255);
    let k = (255 - r) as nat;
    lemma_pow_add(p, 2, r, k);
    lemma_alpha_period(p, 0, 1);
    lemma_gmul_units(p, gpow(p, 2, k));
}

/// Every nonzero element is a power of `2`.
pub proof fn lemma_alpha_reaches(p: u8, a: u8)
    requires
        is_field_poly(p),
        a != 0,
    ensures
        exists|i: nat| i < 255 && #[trigger] gpow(p, 2, i) == a,
{
    let s = Seq::new(255, |i: int| gpow(p, 2, i as nat) as int);
    assert(s.no_duplicates()) by {
        assert forall|i: int, j: int| 0 <= i < s.len() && 0 <= j < s.len() && i != j implies s[i]
            != s[j] by {
            if i < j {
                lemma_alpha_distinct(p, i as nat, j as nat);
            } else {
                lemma_alpha_distinct(p, j as nat, i as nat);
            }
        }
    }
    s.unique_seq_to_set();
    let all = vstd::set_lib::set_int_range(1, 256);
    vstd::set_lib::lemma_int_range(1, 256);
    assert(s.to_set().subset_of(all)) by {
        assert forall|x: int| s.to_set().contains(x) implies all.contains(x) by {
            let i = choose|i: int| 0 <= i < s.len() && s[i] == x;
            lemma_alpha_nonzero(p, i as nat);
        }
    }
    vstd::set_lib::lemma_subset_equality(s.to_set(), all);
    assert(all.contains(a as int));
    assert(s.to_set().contains(a as int));
    let i = choose|i: int| 0 <= i < s.len() && s[i] == a as int;
    assert(gpow(p, 2, i as nat) == a);
}

/// The multiplicative inverse of a nonzero element.
pub open spec fn ginv(p: u8, a: u8) -> u8 {
    gpow(p, a, 254)
}

/// A nonzero element times its inverse is `1`.
pub proof fn lemma_inverse(p: u8, a: u8)
    requires
        is_field_poly(p),
        a != 0,
    ensures
        gmul(p, a, ginv(p, a)) == 1,
        ginv(p, a) != 0,
{
    lemma_alpha_reaches(p, a);
    let i = choose|i: nat| i < 255 && #[trigger] gpow(p, 2, i) == a;
    lemma_pow_mul(p, 2, i, 255);
    assert(i * 255 == 255 * i + 0);
    lemma_alpha_period(p, 0, i);
    assert(gpow(p, a, 255) == gmul(p, a, gpow(p, a, 254)));
    lemma_gmul_units(p, a);
}

/// There are no zero divisors.
pub proof fn lemma_no_zero_divisors(p: u8, a: u8, b: u8)
    requires
        is_field_poly(p),
    ensures
        gmul(p, a, b) == 0 <==> a == 0 || b == 0,
{
    lemma_gmul_units(p, a);
    lemma_gmul_units(p, b);
    if a != 0 && gmul(p, a, b) == 0 {
        lemma_inverse(p, a);
        lemma_gmul_commutes(p, a, ginv(p, a));
        lemma_gmul_associates(p, ginv(p, a), a, b);
        lemma_gmul_units(p, ginv(p, a));
    }
}

/// Powers of a nonzero element are nonzero.
pub proof fn lemma_pow_nonzero(p: u8, a: u8, n: nat)
    requires
        is_field_poly(p),
        a != 0,
    ensures
        gpow(p, a, n) != 0,
    decreases n,
{
    if n > 0 {
        lemma_pow_nonzero(p, a, (n - 1) as nat);
        lemma_no_zero_divisors(p, a, gpow(p, a, (n - 1) as nat));
    }
}

/// Logarithm and antilogarithm tables of the field.
pub struct GfTables {
    /// `2^i`, over two periods so that a sum of two logarithms needs no
    /// reduction.
    exp: [u8; 512],
    /// The exponent of each nonzero element; the entry of `0` is unused.
    log: [u8; 256],
    poly: u8,
}

impl GfTables {
    /// The field polynomial the tables are for.
    pub closed spec fn poly(&self) -> u8 {
        self.poly
    }

    /// The tables hold what they say.
    pub closed spec fn wf(&self) -> bool {
        &&& is_field_poly(self.poly)
        &&& forall|i: int|
            0 <= i < 512 ==> #[trigger] self.exp@[i] == gpow(self.poly, 2, i as nat)
        &&& forall|a: int|
            1 <= a < 256 ==> #[trigger] self.log@[a] < 255 && gpow(
                self.poly,
                2,
                self.log@[a] as nat,
            ) == a
    }

    /// Well-formed tables are tables of a field.
    pub proof fn lemma_field(&self)
        requires
            self.wf(),
        ensures
            is_field_poly(self.poly()),
    {
    }

    /// Builds the tables for one of the supported field polynomials.
    pub fn new(poly: u8) -> (r: GfTables)
        requires
            is_field_poly(poly),
        ensures
            r.wf(),
            r.poly() == poly,
    {
        let mut exp: [u8; 512] = [0u8; 512];
        let mut log: [u8; 256] = [0u8; 256];
        let mut x: u8 = 1;
        let mut i: usize = 0;
        while i < 255
            invariant
                i <= 255,
                is_field_poly(poly),
                x == gpow(poly, 2, i as nat),
                forall|k: int| 0 <= k < i ==> #[trigger] exp@[k] == gpow(poly, 2, k as nat),
                forall|k: int|
                    0 <= k < i ==> log@[#[trigger] gpow(poly, 2, k as nat) as int] == k,
            decreases 255 - i,
        {
            exp[i] = x;
            proof {
                assert forall|k: int| 0 <= k < i implies #[trigger] gpow(poly, 2, k as nat)
                    != x by {
                    lemma_alpha_distinct(poly, k as nat, i as nat);
                }
            }
            log[x as usize] = i as u8;
            let hi: bool = (x & 0x80) != 0;
            proof {
                lemma_gmul_commutes(poly, 2, x);
                lemma_gmul_units(poly, x);
            }
            x = x << 1;
            if hi {
                x = x ^ poly;
            }
            i = i + 1;
        }
        while i < 512
            invariant
                255 <= i <= 512,
                is_field_poly(poly),
                forall|k: int| 0 <= k < i ==> #[trigger] exp@[k] == gpow(poly, 2, k as nat),
                forall|k: int|
                    0 <= k < 255 ==> log@[#[trigger] gpow(poly, 2, k as nat) as int] == k,
            decreases 512 - i,
        {
            proof {
                lemma_alpha_period(poly, (i - 255) as nat, 1);
                assert((255 * 1 + (i - 255)) as nat == i as nat);
            }
            exp[i] = exp[i - 255];
            i = i + 1;
        }
        proof {
            assert forall|a: int| 1 <= a < 256 implies #[trigger] log@[a] < 255 && gpow(
                poly,
                2,
                log@[a] as nat,
            ) == a by {
                lemma_alpha_reaches(poly, a as u8);
                let k = choose|k: nat| k < 255 && #[trigger] gpow(poly, 2, k) == a as u8;
                let j = k as int;
                assert(0 <= j < 255);
                assert(log@[gpow(poly, 2, j as nat) as int] == j);
            }
        }
        GfTables { exp, log, poly }
    }

    /// The field product.
    pub fn mul(&self, a: u8, b: u8) -> (r: u8)
        requires
            self.wf(),
        ensures
            r == gmul(self.poly(), a, b),
    {
        proof {
            lemma_no_zero_divisors(self.poly, a, b);
        }
        if a == 0 || b == 0 {
            return 0;
        }
        let la: usize = self.log[a as usize] as usize;
        let lb: usize = self.log[b as usize] as usize;
        proof {
            assert(self.log@[a as int] < 255);
            assert(self.log@[b as int] < 255);
            lemma_pow_add(self.poly, 2, la as nat, lb as nat);
        }
        self.exp[la + lb]
    }

    /// The inverse of a nonzero element.
    pub fn inv(&self, a: u8) -> (r: u8)
        requires
            self.wf(),
            a != 0,
        ensures
            r == ginv(self.poly(), a),
    {
        let la: usize = self.log[a as usize] as usize;
        proof {
            let p = self.poly;
            assert(self.log@[a as int] < 255);
            let r = gpow(p, 2, (255 - la) as nat);
            lemma_pow_add(p, 2, la as nat, (255 - la) as nat);
            lemma_alpha_period(p, 0, 1);
            assert(gmul(p, a, r) == 1);
            lemma_inverse(p, a);
            lemma_cancel(p, a, r, ginv(p, a));
        }
        self.exp[255 - la]
    }

    /// The `n`-th power of `2`.
    pub fn alpha_pow(&self, n: usize) -> (r: u8)
        requires
            self.wf(),
        ensures
            r == gpow(self.poly(), 2, n as nat),
    {
        proof {
            lemma_alpha_period(self.poly, (n % 255) as nat, (n / 255) as nat);
        }
        self.exp[n % 255]
    }
}

/// A nonzero factor cancels.
pub proof fn lemma_cancel(p: u8, a: u8, b: u8, c: u8)
    requires
        is_field_poly(p),
        a != 0,
        gmul(p, a, b) == gmul(p, a, c),
    ensures
        b == c,
{
    lemma_gmul_distributes(p, b, c, a);
    lemma_xor(gmul(p, a, b), gmul(p, a, c), 0, 0);
    lemma_no_zero_divisors(p, a, b ^ c);
    lemma_xor(b, c, 0, 0);
}

} // verus!
