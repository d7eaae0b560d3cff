//! Error values from a located error pattern.
//!
//! Once the locator `c` of a power-sum sequence is known, the product of the
//! locator and the sequence (the evaluator) gives the weight of each located
//! point: [`lemma_evaluator_value`] is the identity behind Forney's formula.

use crate::berlekamp::{
    bm, conv, lemma_bm_inv, lemma_bm_locates, lemma_conv_psums, lemma_peval_push, lemma_peval_take,
    lemma_prefix_value, lemma_root_count_take, locator, prefix, psums, weighted,
};
use crate::cyclic::{lemma_peval_zero, wxor};
use crate::gf256::{
    GfTables, gmul, gpow, is_field_poly, lemma_gmul_associates, lemma_gmul_commutes,
    lemma_gmul_distributes, lemma_gmul_units, lemma_no_zero_divisors, lemma_pow_nonzero, lemma_xor,
};
use crate::gfpoly::{
    lemma_psum_add, lemma_quot, lemma_root_bound, peval, psum, quot, root_count, weight,
};
use vstd::prelude::*;

verus! {

/// The value at `x` of the formal derivative of `c`: the derivative of
/// `c0 + x d` is `d + x d'`.
pub open spec fn derivative(p: u8, c: Seq<u8>, x: u8) -> u8
    decreases c.len(),
{
    if c.len() == 0 {
        0
    } else {
        peval(p, c.drop_first(), x) ^ gmul(p, x, derivative(p, c.drop_first(), x))
    }
}

/// Only coefficients of odd powers contribute to the derivative.
proof fn lemma_derivative_push(p: u8, c: Seq<u8>, a: u8, x: u8)
    ensures
        gmul(p, x, derivative(p, c.push(a), x)) == gmul(p, x, derivative(p, c, x)) ^ if c.len() % 2
            == 1 {
            gmul(p, a, gpow(p, x, c.len()))
        } else {
            0
        },
    decreases c.len(),
{
    let e = c.push(a);
    if c.len() == 0 {
        assert(e.drop_first() =~= Seq::<u8>::empty());
        assert(peval(p, e.drop_first(), x) == 0);
        assert(derivative(p, e.drop_first(), x) == 0);
        lemma_gmul_units(p, x);
        lemma_xor(0, 0, 0, 0);
    } else {
        let d = c.drop_first();
        lemma_derivative_push(p, d, a, x);
        lemma_peval_push(p, d, a, x);
        assert(e.drop_first() =~= d.push(a));
        let n = d.len();
        let term = gmul(p, a, gpow(p, x, n));
        let t = if n % 2 == 1 {
            term
        } else {
            0
        };
        let v = peval(p, d, x);
        let xd = gmul(p, x, derivative(p, d, x));
        // c' = v + xd, e' = (v + term) + (xd + t)
        lemma_xor(v, term, xd, t);
        assert(derivative(p, e, x) == derivative(p, c, x) ^ (term ^ t));
        lemma_gmul_distributes(p, derivative(p, c, x), term ^ t, x);
        lemma_xor(term, term, 0, 0);
        lemma_xor(term, 0, 0, 0);
        assert(gpow(p, x, c.len()) == gmul(p, x, gpow(p, x, n)));
        lemma_gmul_commutes(p, x, term);
        lemma_gmul_associates(p, a, gpow(p, x, n), x);
        lemma_gmul_commutes(p, gpow(p, x, n), x);
        lemma_gmul_units(p, x);
    }
}

/// At `r`, the derivative is the value of the quotient by `x + r`.
proof fn lemma_derivative_quot(p: u8, c: Seq<u8>, r: u8)
    ensures
        derivative(p, c, r) == peval(p, quot(p, c, r), r),
    decreases c.len(),
{
    lemma_gmul_units(p, r);
    lemma_xor(0, 0, 0, 0);
    if c.len() == 1 {
        let d = c.drop_first();
        assert(peval(p, d, r) == 0);
        assert(derivative(p, d, r) == 0);
        assert(peval(p, Seq::<u8>::empty(), r) == 0);
    } else if c.len() > 1 {
        let d = c.drop_first();
        lemma_derivative_quot(p, d, r);
        let q = quot(p, c, r);
        assert(q.drop_first() =~= quot(p, d, r));
    }
}

/// The sum over `i < n` of `z^i` times the Horner prefix of length `i`.
spec fn kernel(p: u8, c: Seq<u8>, z: u8, x: u8, n: nat) -> u8
    decreases n,
{
    if n == 0 {
        0
    } else {
        kernel(p, c, z, x, (n - 1) as nat) ^ gmul(
            p,
            gpow(p, z, (n - 1) as nat),
            prefix(p, c, x, (n - 1) as nat),
        )
    }
}

/// `(1 + z x) * kernel == c_{<=n}(z) + z^n * prefix_n(x)`.
proof fn lemma_kernel(p: u8, c: Seq<u8>, z: u8, x: u8, n: nat)
    requires
        n < c.len(),
    ensures
        kernel(p, c, z, x, n) ^ gmul(p, gmul(p, z, x), kernel(p, c, z, x, n)) == peval(
            p,
            c.take(n as int + 1),
            z,
        ) ^ gmul(p, gpow(p, z, n), prefix(p, c, x, n)),
    decreases n,
{
    let zx = gmul(p, z, x);
    if n == 0 {
        let t = c.take(1);
        crate::gfpoly::lemma_peval_constant(p, t, z);
        lemma_gmul_units(p, zx);
        lemma_gmul_units(p, prefix(p, c, x, 0));
        lemma_xor(c[0], c[0], 0, 0);
        lemma_xor(0, 0, 0, 0);
    } else {
        let m = (n - 1) as nat;
        lemma_kernel(p, c, z, x, m);
        let g = kernel(p, c, z, x, m);
        let zm = gpow(p, z, m);
        let zn = gpow(p, z, n);
        let pm = prefix(p, c, x, m);
        let a = c[n as int];
        let u = gmul(p, zm, pm);
        lemma_gmul_distributes(p, g, u, zx);
        // z x z^m p_m == z^n (x p_m)
        assert(gmul(p, zx, u) == gmul(p, zn, gmul(p, x, pm))) by {
            lemma_gmul_associates(p, z, x, u);
            lemma_gmul_associates(p, x, zm, pm);
            lemma_gmul_commutes(p, x, zm);
            lemma_gmul_associates(p, zm, x, pm);
            lemma_gmul_associates(p, z, zm, gmul(p, x, pm));
        }
        lemma_gmul_distributes(p, gmul(p, x, pm), a, zn);
        lemma_peval_push(p, c.take(n as int), a, z);
        assert(c.take(n as int).push(a) =~= c.take(n as int + 1));
        lemma_gmul_commutes(p, zn, a);
        let cm = peval(p, c.take(n as int), z);
        let y = gmul(p, zn, gmul(p, x, pm));
        let az = gmul(p, a, zn);
        lemma_kernel_xor(g, u, gmul(p, zx, g), y, cm, az);
    }
}

proof fn lemma_kernel_xor(g: u8, u: u8, h: u8, y: u8, c: u8, a: u8)
    by (bit_vector)
    requires
        g ^ h == c ^ u,
    ensures
        (g ^ u) ^ (h ^ y) == (c ^ a) ^ (y ^ a),
{
}

/// At the inverse of the point, the kernel is a partial sum that the
/// derivative gives.
proof fn lemma_kernel_diagonal(p: u8, c: Seq<u8>, z: u8, x: u8, n: nat)
    requires
        gmul(p, z, x) == 1,
        n < c.len(),
    ensures
        kernel(p, c, z, x, n) == (if n % 2 == 1 {
            peval(p, c.take(n as int + 1), z)
        } else {
            0
        }) ^ gmul(p, z, derivative(p, c.take(n as int + 1), z)),
    decreases n,
{
    if n == 0 {
        let t = c.take(1);
        let d = t.drop_first();
        assert(peval(p, d, z) == 0);
        assert(derivative(p, d, z) == 0);
        lemma_gmul_units(p, z);
        lemma_xor(0, 0, 0, 0);
    } else {
        let m = (n - 1) as nat;
        lemma_kernel_diagonal(p, c, z, x, m);
        lemma_prefix_value(p, c, x, z, m);
        let t = c.take(n as int);
        let a = c[n as int];
        assert(t.push(a) =~= c.take(n as int + 1));
        lemma_peval_push(p, t, a, z);
        lemma_derivative_push(p, t, a, z);
        let v = peval(p, t, z);
        let d = gmul(p, z, derivative(p, t, z));
        let az = gmul(p, a, gpow(p, z, n));
        lemma_diagonal_xor(v, d, az);
    }
}

proof fn lemma_diagonal_xor(v: u8, d: u8, a: u8)
    by (bit_vector)
    ensures
        (v ^ d) ^ v == 0u8 ^ (d ^ 0u8),
        (0u8 ^ d) ^ v == (v ^ a) ^ (d ^ a),
{
}

/// The product of locator and sequence, up to the length of the sequence.
pub open spec fn evaluator(p: u8, c: Seq<u8>, s: Seq<u8>) -> Seq<u8> {
    Seq::new(s.len(), |i: int| conv(p, c, s, i))
}

spec fn kernel_weights(p: u8, w: Seq<u8>, c: Seq<u8>, z: u8, x: Seq<u8>, n: nat) -> Seq<u8> {
    Seq::new(w.len(), |q: int| gmul(p, w[q], kernel(p, c, z, x[q], n)))
}

proof fn lemma_psum_scale(p: u8, w: Seq<u8>, v: Seq<u8>, x: Seq<u8>, k: u8)
    requires
        w.len() == v.len(),
        forall|i: int| 0 <= i < w.len() ==> #[trigger] v[i] == gmul(p, w[i], k),
    ensures
        psum(p, v, x, 0) == gmul(p, psum(p, w, x, 0), k),
    decreases w.len(),
{
    if w.len() == 0 {
        lemma_gmul_units(p, k);
    } else {
        let a = w.drop_last();
        let b = v.drop_last();
        assert forall|i: int| 0 <= i < a.len() implies #[trigger] b[i] == gmul(p, a[i], k) by {
            assert(v[i] == gmul(p, w[i], k));
        }
        lemma_psum_scale(p, a, b, x, k);
        lemma_gmul_units(p, w.last());
        lemma_gmul_units(p, v.last());
        lemma_gmul_distributes(p, psum(p, a, x, 0), w.last(), k);
        assert(v[w.len() - 1] == gmul(p, w[w.len() - 1], k));
    }
}

proof fn lemma_evaluator_prefix(
    p: u8,
    c: Seq<u8>,
    w: Seq<u8>,
    x: Seq<u8>,
    z: u8,
    len: nat,
    n: nat,
)
    requires
        w.len() <= x.len(),
        n <= len,
    ensures
        peval(p, evaluator(p, c, psums(p, w, x, len)).take(n as int), z) == psum(
            p,
            kernel_weights(p, w, c, z, x, n),
            x,
            0,
        ),
    decreases n,
{
    let om = evaluator(p, c, psums(p, w, x, len));
    let kw = kernel_weights(p, w, c, z, x, n);
    if n == 0 {
        assert(om.take(0) =~= Seq::<u8>::empty());
        assert forall|i: int| 0 <= i < kw.len() implies kw[i] == 0 by {
            lemma_gmul_units(p, w[i]);
        }
        crate::gfpoly::lemma_psum_zero(p, kw, x, 0);
    } else {
        let m = (n - 1) as nat;
        lemma_evaluator_prefix(p, c, w, x, z, len, m);
        assert(om.take(m as int).push(om[m as int]) =~= om.take(n as int));
        lemma_peval_push(p, om.take(m as int), om[m as int], z);
        lemma_conv_psums(p, c, w, x, len, m);
        let k = gpow(p, z, m);
        let a = weighted(p, w, c, x, m);
        let b = Seq::new(a.len(), |i: int| gmul(p, a[i], k));
        lemma_psum_scale(p, a, b, x, k);
        let prev = kernel_weights(p, w, c, z, x, m);
        assert(kw =~= wxor(prev, b)) by {
            assert forall|q: int| 0 <= q < w.len() implies kw[q] == prev[q] ^ b[q] by {
                let pm = prefix(p, c, x[q], m);
                lemma_gmul_distributes(p, kernel(p, c, z, x[q], m), gmul(p, k, pm), w[q]);
                lemma_gmul_associates(p, w[q], pm, k);
                lemma_gmul_commutes(p, pm, k);
            }
        }
        lemma_psum_add(p, prev, b, x, 0);
    }
}

proof fn lemma_psum_single(p: u8, v: Seq<u8>, x: Seq<u8>, k: int)
    requires
        0 <= k < v.len(),
        forall|i: int| 0 <= i < v.len() && i != k ==> v[i] == 0,
    ensures
        psum(p, v, x, 0) == v[k],
    decreases v.len(),
{
    let u = v.drop_last();
    let n = v.len() - 1;
    lemma_gmul_units(p, v.last());
    if k == n {
        crate::gfpoly::lemma_psum_zero(p, u, x, 0);
        lemma_xor(v[k], 0, 0, 0);
    } else {
        lemma_psum_single(p, u, x, k);
        assert(v[n] == 0);
        lemma_xor(v[k], 0, 0, 0);
    }
}

/// The evaluator at the inverse of a located point is the point's weight
/// times the inverse times the locator's derivative there.
pub proof fn lemma_evaluator_value(
    p: u8,
    w: Seq<u8>,
    x: Seq<u8>,
    z: Seq<u8>,
    n: nat,
    k: int,
)
    requires
        is_field_poly(p),
        w.len() == x.len(),
        z.len() == x.len(),
        x.no_duplicates(),
        z.no_duplicates(),
        forall|t: int| 0 <= t < x.len() ==> gmul(p, #[trigger] z[t], x[t]) == 1,
        2 * weight(w) <= n,
        0 <= k < w.len(),
        w[k] != 0,
    ensures
        ({
            let s = psums(p, w, x, n);
            let c = locator(p, s);
            peval(p, evaluator(p, c, s), z[k]) == gmul(
                p,
                w[k],
                gmul(p, z[k], derivative(p, c, z[k])),
            )
        }),
{
    let s = psums(p, w, x, n);
    let st = bm(p, s, n);
    let c = st.c;
    let l = st.l;
    let om = evaluator(p, c, s);
    lemma_bm_inv(p, s, n);
    lemma_bm_locates(p, w, x, z, n);
    let y = z[k];
    // The evaluator vanishes from degree l on.
    assert forall|i: int| l <= i < om.len() implies #[trigger] om[i] == 0 by {
        assert(conv(p, c, s, i) == 0);
    }
    lemma_peval_take(p, om, y, l);
    lemma_evaluator_prefix(p, c, w, x, y, n, l);
    let kw = kernel_weights(p, w, c, y, x, l);
    let ct = c.take(l as int + 1);
    lemma_peval_take(p, c, y, l + 1);
    assert(w[k] != 0 <==> peval(p, c, z[k]) == 0);
    assert(peval(p, ct, y) == 0);
    assert forall|q: int| 0 <= q < kw.len() && q != k implies kw[q] == 0 by {
        if w[q] == 0 {
            lemma_gmul_units(p, kernel(p, c, y, x[q], l));
        } else {
            let g = kernel(p, c, y, x[q], l);
            lemma_kernel(p, c, y, x[q], l);
            // The prefix at a located point vanishes.
            lemma_prefix_value(p, c, x[q], z[q], l);
            lemma_peval_take(p, c, z[q], l + 1);
            assert(w[q] != 0 <==> peval(p, c, z[q]) == 0);
            assert(gmul(p, z[q], x[q]) == 1);
            if z[q] == 0 {
                lemma_gmul_units(p, x[q]);
            }
            lemma_pow_nonzero(p, z[q], l);
            lemma_no_zero_divisors(p, gpow(p, z[q], l), prefix(p, c, x[q], l));
            lemma_gmul_units(p, gpow(p, y, l));
            lemma_xor(0, 0, 0, 0);
            // (1 + y x) g == 0 with y x != 1
            let yx = gmul(p, y, x[q]);
            lemma_gmul_distributes(p, 1, yx, g);
            lemma_gmul_units(p, g);
            lemma_no_zero_divisors(p, 1 ^ yx, g);
            lemma_xor(1, yx, 0, 0);
            if yx == 1 {
                assert(gmul(p, z[k], x[k]) == 1);
                if y == 0 {
                    lemma_gmul_units(p, x[k]);
                }
                crate::gf256::lemma_cancel(p, y, x[q], x[k]);
            }
            lemma_gmul_units(p, w[q]);
        }
    }
    lemma_psum_single(p, kw, x, k);
    assert(gmul(p, z[k], x[k]) == 1);
    lemma_kernel_diagonal(p, c, y, x[k], l);
    lemma_derivative_take(p, c, y, l + 1);
    let dv = gmul(p, y, derivative(p, ct, y));
    lemma_xor(dv, 0, 0, 0);
}

/// Trailing zero coefficients do not matter to the derivative.
pub proof fn lemma_derivative_take(p: u8, c: Seq<u8>, x: u8, n: nat)
    requires
        n <= c.len(),
        forall|i: int| n <= i < c.len() ==> #[trigger] c[i] == 0,
    ensures
        derivative(p, c.take(n as int), x) == derivative(p, c, x),
    decreases c.len(),
{
    if c.len() > 0 {
        let d = c.drop_first();
        if n == 0 {
            assert forall|i: int| 0 <= i < d.len() implies #[trigger] d[i] == 0 by {
                assert(d[i] == c[i + 1]);
            }
            lemma_derivative_take(p, d, x, 0);
            assert(d.take(0) =~= c.take(0));
            lemma_peval_zero(p, d, x);
            lemma_gmul_units(p, x);
            lemma_xor(0, 0, 0, 0);
        } else {
            let m = (n - 1) as nat;
            assert forall|i: int| m <= i < d.len() implies #[trigger] d[i] == 0 by {
                assert(d[i] == c[i + 1]);
            }
            lemma_derivative_take(p, d, x, m);
            lemma_peval_take(p, d, x, m);
            assert(c.take(n as int).drop_first() =~= d.take(m as int));
        }
    }
}

/// The index of the highest nonzero coefficient, `0` if there is none.
pub open spec fn degree(c: Seq<u8>) -> nat
    decreases c.len(),
{
    if c.len() <= 1 {
        0
    } else if c.last() != 0 {
        (c.len() - 1) as nat
    } else {
        degree(c.drop_last())
    }
}

pub proof fn lemma_degree(c: Seq<u8>)
    requires
        c.len() > 0,
    ensures
        degree(c) < c.len(),
        forall|i: int| degree(c) < i < c.len() ==> #[trigger] c[i] == 0,
        degree(c) > 0 ==> c[degree(c) as int] != 0,
    decreases c.len(),
{
    if c.len() > 1 && c.last() == 0 {
        let d = c.drop_last();
        lemma_degree(d);
        assert forall|i: int| degree(c) < i < c.len() implies #[trigger] c[i] == 0 by {
            if i < c.len() - 1 {
                assert(d[i] == c[i]);
            }
        }
        if degree(c) > 0 {
            assert(d[degree(c) as int] == c[degree(c) as int]);
        }
    }
}

/// A polynomial with as many distinct roots as its degree has none twice.
pub proof fn lemma_separable(p: u8, c: Seq<u8>, z: Seq<u8>, k: int)
    requires
        is_field_poly(p),
        z.no_duplicates(),
        0 <= k < z.len(),
        c.len() > 0,
        c[0] != 0,
        root_count(p, c, z, z.len()) == degree(c),
        peval(p, c, z[k]) == 0,
    ensures
        derivative(p, c, z[k]) != 0,
{
    let n = degree(c);
    let r = z[k];
    lemma_degree(c);
    let d = c.take(n as int + 1);
    lemma_derivative_take(p, c, r, n + 1);
    lemma_root_count_take(p, c, z, z.len(), n + 1);
    lemma_peval_take(p, c, r, n + 1);
    lemma_derivative_quot(p, d, r);
    let q = quot(p, d, r);
    lemma_quot(p, d, r, r);
    if peval(p, q, r) == 0 {
        assert forall|i: int| #![trigger z[i]] 0 <= i < z.len() && peval(p, d, z[i]) == 0 implies peval(
            p,
            q,
            z[i],
        ) == 0 by {
            if i != k {
                lemma_quot(p, d, r, z[i]);
                let t = peval(p, q, z[i]);
                lemma_xor(gmul(p, z[i] ^ r, t), 0, 0, 0);
                lemma_no_zero_divisors(p, z[i] ^ r, t);
                lemma_xor(z[i], r, 0, 0);
            }
        }
        lemma_root_count_monotone(p, d, q, z, z.len());
        lemma_root_bound(p, q, z, z.len());
        lemma_quot_value_zero(p, q, r);
        assert forall|y: u8| peval(p, d, y) == 0 by {
            lemma_quot(p, d, r, y);
            lemma_peval_zero(p, q, y);
            lemma_gmul_units(p, y ^ r);
            lemma_xor(0, 0, 0, 0);
        }
        // A nonzero constant term at zero.
        lemma_gmul_units(p, peval(p, d.drop_first(), 0));
        lemma_xor(d[0], 0, 0, 0);
        assert(peval(p, d, 0) == d[0]);
    }
}

proof fn lemma_quot_value_zero(p: u8, q: Seq<u8>, r: u8)
    requires
        forall|i: int| 0 <= i < q.len() ==> q[i] == 0,
    ensures
        peval(p, q, r) == 0,
{
    lemma_peval_zero(p, q, r);
}

proof fn lemma_root_count_monotone(p: u8, c: Seq<u8>, d: Seq<u8>, z: Seq<u8>, n: nat)
    requires
        n <= z.len(),
        forall|i: int| #![trigger z[i]]
            0 <= i < z.len() && peval(p, c, z[i]) == 0 ==> peval(p, d, z[i]) == 0,
    ensures
        root_count(p, c, z, n) <= root_count(p, d, z, n),
    decreases n,
{
    if n > 0 {
        lemma_root_count_monotone(p, c, d, z, (n - 1) as nat);
        let y = z[n - 1];
        assert(peval(p, c, y) == 0 ==> peval(p, d, y) == 0);
    }
}

/// Evaluates the formal derivative of a polynomial given lowest coefficient
/// first.
pub fn derivative_value(gf: &GfTables, c: &Vec<u8>, y: u8) -> (r: u8)
    requires
        gf.wf(),
    ensures
        r == derivative(gf.poly(), c@, y),
{
    let mut v: u8 = 0;
    let mut d: u8 = 0;
    let mut j: usize = c.len();
    assert(c@.skip(j as int) =~= Seq::<u8>::empty());
    while j > 0
        invariant
            gf.wf(),
            j <= c@.len(),
            v == peval(gf.poly(), c@.skip(j as int), y),
            d == derivative(gf.poly(), c@.skip(j as int), y),
        decreases j,
    {
        j = j - 1;
        assert(c@.skip(j as int).drop_first() =~= c@.skip(j as int + 1));
        d = v ^ gf.mul(y, d);
        v = c[j] ^ gf.mul(y, v);
    }
    assert(c@.skip(0) =~= c@);
    d
}

} // verus!
