//! Sums, polynomials and power sums over `GF(2^8)`.
//!
//! The two facts everything else rests on are [`lemma_vandermonde`] (a
//! weighting of distinct points with no more nonzero weights than vanishing
//! power sums is zero) and [`lemma_root_bound`] (a polynomial with as many
//! roots as coefficients is zero).

use crate::gf256::{
    gmul, gpow, is_field_poly, lemma_gmul_associates, lemma_gmul_commutes, lemma_gmul_distributes,
    lemma_gmul_units, lemma_no_zero_divisors, lemma_xor,
};
use vstd::prelude::*;

verus! {

/// The sum of `f(0), .., f(n - 1)`.
pub open spec fn gsum(f: spec_fn(int) -> u8, n: nat) -> u8
    decreases n,
{
    if n == 0 {
        0
    } else {
        gsum(f, (n - 1) as nat) ^ f(n - 1)
    }
}

pub proof fn lemma_sum_ext(f: spec_fn(int) -> u8, g: spec_fn(int) -> u8, n: nat)
    requires
        forall|i: int| 0 <= i < n ==> #[trigger] f(i) == g(i),
    ensures
        gsum(f, n) == gsum(g, n),
    decreases n,
{
    if n > 0 {
        lemma_sum_ext(f, g, (n - 1) as nat);
        assert(f(n - 1) == g(n - 1));
    }
}

pub proof fn lemma_sum_xor(
    f: spec_fn(int) -> u8,
    g: spec_fn(int) -> u8,
    h: spec_fn(int) -> u8,
    n: nat,
)
    requires
        forall|i: int| 0 <= i < n ==> #[trigger] h(i) == f(i) ^ g(i),
    ensures
        gsum(h, n) == gsum(f, n) ^ gsum(g, n),
    decreases n,
{
    if n > 0 {
        let k = (n - 1) as nat;
        lemma_sum_xor(f, g, h, k);
        assert(h(k as int) == f(k as int) ^ g(k as int));
        lemma_xor(gsum(f, k), gsum(g, k), f(k as int), g(k as int));
    } else {
        lemma_xor(0, 0, 0, 0);
    }
}

pub proof fn lemma_sum_scale(
    p: u8,
    c: u8,
    f: spec_fn(int) -> u8,
    g: spec_fn(int) -> u8,
    n: nat,
)
    requires
        forall|i: int| 0 <= i < n ==> #[trigger] g(i) == gmul(p, c, f(i)),
    ensures
        gsum(g, n) == gmul(p, c, gsum(f, n)),
    decreases n,
{
    if n > 0 {
        let k = (n - 1) as nat;
        lemma_sum_scale(p, c, f, g, k);
        assert(g(k as int) == gmul(p, c, f(k as int)));
        lemma_gmul_distributes(p, gsum(f, k), f(k as int), c);
    } else {
        lemma_gmul_units(p, c);
    }
}

pub proof fn lemma_sum_zero(f: spec_fn(int) -> u8, n: nat)
    requires
        forall|i: int| 0 <= i < n ==> #[trigger] f(i) == 0,
    ensures
        gsum(f, n) == 0,
    decreases n,
{
    if n > 0 {
        lemma_sum_zero(f, (n - 1) as nat);
        assert(f(n - 1) == 0);
        lemma_xor(0, 0, 0, 0);
    }
}

/// Coefficient `i` of a polynomial given by its coefficients, lowest first.
pub open spec fn co(c: Seq<u8>, i: int) -> u8 {
    if 0 <= i < c.len() {
        c[i]
    } else {
        0
    }
}

/// The value at `x` of the polynomial with coefficients `c`, lowest first.
pub open spec fn peval(p: u8, c: Seq<u8>, x: u8) -> u8
    decreases c.len(),
{
    if c.len() == 0 {
        0
    } else {
        c[0] ^ gmul(p, x, peval(p, c.drop_first(), x))
    }
}

/// The number of nonzero entries.
pub open spec fn weight(w: Seq<u8>) -> nat
    decreases w.len(),
{
    if w.len() == 0 {
        0
    } else {
        weight(w.drop_last()) + if w.last() != 0 {
            1nat
        } else {
            0nat
        }
    }
}

/// The power sum of order `k`: the sum of `w[i] * x[i]^k`.
pub open spec fn psum(p: u8, w: Seq<u8>, x: Seq<u8>, k: nat) -> u8
    decreases w.len(),
{
    if w.len() == 0 {
        0
    } else {
        psum(p, w.drop_last(), x, k) ^ gmul(p, w.last(), gpow(p, x[w.len() - 1], k))
    }
}

pub proof fn lemma_psum_zero(p: u8, w: Seq<u8>, x: Seq<u8>, k: nat)
    requires
        forall|i: int| 0 <= i < w.len() ==> w[i] == 0,
    ensures
        psum(p, w, x, k) == 0,
        weight(w) == 0,
    decreases w.len(),
{
    if w.len() > 0 {
        lemma_psum_zero(p, w.drop_last(), x, k);
        lemma_gmul_units(p, gpow(p, x[w.len() - 1], k));
        lemma_xor(0, 0, 0, 0);
    }
}

/// Weights of the same support have the same weight.
pub proof fn lemma_weight_same(v: Seq<u8>, w: Seq<u8>)
    requires
        v.len() == w.len(),
        forall|i: int| 0 <= i < w.len() ==> (#[trigger] v[i] == 0 <==> w[i] == 0),
    ensures
        weight(v) == weight(w),
    decreases w.len(),
{
    if w.len() > 0 {
        assert(v.last() == v[w.len() - 1]);
        assert forall|i: int| 0 <= i < w.len() - 1 implies (#[trigger] v.drop_last()[i] == 0
            <==> w.drop_last()[i] == 0) by {
            assert(v[i] == 0 <==> w[i] == 0);
        }
        lemma_weight_same(v.drop_last(), w.drop_last());
    }
}

/// Raising the order by one and removing a multiple of the power sum weighs
/// each point by its difference from `r`.
pub proof fn lemma_psum_eliminate(p: u8, w: Seq<u8>, x: Seq<u8>, r: u8, k: nat)
    requires
        w.len() <= x.len(),
    ensures
        psum(p, Seq::new(w.len(), |i: int| gmul(p, w[i], x[i] ^ r)), x, k) == psum(p, w, x, k + 1)
            ^ gmul(p, r, psum(p, w, x, k)),
    decreases w.len(),
{
    let v = Seq::new(w.len(), |i: int| gmul(p, w[i], x[i] ^ r));
    if w.len() == 0 {
        lemma_gmul_units(p, r);
        lemma_xor(0, 0, 0, 0);
    } else {
        let n = w.len() - 1;
        let u = w.drop_last();
        lemma_psum_eliminate(p, u, x, r, k);
        assert(v.drop_last() =~= Seq::new(u.len(), |i: int| gmul(p, u[i], x[i] ^ r)));
        let a = w.last();
        let y = x[n];
        let z = gpow(p, y, k);
        // a (y + r) z == a y z + r a z
        assert(gmul(p, gmul(p, a, y ^ r), z) == gmul(p, a, gpow(p, y, k + 1)) ^ gmul(
            p,
            r,
            gmul(p, a, z),
        )) by {
            lemma_gmul_distributes(p, y, r, a);
            lemma_gmul_distributes(p, gmul(p, a, y), gmul(p, a, r), z);
            lemma_gmul_associates(p, a, y, z);
            assert(gpow(p, y, k + 1) == gmul(p, y, z));
            lemma_gmul_commutes(p, a, r);
            lemma_gmul_associates(p, r, a, z);
        }
        lemma_gmul_distributes(p, psum(p, u, x, k), gmul(p, a, z), r);
        lemma_xor(
            psum(p, u, x, k + 1),
            gmul(p, r, psum(p, u, x, k)),
            gmul(p, a, gpow(p, y, k + 1)),
            gmul(p, r, gmul(p, a, z)),
        );
    }
}

/// A weighting of distinct points with at most `m` nonzero weights, all of
/// whose power sums of order below `m` vanish, is zero.
pub proof fn lemma_vandermonde(p: u8, w: Seq<u8>, x: Seq<u8>, m: nat)
    requires
        is_field_poly(p),
        w.len() <= x.len(),
        x.no_duplicates(),
        weight(w) <= m,
        forall|k: nat| k < m ==> #[trigger] psum(p, w, x, k) == 0,
    ensures
        forall|i: int| 0 <= i < w.len() ==> w[i] == 0,
    decreases w.len(),
{
    if w.len() > 0 {
        let n = w.len() - 1;
        let u = w.drop_last();
        let r = x[n];
        if w.last() == 0 {
            assert forall|k: nat| k < m implies #[trigger] psum(p, u, x, k) == 0 by {
                assert(psum(p, w, x, k) == 0);
                lemma_gmul_units(p, gpow(p, r, k));
                lemma_xor(psum(p, u, x, k), 0, 0, 0);
            }
            lemma_vandermonde(p, u, x, m);
            assert forall|i: int| 0 <= i < w.len() implies w[i] == 0 by {
                if i < n {
                    assert(u[i] == 0);
                }
            }
        } else {
            let v = Seq::new(w.len(), |i: int| gmul(p, w[i], x[i] ^ r));
            let vv = v.drop_last();
            assert(v.last() == 0) by {
                lemma_xor(r, r, 0, 0);
                lemma_gmul_units(p, w.last());
            }
            let m1 = (m - 1) as nat;
            assert forall|k: nat| k < m1 implies #[trigger] psum(p, vv, x, k) == 0 by {
                lemma_psum_eliminate(p, w, x, r, k);
                assert(psum(p, w, x, k) == 0);
                assert(psum(p, w, x, k + 1) == 0);
                lemma_gmul_units(p, r);
                lemma_gmul_units(p, gpow(p, x[n], k));
                lemma_xor(0, 0, 0, 0);
                lemma_xor(psum(p, vv, x, k), 0, 0, 0);
            }
            assert forall|i: int| 0 <= i < n implies (#[trigger] vv[i] == 0 <==> u[i] == 0) by {
                lemma_no_zero_divisors(p, w[i], x[i] ^ r);
                lemma_xor(x[i], r, 0, 0);
            }
            lemma_weight_same(vv, u);
            lemma_vandermonde(p, vv, x, m1);
            assert forall|i: int| 0 <= i < n implies u[i] == 0 by {
                assert(vv[i] == 0);
            }
            lemma_psum_zero(p, u, x, 0);
            assert(psum(p, w, x, 0) == 0);
            lemma_gmul_units(p, w.last());
            lemma_xor(w.last(), 0, 0, 0);
            assert(false);
        }
    }
}

/// Power sums are additive in the weights.
pub proof fn lemma_psum_add(p: u8, a: Seq<u8>, b: Seq<u8>, x: Seq<u8>, k: nat)
    requires
        a.len() == b.len(),
    ensures
        psum(p, Seq::new(a.len(), |i: int| a[i] ^ b[i]), x, k) == psum(p, a, x, k) ^ psum(p, b, x, k),
    decreases a.len(),
{
    if a.len() == 0 {
        lemma_xor(0, 0, 0, 0);
    } else {
        let u = a.drop_last();
        let v = b.drop_last();
        lemma_psum_add(p, u, v, x, k);
        assert(Seq::new(a.len(), |i: int| a[i] ^ b[i]).drop_last() =~= Seq::new(u.len(), |i: int| u[i] ^ v[i]));
        let z = gpow(p, x[a.len() - 1], k);
        lemma_gmul_distributes(p, a.last(), b.last(), z);
        lemma_xor(psum(p, u, x, k), psum(p, v, x, k), gmul(p, a.last(), z), gmul(p, b.last(), z));
    }
}

/// The quotient of `c` by `x + r`.
pub open spec fn quot(p: u8, c: Seq<u8>, r: u8) -> Seq<u8>
    decreases c.len(),
{
    if c.len() <= 1 {
        Seq::empty()
    } else {
        seq![peval(p, c.drop_first(), r)] + quot(p, c.drop_first(), r)
    }
}

/// `c(x) == c(r) + (x + r) * quot(c, r)(x)`.
pub proof fn lemma_quot(p: u8, c: Seq<u8>, r: u8, x: u8)
    requires
        c.len() > 0,
    ensures
        quot(p, c, r).len() == c.len() - 1,
        peval(p, c, x) == peval(p, c, r) ^ gmul(p, x ^ r, peval(p, quot(p, c, r), x)),
    decreases c.len(),
{
    let d = c.drop_first();
    if c.len() == 1 {
        assert(peval(p, d, x) == 0 && peval(p, d, r) == 0);
        lemma_gmul_units(p, x);
        lemma_gmul_units(p, r);
        lemma_gmul_units(p, x ^ r);
        lemma_xor(c[0], 0, 0, 0);
    } else {
        lemma_quot(p, d, r, x);
        let q = quot(p, d, r);
        let qq = quot(p, c, r);
        assert(qq.drop_first() =~= q);
        let dr = peval(p, d, r);
        let dx = peval(p, d, x);
        let t = peval(p, q, x);
        // c(x) = c0 + x dx, dx = dr + (x + r) t, qq(x) = dr + x t.
        assert(peval(p, qq, x) == dr ^ gmul(p, x, t));
        assert(gmul(p, x, dx) == gmul(p, x, dr) ^ gmul(p, x, gmul(p, x ^ r, t))) by {
            lemma_gmul_distributes(p, dr, gmul(p, x ^ r, t), x);
        }
        assert(gmul(p, x ^ r, peval(p, qq, x)) == (gmul(p, x, dr) ^ gmul(p, r, dr)) ^ gmul(
            p,
            x,
            gmul(p, x ^ r, t),
        )) by {
            lemma_gmul_distributes(p, dr, gmul(p, x, t), x ^ r);
            lemma_gmul_distributes(p, x, r, dr);
            lemma_gmul_associates(p, x ^ r, x, t);
            lemma_gmul_commutes(p, x ^ r, x);
            lemma_gmul_associates(p, x, x ^ r, t);
        }
        lemma_xor_regroup(c[0], gmul(p, x, dr), gmul(p, r, dr), gmul(p, x, gmul(p, x ^ r, t)));
        assert(peval(p, c, x) == c[0] ^ gmul(p, x, dx));
        assert(peval(p, c, r) == c[0] ^ gmul(p, r, dr));
    }
}

proof fn lemma_xor_regroup(a: u8, b: u8, c: u8, d: u8)
    by (bit_vector)
    ensures
        a ^ (b ^ d) == (a ^ c) ^ ((b ^ c) ^ d),
{
}

proof fn lemma_quot_zero(p: u8, c: Seq<u8>, r: u8)
    requires
        forall|i: int| 0 <= i < quot(p, c, r).len() ==> quot(p, c, r)[i] == 0,
    ensures
        forall|i: int| 1 <= i < c.len() ==> c[i] == 0,
    decreases c.len(),
{
    if c.len() > 1 {
        let d = c.drop_first();
        let q = quot(p, d, r);
        let qq = quot(p, c, r);
        assert forall|i: int| 0 <= i < q.len() implies q[i] == 0 by {
            assert(qq[i + 1] == q[i]);
        }
        lemma_quot_zero(p, d, r);
        assert(qq[0] == peval(p, d, r));
        lemma_peval_constant(p, d, r);
        assert forall|i: int| 1 <= i < c.len() implies c[i] == 0 by {
            assert(c[i] == d[i - 1]);
        }
    }
}

/// A polynomial whose higher coefficients vanish is its constant term.
pub proof fn lemma_peval_constant(p: u8, c: Seq<u8>, x: u8)
    requires
        forall|i: int| 1 <= i < c.len() ==> c[i] == 0,
    ensures
        peval(p, c, x) == co(c, 0),
    decreases c.len(),
{
    if c.len() > 0 {
        let d = c.drop_first();
        assert forall|i: int| 0 <= i < d.len() implies d[i] == 0 by {
            assert(d[i] == c[i + 1]);
        }
        lemma_peval_constant(p, d, x);
        lemma_gmul_units(p, x);
        lemma_xor(c[0], 0, 0, 0);
    }
}

/// The number of indices below `n` at whose point the polynomial vanishes.
pub open spec fn root_count(p: u8, c: Seq<u8>, x: Seq<u8>, n: nat) -> nat
    decreases n,
{
    if n == 0 {
        0
    } else {
        root_count(p, c, x, (n - 1) as nat) + if peval(p, c, x[n - 1]) == 0 {
            1nat
        } else {
            0nat
        }
    }
}

proof fn lemma_root_count_same(p: u8, c: Seq<u8>, d: Seq<u8>, x: Seq<u8>, n: nat)
    requires
        forall|i: int| #![trigger x[i]]
            0 <= i < n ==> (peval(p, c, x[i]) == 0 <==> peval(p, d, x[i]) == 0),
    ensures
        root_count(p, c, x, n) == root_count(p, d, x, n),
    decreases n,
{
    if n > 0 {
        lemma_root_count_same(p, c, d, x, (n - 1) as nat);
        assert(peval(p, c, x[n - 1]) == 0 <==> peval(p, d, x[n - 1]) == 0);
    }
}

/// A polynomial that vanishes at as many distinct points as it has
/// coefficients is zero.
pub proof fn lemma_root_bound(p: u8, c: Seq<u8>, x: Seq<u8>, n: nat)
    requires
        is_field_poly(p),
        n <= x.len(),
        x.no_duplicates(),
        root_count(p, c, x, n) >= c.len(),
    ensures
        forall|i: int| 0 <= i < c.len() ==> c[i] == 0,
    decreases n,
{
    if c.len() > 0 {
        let m = (n - 1) as nat;
        let r = x[n - 1];
        if peval(p, c, r) != 0 {
            lemma_root_bound(p, c, x, m);
        } else {
            let q = quot(p, c, r);
            assert forall|i: int| #![trigger x[i]] 0 <= i < m implies (peval(p, c, x[i]) == 0
                <==> peval(p, q, x[i]) == 0) by {
                lemma_quot(p, c, r, x[i]);
                let t = peval(p, q, x[i]);
                lemma_xor(gmul(p, x[i] ^ r, t), 0, 0, 0);
                lemma_no_zero_divisors(p, x[i] ^ r, t);
                lemma_xor(x[i], r, 0, 0);
            }
            lemma_root_count_same(p, c, q, x, m);
            lemma_quot(p, c, r, r);
            lemma_root_bound(p, q, x, m);
            lemma_quot_zero(p, c, r);
            lemma_peval_constant(p, c, r);
        }
    }
}

} // verus!
