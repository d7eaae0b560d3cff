//! The Berlekamp-Massey search for the shortest recurrence that a syndrome
//! sequence obeys.
//!
//! A sequence of power sums `s[m] = sum of w[i] * x[i]^m` over distinct
//! nonzero points is generated by the polynomial whose roots are the inverses
//! of the points that carry weight. [`lemma_bm_locates`] is the theorem that
//! makes the search a decoder: whenever at most half as many points carry
//! weight as there are sums, the polynomial found vanishes at the inverse of
//! a point exactly when that point carries weight.

use crate::gf256::{
    GfTables, ginv, gmul, gpow, is_field_poly, lemma_gmul_associates, lemma_gmul_commutes,
    lemma_gmul_distributes, lemma_gmul_units, lemma_inverse, lemma_no_zero_divisors, lemma_xor,
};
use crate::gfpoly::{
    co, gsum, lemma_peval_constant, lemma_psum_zero, lemma_root_bound, lemma_sum_ext,
    lemma_sum_scale, lemma_sum_xor, lemma_sum_zero, lemma_vandermonde, peval, psum, root_count,
    weight, quot, lemma_quot, lemma_psum_eliminate,
};
use vstd::prelude::*;

verus! {

/// Coefficient `i` of the product of two polynomials.
pub open spec fn conv(p: u8, c: Seq<u8>, s: Seq<u8>, i: int) -> u8 {
    gsum(|j: int| gmul(p, co(c, j), co(s, i - j)), (i + 1) as nat)
}

/// The state of the search after some of the sequence has been read.
pub struct BmState {
    /// The connection polynomial found so far, lowest coefficient first.
    pub c: Seq<u8>,
    /// The correction that restores the recurrence when it next fails.
    pub q: Seq<u8>,
    /// The length of the recurrence.
    pub l: nat,
}

/// Nothing read yet: the empty recurrence.
pub open spec fn bm_init(len: nat) -> BmState {
    BmState {
        c: Seq::new(len + 2, |j: int| if j == 0 {
            1u8
        } else {
            0u8
        }),
        q: Seq::new(len + 2, |j: int| if j == 1 {
            1u8
        } else {
            0u8
        }),
        l: 0,
    }
}

/// `k * x * c`, truncated to the length of `c`.
pub open spec fn shifted(p: u8, k: u8, c: Seq<u8>) -> Seq<u8> {
    Seq::new(c.len(), |j: int| if j == 0 {
        0u8
    } else {
        gmul(p, k, c[j - 1])
    })
}

/// `c + d * q`.
pub open spec fn amended(p: u8, c: Seq<u8>, d: u8, q: Seq<u8>) -> Seq<u8> {
    Seq::new(c.len(), |j: int| c[j] ^ gmul(p, d, q[j]))
}

/// Reads element `n` of the sequence.
pub open spec fn bm_step(p: u8, s: Seq<u8>, st: BmState, n: nat) -> BmState {
    let d = conv(p, st.c, s, n as int);
    if d == 0 {
        BmState { c: st.c, q: shifted(p, 1, st.q), l: st.l }
    } else if 2 * st.l <= n {
        BmState {
            c: amended(p, st.c, d, st.q),
            q: shifted(p, ginv(p, d), st.c),
            l: (n + 1 - st.l) as nat,
        }
    } else {
        BmState { c: amended(p, st.c, d, st.q), q: shifted(p, 1, st.q), l: st.l }
    }
}

/// The state after the first `n` elements.
pub open spec fn bm(p: u8, s: Seq<u8>, n: nat) -> BmState
    decreases n,
{
    if n == 0 {
        bm_init(s.len())
    } else {
        bm_step(p, s, bm(p, s, (n - 1) as nat), (n - 1) as nat)
    }
}

/// The connection polynomial of the whole sequence.
pub open spec fn locator(p: u8, s: Seq<u8>) -> Seq<u8> {
    bm(p, s, s.len()).c
}

/// The length of the shortest recurrence of the whole sequence.
pub open spec fn locator_len(p: u8, s: Seq<u8>) -> nat {
    bm(p, s, s.len()).l
}

proof fn lemma_sum_split_first(f: spec_fn(int) -> u8, g: spec_fn(int) -> u8, n: nat)
    requires
        forall|j: int| 0 <= j < n ==> #[trigger] g(j) == f(j + 1),
    ensures
        gsum(f, n + 1) == f(0) ^ gsum(g, n),
    decreases n,
{
    reveal_with_fuel(gsum, 2);
    if n == 0 {
        lemma_xor(f(0), 0, 0, 0);
    } else {
        let k = (n - 1) as nat;
        lemma_sum_split_first(f, g, k);
        assert(g(n - 1) == f(n as int));
        lemma_xor(f(0), gsum(g, k), g(n - 1), 0);
    }
}

proof fn lemma_conv_amended(p: u8, c: Seq<u8>, d: u8, q: Seq<u8>, s: Seq<u8>, i: int)
    requires
        c.len() == q.len(),
        i >= 0,
    ensures
        conv(p, amended(p, c, d, q), s, i) == conv(p, c, s, i) ^ gmul(p, d, conv(p, q, s, i)),
{
    let a = amended(p, c, d, q);
    let n = (i + 1) as nat;
    let f = |j: int| gmul(p, co(c, j), co(s, i - j));
    let g = |j: int| gmul(p, co(q, j), co(s, i - j));
    let dg = |j: int| gmul(p, d, gmul(p, co(q, j), co(s, i - j)));
    let h = |j: int| gmul(p, co(a, j), co(s, i - j));
    assert forall|j: int| 0 <= j < n implies #[trigger] h(j) == f(j) ^ dg(j) by {
        lemma_gmul_units(p, d);
        lemma_xor(0, 0, 0, 0);
        assert(co(a, j) == co(c, j) ^ gmul(p, d, co(q, j)));
        lemma_gmul_distributes(p, co(c, j), gmul(p, d, co(q, j)), co(s, i - j));
        lemma_gmul_associates(p, d, co(q, j), co(s, i - j));
    }
    lemma_sum_xor(f, dg, h, n);
    lemma_sum_scale(p, d, g, dg, n);
}

proof fn lemma_conv_shifted(p: u8, k: u8, c: Seq<u8>, s: Seq<u8>, i: int)
    requires
        0 <= i < c.len(),
    ensures
        conv(p, shifted(p, k, c), s, i) == if i == 0 {
            0
        } else {
            gmul(p, k, conv(p, c, s, i - 1))
        },
{
    let a = shifted(p, k, c);
    let f = |j: int| gmul(p, co(a, j), co(s, i - j));
    lemma_gmul_units(p, co(s, i));
    assert(f(0) == 0);
    if i == 0 {
        reveal_with_fuel(gsum, 2);
        lemma_xor(0, 0, 0, 0);
        assert(gsum(f, 1) == 0);
    } else {
        let n = i as nat;
        let g = |j: int| gmul(p, co(c, j), co(s, i - 1 - j));
        let h = |j: int| gmul(p, k, gmul(p, co(c, j), co(s, i - 1 - j)));
        assert forall|j: int| 0 <= j < n implies #[trigger] h(j) == f(j + 1) by {
            assert(co(a, j + 1) == gmul(p, k, co(c, j)));
            lemma_gmul_associates(p, k, co(c, j), co(s, i - 1 - j));
        }
        lemma_sum_split_first(f, h, n);
        lemma_sum_scale(p, k, g, h, n);
        lemma_xor(gsum(h, n), 0, 0, 0);
    }
}

/// What holds of the search after `n` elements.
pub open spec fn bm_inv(p: u8, s: Seq<u8>, st: BmState, n: nat) -> bool {
    &&& n <= s.len()
    &&& st.l <= n
    &&& st.c.len() == s.len() + 2
    &&& st.q.len() == s.len() + 2
    &&& st.c[0] == 1
    &&& st.q[0] == 0
    &&& forall|j: int| st.l < j < st.c.len() ==> #[trigger] st.c[j] == 0
    &&& forall|j: int| n + 1 - st.l < j < st.q.len() ==> #[trigger] st.q[j] == 0
    &&& forall|i: int| st.l <= i < n ==> #[trigger] conv(p, st.c, s, i) == 0
    &&& forall|i: int| n + 1 - st.l <= i < n ==> #[trigger] conv(p, st.q, s, i) == 0
    &&& st.l > 0 ==> conv(p, st.q, s, n as int) == 1
}

proof fn lemma_bm_step(p: u8, s: Seq<u8>, st: BmState, n: nat)
    requires
        is_field_poly(p),
        n < s.len(),
        bm_inv(p, s, st, n),
    ensures
        bm_inv(p, s, bm_step(p, s, st, n), n + 1),
{
    let d = conv(p, st.c, s, n as int);
    let nx = bm_step(p, s, st, n);
    lemma_gmul_units(p, d);
    lemma_gmul_units(p, 1);
    lemma_xor(d, 0, 0, 0);
    lemma_xor(0, 0, 0, 0);
    lemma_xor(1, 0, 0, 0);
    if d == 0 || 2 * st.l > n {
        let q = shifted(p, 1, st.q);
        assert forall|j: int| n + 2 - st.l < j < q.len() implies #[trigger] q[j] == 0 by {
            assert(st.q[j - 1] == 0);
        }
        assert forall|i: int| n + 2 - st.l <= i < n + 1 implies #[trigger] conv(p, q, s, i)
            == 0 by {
            lemma_conv_shifted(p, 1, st.q, s, i);
            assert(conv(p, st.q, s, i - 1) == 0);
        }
        lemma_conv_shifted(p, 1, st.q, s, n as int + 1);
        if st.l > 0 {
            assert(conv(p, st.q, s, n as int) == 1);
            assert(conv(p, q, s, n as int + 1) == 1);
        }
    }
    if d != 0 {
        let c = amended(p, st.c, d, st.q);
        assert(c[0] == 1);
        assert forall|j: int| nx.l < j < c.len() implies #[trigger] c[j] == 0 by {
            assert(st.c[j] == 0);
            assert(st.q[j] == 0);
        }
        assert forall|i: int| nx.l <= i < n + 1 implies #[trigger] conv(p, c, s, i) == 0 by {
            lemma_conv_amended(p, st.c, d, st.q, s, i);
            if i < n {
                assert(conv(p, st.c, s, i) == 0);
                assert(conv(p, st.q, s, i) == 0);
            }
        }
        if 2 * st.l <= n {
            lemma_inverse(p, d);
            lemma_gmul_commutes(p, d, ginv(p, d));
            let q = shifted(p, ginv(p, d), st.c);
            lemma_gmul_units(p, ginv(p, d));
            assert forall|j: int| n + 2 - nx.l < j < q.len() implies #[trigger] q[j] == 0 by {
                assert(st.c[j - 1] == 0);
            }
            assert forall|i: int| n + 2 - nx.l <= i < n + 1 implies #[trigger] conv(p, q, s, i)
                == 0 by {
                lemma_conv_shifted(p, ginv(p, d), st.c, s, i);
                assert(conv(p, st.c, s, i - 1) == 0);
            }
            lemma_conv_shifted(p, ginv(p, d), st.c, s, n as int + 1);
        }
    }
}

/// The search keeps its invariant.
pub proof fn lemma_bm_inv(p: u8, s: Seq<u8>, n: nat)
    requires
        is_field_poly(p),
        n <= s.len(),
    ensures
        bm_inv(p, s, bm(p, s, n), n),
    decreases n,
{
    if n > 0 {
        lemma_bm_inv(p, s, (n - 1) as nat);
        lemma_bm_step(p, s, bm(p, s, (n - 1) as nat), (n - 1) as nat);
    }
}

/// The Horner prefix: the sum of `c[j] * x^(i - j)` over `j <= i`.
pub open spec fn prefix(p: u8, c: Seq<u8>, x: u8, i: nat) -> u8
    decreases i,
{
    if i == 0 {
        co(c, 0)
    } else {
        gmul(p, x, prefix(p, c, x, (i - 1) as nat)) ^ co(c, i as int)
    }
}

proof fn lemma_prefix_sum(p: u8, c: Seq<u8>, x: u8, i: nat)
    ensures
        gsum(|j: int| gmul(p, co(c, j), gpow(p, x, (i - j) as nat)), i + 1) == prefix(p, c, x, i),
    decreases i,
{
    let f = |j: int| gmul(p, co(c, j), gpow(p, x, (i - j) as nat));
    lemma_gmul_units(p, co(c, i as int));
    assert(f(i as int) == co(c, i as int)) by {
        assert(gpow(p, x, 0) == 1);
    }
    if i == 0 {
        reveal_with_fuel(gsum, 2);
        lemma_xor(co(c, 0), 0, 0, 0);
    } else {
        let k = (i - 1) as nat;
        lemma_prefix_sum(p, c, x, k);
        let g = |j: int| gmul(p, co(c, j), gpow(p, x, (k - j) as nat));
        assert forall|j: int| 0 <= j < i implies #[trigger] f(j) == gmul(p, x, g(j)) by {
            let e = (k - j) as nat;
            assert((i - j) as nat == e + 1);
            assert(gpow(p, x, e + 1) == gmul(p, x, gpow(p, x, e)));
            lemma_gmul_associates(p, co(c, j), x, gpow(p, x, e));
            lemma_gmul_commutes(p, co(c, j), x);
            lemma_gmul_associates(p, x, co(c, j), gpow(p, x, e));
        }
        lemma_sum_scale(p, x, g, f, i);
    }
}

/// The power sums of orders `0, .., n - 1`.
pub open spec fn psums(p: u8, w: Seq<u8>, x: Seq<u8>, n: nat) -> Seq<u8> {
    Seq::new(n, |m: int| psum(p, w, x, m as nat))
}

/// The weights multiplied by the Horner prefix at their points.
pub open spec fn weighted(p: u8, w: Seq<u8>, c: Seq<u8>, x: Seq<u8>, i: nat) -> Seq<u8> {
    Seq::new(w.len(), |t: int| gmul(p, w[t], prefix(p, c, x[t], i)))
}

/// A polynomial convolved with power sums weighs each point by the
/// polynomial's prefix there.
pub proof fn lemma_conv_psums(p: u8, c: Seq<u8>, w: Seq<u8>, x: Seq<u8>, n: nat, i: nat)
    requires
        i < n,
        w.len() <= x.len(),
    ensures
        conv(p, c, psums(p, w, x, n), i as int) == psum(p, weighted(p, w, c, x, i), x, 0),
    decreases w.len(),
{
    let s = psums(p, w, x, n);
    let f = |j: int| gmul(p, co(c, j), co(s, i - j));
    if w.len() == 0 {
        assert forall|j: int| 0 <= j < i + 1 implies #[trigger] f(j) == 0 by {
            assert(co(s, i - j) == 0);
            lemma_gmul_units(p, co(c, j));
        }
        lemma_sum_zero(f, i + 1);
    } else {
        let u = w.drop_last();
        let a = w.last();
        let y = x[w.len() - 1];
        let su = psums(p, u, x, n);
        lemma_conv_psums(p, c, u, x, n, i);
        let g = |j: int| gmul(p, co(c, j), co(su, i - j));
        let h0 = |j: int| gmul(p, co(c, j), gpow(p, y, (i - j) as nat));
        let h = |j: int| gmul(p, a, gmul(p, co(c, j), gpow(p, y, (i - j) as nat)));
        assert forall|j: int| 0 <= j < i + 1 implies #[trigger] f(j) == g(j) ^ h(j) by {
            let m = (i - j) as nat;
            let z = gpow(p, y, m);
            assert(co(s, i - j) == psum(p, u, x, m) ^ gmul(p, a, z));
            lemma_gmul_distributes(p, psum(p, u, x, m), gmul(p, a, z), co(c, j));
            lemma_gmul_associates(p, co(c, j), a, z);
            lemma_gmul_commutes(p, co(c, j), a);
            lemma_gmul_associates(p, a, co(c, j), z);
        }
        lemma_sum_xor(g, h, f, i + 1);
        lemma_sum_scale(p, a, h0, h, i + 1);
        lemma_prefix_sum(p, c, y, i);
        let ww = weighted(p, w, c, x, i);
        assert(ww.drop_last() =~= weighted(p, u, c, x, i));
        lemma_gmul_units(p, ww.last());
        assert(gpow(p, y, 0) == 1);
    }
}

/// Past the degree, the prefix only gains factors of `x`.
proof fn lemma_prefix_beyond(p: u8, c: Seq<u8>, x: u8, l: nat, k: nat)
    requires
        forall|j: int| l < j < c.len() ==> #[trigger] c[j] == 0,
    ensures
        prefix(p, c, x, l + k) == gmul(p, gpow(p, x, k), prefix(p, c, x, l)),
    decreases k,
{
    if k == 0 {
        lemma_gmul_units(p, prefix(p, c, x, l));
    } else {
        let m = (k - 1) as nat;
        lemma_prefix_beyond(p, c, x, l, m);
        assert(co(c, (l + k) as int) == 0);
        assert((l + k - 1) as nat == l + m);
        lemma_gmul_associates(p, x, gpow(p, x, m), prefix(p, c, x, l));
        lemma_xor(gmul(p, x, prefix(p, c, x, l + m)), 0, 0, 0);
    }
}

/// Beyond the degree of `c`, its convolution with power sums is a power sum
/// of the weighted points.
pub proof fn lemma_conv_beyond(
    p: u8,
    c: Seq<u8>,
    w: Seq<u8>,
    x: Seq<u8>,
    n: nat,
    l: nat,
    k: nat,
)
    requires
        l + k < n,
        w.len() <= x.len(),
        forall|j: int| l < j < c.len() ==> #[trigger] c[j] == 0,
    ensures
        conv(p, c, psums(p, w, x, n), (l + k) as int) == psum(p, weighted(p, w, c, x, l), x, k),
{
    lemma_conv_psums(p, c, w, x, n, l + k);
    lemma_weighted_order(p, w, c, x, l, k);
}

proof fn lemma_weighted_order(p: u8, w: Seq<u8>, c: Seq<u8>, x: Seq<u8>, l: nat, k: nat)
    requires
        w.len() <= x.len(),
        forall|j: int| l < j < c.len() ==> #[trigger] c[j] == 0,
    ensures
        psum(p, weighted(p, w, c, x, l + k), x, 0) == psum(p, weighted(p, w, c, x, l), x, k),
    decreases w.len(),
{
    if w.len() > 0 {
        let u = w.drop_last();
        let y = x[w.len() - 1];
        let a = w.last();
        lemma_weighted_order(p, u, c, x, l, k);
        let v0 = weighted(p, w, c, x, l + k);
        let vk = weighted(p, w, c, x, l);
        assert(v0.drop_last() =~= weighted(p, u, c, x, l + k));
        assert(vk.drop_last() =~= weighted(p, u, c, x, l));
        let pl = prefix(p, c, y, l);
        let z = gpow(p, y, k);
        lemma_prefix_beyond(p, c, y, l, k);
        assert(gpow(p, y, 0) == 1);
        lemma_gmul_units(p, v0.last());
        lemma_gmul_commutes(p, z, pl);
        lemma_gmul_associates(p, a, pl, z);
    }
}

proof fn lemma_weighted_weight(p: u8, w: Seq<u8>, c: Seq<u8>, x: Seq<u8>, l: nat)
    requires
        w.len() <= x.len(),
    ensures
        weight(weighted(p, w, c, x, l)) <= weight(w),
    decreases w.len(),
{
    if w.len() > 0 {
        let u = w.drop_last();
        lemma_weighted_weight(p, u, c, x, l);
        let v = weighted(p, w, c, x, l);
        assert(v.drop_last() =~= weighted(p, u, c, x, l));
        lemma_gmul_units(p, prefix(p, c, x[w.len() - 1], l));
    }
}

/// Convolution only reads the coefficients it names.
proof fn lemma_conv_longer(p: u8, c: Seq<u8>, s: Seq<u8>, t: Seq<u8>, i: int)
    requires
        i >= 0,
        co(c, 0) == 0,
        forall|m: int| 0 <= m < i ==> co(s, m) == co(t, m),
    ensures
        conv(p, c, s, i) == conv(p, c, t, i),
{
    let f = |j: int| gmul(p, co(c, j), co(s, i - j));
    let g = |j: int| gmul(p, co(c, j), co(t, i - j));
    assert forall|j: int| 0 <= j < i + 1 implies #[trigger] f(j) == g(j) by {
        if j == 0 {
            lemma_gmul_units(p, co(s, i));
            lemma_gmul_units(p, co(t, i));
        } else {
            assert(co(s, i - j) == co(t, i - j));
        }
    }
    lemma_sum_ext(f, g, (i + 1) as nat);
}

/// No weighting lighter than the recurrence is long produces the sequence.
pub proof fn lemma_bm_short(p: u8, w: Seq<u8>, x: Seq<u8>, n: nat)
    requires
        is_field_poly(p),
        w.len() <= x.len(),
        x.no_duplicates(),
    ensures
        locator_len(p, psums(p, w, x, n)) <= weight(w),
{
    let s = psums(p, w, x, n);
    let st = bm(p, s, n);
    lemma_bm_inv(p, s, n);
    if st.l > weight(w) {
        let t = psums(p, w, x, n + 1);
        let lq = (n + 1 - st.l) as nat;
        let v = weighted(p, w, st.q, x, lq);
        assert forall|k: nat| k < st.l - 1 implies #[trigger] psum(p, v, x, k) == 0 by {
            lemma_conv_beyond(p, st.q, w, x, n + 1, lq, k);
            let i = (lq + k) as int;
            lemma_conv_longer(p, st.q, s, t, i);
            assert(conv(p, st.q, s, i) == 0);
        }
        lemma_weighted_weight(p, w, st.q, x, lq);
        lemma_vandermonde(p, v, x, (st.l - 1) as nat);
        let k = (st.l - 1) as nat;
        lemma_psum_zero(p, v, x, k);
        lemma_conv_beyond(p, st.q, w, x, n + 1, lq, k);
        assert((lq + k) as int == n as int);
        lemma_conv_longer(p, st.q, s, t, n as int);
        assert(false);
    }
}

/// Trailing zero coefficients do not matter.
pub proof fn lemma_peval_take(p: u8, c: Seq<u8>, x: u8, n: nat)
    requires
        n <= c.len(),
        forall|i: int| n <= i < c.len() ==> #[trigger] c[i] == 0,
    ensures
        peval(p, c.take(n as int), x) == peval(p, c, x),
    decreases n,
{
    if n == 0 {
        assert forall|i: int| 1 <= i < c.len() implies c[i] == 0 by {}
        lemma_peval_constant(p, c, x);
    } else {
        let d = c.drop_first();
        assert forall|i: int| n - 1 <= i < d.len() implies #[trigger] d[i] == 0 by {
            assert(d[i] == c[i + 1]);
        }
        lemma_peval_take(p, d, x, (n - 1) as nat);
        assert(c.take(n as int).drop_first() =~= d.take(n - 1));
    }
}

/// Appending a coefficient appends a term.
pub proof fn lemma_peval_push(p: u8, c: Seq<u8>, a: u8, x: u8)
    ensures
        peval(p, c.push(a), x) == peval(p, c, x) ^ gmul(p, a, gpow(p, x, c.len())),
    decreases c.len(),
{
    let e = c.push(a);
    if c.len() == 0 {
        assert(e.drop_first() =~= Seq::<u8>::empty());
        assert(peval(p, e.drop_first(), x) == 0);
        lemma_gmul_units(p, x);
        lemma_gmul_units(p, a);
        lemma_xor(a, 0, 0, 0);
    } else {
        let d = c.drop_first();
        lemma_peval_push(p, d, a, x);
        assert(e.drop_first() =~= d.push(a));
        let n = d.len();
        assert(c.len() == n + 1);
        let t = gmul(p, a, gpow(p, x, n));
        lemma_gmul_distributes(p, peval(p, d, x), t, x);
        lemma_gmul_commutes(p, x, t);
        lemma_gmul_associates(p, a, gpow(p, x, n), x);
        lemma_gmul_commutes(p, gpow(p, x, n), x);
        assert(gpow(p, x, n + 1) == gmul(p, x, gpow(p, x, n)));
        lemma_xor(c[0], gmul(p, x, peval(p, d, x)), gmul(p, x, t), 0);
    }
}

/// A prefix at a point is, up to a power, the partial value at its inverse.
pub proof fn lemma_prefix_value(p: u8, c: Seq<u8>, x: u8, z: u8, i: nat)
    requires
        gmul(p, z, x) == 1,
        i < c.len(),
    ensures
        gmul(p, gpow(p, z, i), prefix(p, c, x, i)) == peval(p, c.take(i as int + 1), z),
    decreases i,
{
    if i == 0 {
        lemma_gmul_units(p, prefix(p, c, x, 0));
        let t = c.take(1);
        assert forall|j: int| 1 <= j < t.len() implies t[j] == 0 by {}
        lemma_peval_constant(p, t, z);
    } else {
        let k = (i - 1) as nat;
        lemma_prefix_value(p, c, x, z, k);
        let zi = gpow(p, z, i);
        let zk = gpow(p, z, k);
        let pk = prefix(p, c, x, k);
        lemma_gmul_distributes(p, gmul(p, x, pk), c[i as int], zi);
        assert(gmul(p, zi, gmul(p, x, pk)) == gmul(p, zk, pk)) by {
            assert(zi == gmul(p, z, zk));
            lemma_gmul_commutes(p, z, zk);
            lemma_gmul_associates(p, zk, z, gmul(p, x, pk));
            lemma_gmul_associates(p, z, x, pk);
            lemma_gmul_units(p, pk);
        }
        lemma_peval_push(p, c.take(i as int), c[i as int], z);
        assert(c.take(i as int).push(c[i as int]) =~= c.take(i as int + 1));
        lemma_gmul_commutes(p, zi, c[i as int]);
    }
}

/// If every point with weight is a root, there are at least as many roots as
/// weights, and more if some other point is one.
pub proof fn lemma_roots_cover(p: u8, c: Seq<u8>, w: Seq<u8>, z: Seq<u8>)
    requires
        w.len() <= z.len(),
        forall|t: int| 0 <= t < w.len() && w[t] != 0 ==> #[trigger] peval(p, c, z[t]) == 0,
    ensures
        root_count(p, c, z, w.len()) >= weight(w),
        root_count(p, c, z, w.len()) == weight(w) ==> forall|t: int|
            0 <= t < w.len() ==> (#[trigger] w[t] != 0 <==> peval(p, c, z[t]) == 0),
    decreases w.len(),
{
    if w.len() > 0 {
        let u = w.drop_last();
        let n = w.len() - 1;
        assert forall|t: int| 0 <= t < u.len() && u[t] != 0 implies #[trigger] peval(p, c, z[t])
            == 0 by {
            assert(w[t] != 0);
        }
        lemma_roots_cover(p, c, u, z);
        assert(w[n] != 0 ==> peval(p, c, z[n]) == 0);
        if root_count(p, c, z, w.len()) == weight(w) {
            assert forall|t: int| 0 <= t < w.len() implies (#[trigger] w[t] != 0 <==> peval(
                p,
                c,
                z[t],
            ) == 0) by {
                if t < n {
                    assert(u[t] == w[t]);
                }
            }
        }
    }
}

/// If at most half as many points carry weight as there are power sums, the
/// polynomial found has one root for each of them and no other.
pub proof fn lemma_bm_locates(p: u8, w: Seq<u8>, x: Seq<u8>, z: Seq<u8>, n: nat)
    requires
        is_field_poly(p),
        w.len() == x.len(),
        z.len() == x.len(),
        x.no_duplicates(),
        z.no_duplicates(),
        forall|t: int| 0 <= t < x.len() ==> gmul(p, #[trigger] z[t], x[t]) == 1,
        2 * weight(w) <= n,
    ensures
        locator_len(p, psums(p, w, x, n)) == weight(w),
        root_count(p, locator(p, psums(p, w, x, n)), z, z.len()) == weight(w),
        forall|t: int|
            0 <= t < w.len() ==> (#[trigger] w[t] != 0 <==> peval(
                p,
                locator(p, psums(p, w, x, n)),
                z[t],
            ) == 0),
{
    let s = psums(p, w, x, n);
    let st = bm(p, s, n);
    let c = st.c;
    lemma_bm_inv(p, s, n);
    lemma_bm_short(p, w, x, n);
    let v = weighted(p, w, c, x, st.l);
    let m = (n - st.l) as nat;
    assert forall|k: nat| k < m implies #[trigger] psum(p, v, x, k) == 0 by {
        lemma_conv_beyond(p, c, w, x, n, st.l, k);
        assert(conv(p, c, s, (st.l + k) as int) == 0);
    }
    lemma_weighted_weight(p, w, c, x, st.l);
    lemma_vandermonde(p, v, x, m);
    assert forall|t: int| 0 <= t < w.len() && w[t] != 0 implies #[trigger] peval(p, c, z[t])
        == 0 by {
        assert(v[t] == 0);
        lemma_no_zero_divisors(p, w[t], prefix(p, c, x[t], st.l));
        lemma_prefix_value(p, c, x[t], z[t], st.l);
        lemma_gmul_units(p, gpow(p, z[t], st.l));
        lemma_peval_take(p, c, z[t], st.l + 1);
    }
    lemma_roots_cover(p, c, w, z);
    lemma_locator_roots(p, s, z, z.len());
}

/// The polynomial found has at most as many roots as its recurrence is long.
pub proof fn lemma_locator_roots(p: u8, s: Seq<u8>, z: Seq<u8>, k: nat)
    requires
        is_field_poly(p),
        z.no_duplicates(),
        k <= z.len(),
    ensures
        root_count(p, locator(p, s), z, k) <= locator_len(p, s),
{
    let st = bm(p, s, s.len());
    let c = st.c;
    lemma_bm_inv(p, s, s.len());
    let d = c.take(st.l as int + 1);
    assert(root_count(p, c, z, k) == root_count(p, d, z, k)) by {
        lemma_root_count_take(p, c, z, k, st.l + 1);
    }
    if root_count(p, d, z, k) >= d.len() {
        lemma_root_bound(p, d, z, k);
        assert(d[0] == 0);
    }
}

pub proof fn lemma_root_count_take(p: u8, c: Seq<u8>, z: Seq<u8>, k: nat, n: nat)
    requires
        n <= c.len(),
        forall|i: int| n <= i < c.len() ==> #[trigger] c[i] == 0,
    ensures
        root_count(p, c, z, k) == root_count(p, c.take(n as int), z, k),
    decreases k,
{
    if k > 0 {
        lemma_root_count_take(p, c, z, (k - 1) as nat, n);
        lemma_peval_take(p, c, z[k - 1], n);
    }
}

/// The quotient's coefficients are the values of the tails.
proof fn lemma_quot_tail(p: u8, c: Seq<u8>, r: u8, j: int)
    requires
        0 <= j < c.len() - 1,
    ensures
        quot(p, c, r).len() == c.len() - 1,
        quot(p, c, r)[j] == peval(p, c.skip(j + 1), r),
    decreases c.len(),
{
    let d = c.drop_first();
    lemma_quot(p, c, r, r);
    if j == 0 {
        assert(c.skip(1) =~= d);
    } else {
        lemma_quot_tail(p, d, r, j - 1);
        assert(d.skip(j) =~= c.skip(j + 1));
    }
}

/// Dividing out one root: `c` is `(1 + y x)` times the returned polynomial,
/// where `r` is the root and `y` its inverse.
proof fn lemma_divide(p: u8, c: Seq<u8>, r: u8, y: u8) -> (e: Seq<u8>)
    requires
        is_field_poly(p),
        c.len() > 0,
        peval(p, c, r) == 0,
        gmul(p, r, y) == 1,
    ensures
        e.len() == c.len() - 1,
        forall|j: int| j >= 0 ==> #[trigger] co(c, j) == co(e, j) ^ gmul(p, y, co(e, j - 1)),
        forall|x: u8|
            x != r ==> (#[trigger] peval(p, c, x) == 0 <==> peval(p, e, x) == 0),
{
    let q = quot(p, c, r);
    lemma_quot(p, c, r, r);
    let e = Seq::new(q.len(), |j: int| gmul(p, r, q[j]));
    lemma_gmul_commutes(p, r, y);
    lemma_gmul_units(p, y);
    lemma_gmul_units(p, r);
    assert forall|j: int| j >= 0 implies #[trigger] co(c, j) == co(e, j) ^ gmul(
        p,
        y,
        co(e, j - 1),
    ) by {
        lemma_xor(0, 0, 0, 0);
        if j < c.len() {
            let tail = c.skip(j);
            let next = c.skip(j + 1);
            assert(tail.drop_first() =~= next);
            assert(peval(p, tail, r) == c[j] ^ gmul(p, r, peval(p, next, r)));
            if j < c.len() - 1 {
                lemma_quot_tail(p, c, r, j);
            } else {
                assert(peval(p, next, r) == 0);
            }
            assert(gmul(p, r, peval(p, next, r)) == co(e, j));
            if j == 0 {
                assert(tail =~= c);
                assert(co(e, -1) == 0);
            } else {
                lemma_quot_tail(p, c, r, j - 1);
                lemma_gmul_associates(p, y, r, q[j - 1]);
                lemma_gmul_units(p, q[j - 1]);
                assert(gmul(p, y, co(e, j - 1)) == peval(p, tail, r));
            }
            lemma_xor(c[j], co(e, j), 0, 0);
            lemma_xor(peval(p, tail, r), co(e, j), 0, 0);
        }
    }
    assert forall|x: u8| x != r implies (#[trigger] peval(p, c, x) == 0 <==> peval(p, e, x)
        == 0) by {
        lemma_quot(p, c, r, x);
        lemma_peval_scaled(p, r, q, e, x);
        let t = peval(p, q, x);
        lemma_xor(gmul(p, x ^ r, t), 0, 0, 0);
        lemma_no_zero_divisors(p, x ^ r, t);
        lemma_no_zero_divisors(p, r, t);
        lemma_gmul_units(p, y);
        lemma_xor(x, r, 0, 0);
    }
    e
}

proof fn lemma_peval_scaled(p: u8, k: u8, c: Seq<u8>, d: Seq<u8>, x: u8)
    requires
        c.len() == d.len(),
        forall|j: int| 0 <= j < c.len() ==> #[trigger] d[j] == gmul(p, k, c[j]),
    ensures
        peval(p, d, x) == gmul(p, k, peval(p, c, x)),
    decreases c.len(),
{
    if c.len() == 0 {
        lemma_gmul_units(p, k);
    } else {
        let a = c.drop_first();
        let b = d.drop_first();
        assert forall|j: int| 0 <= j < a.len() implies #[trigger] b[j] == gmul(p, k, a[j]) by {
            assert(d[j + 1] == gmul(p, k, c[j + 1]));
        }
        lemma_peval_scaled(p, k, a, b, x);
        let t = peval(p, a, x);
        lemma_gmul_distributes(p, c[0], gmul(p, x, t), k);
        lemma_gmul_associates(p, k, x, t);
        lemma_gmul_commutes(p, k, x);
        lemma_gmul_associates(p, x, k, t);
    }
}

/// Convolution sees only coefficients.
pub proof fn lemma_conv_same(p: u8, c: Seq<u8>, d: Seq<u8>, s: Seq<u8>, i: int)
    requires
        i >= 0,
        forall|j: int| 0 <= j <= i ==> #[trigger] co(c, j) == co(d, j),
    ensures
        conv(p, c, s, i) == conv(p, d, s, i),
{
    let f = |j: int| gmul(p, co(c, j), co(s, i - j));
    let g = |j: int| gmul(p, co(d, j), co(s, i - j));
    assert forall|j: int| 0 <= j < i + 1 implies #[trigger] f(j) == g(j) by {
        assert(co(c, j) == co(d, j));
    }
    lemma_sum_ext(f, g, (i + 1) as nat);
}

/// The sequence that remains once the geometric part of ratio `y` is removed.
spec fn reduced(p: u8, s: Seq<u8>, y: u8) -> Seq<u8> {
    Seq::new((s.len() - 1) as nat, |m: int| s[m + 1] ^ gmul(p, y, s[m]))
}

/// If `(1 + y x) e` generates the sequence, `e` generates what remains.
proof fn lemma_conv_reduced(p: u8, c: Seq<u8>, e: Seq<u8>, s: Seq<u8>, y: u8, i: int)
    requires
        0 <= i < s.len() - 1,
        forall|j: int| j >= 0 ==> #[trigger] co(c, j) == co(e, j) ^ gmul(p, y, co(e, j - 1)),
        i + 1 >= e.len(),
    ensures
        conv(p, e, reduced(p, s, y), i) == conv(p, c, s, i + 1),
{
    let r = reduced(p, s, y);
    // The convolution of e with the reduced sequence, term by term.
    let f = |j: int| gmul(p, co(e, j), co(s, i + 1 - j));
    let g = |j: int| gmul(p, co(e, j), co(s, i - j));
    let yg = |j: int| gmul(p, y, gmul(p, co(e, j), co(s, i - j)));
    let h = |j: int| gmul(p, co(e, j), co(r, i - j));
    let n = (i + 1) as nat;
    assert forall|j: int| 0 <= j < n implies #[trigger] h(j) == f(j) ^ yg(j) by {
        let m = i - j;
        assert(co(r, m) == co(s, m + 1) ^ gmul(p, y, co(s, m)));
        lemma_gmul_distributes(p, co(s, m + 1), gmul(p, y, co(s, m)), co(e, j));
        lemma_gmul_associates(p, co(e, j), y, co(s, m));
        lemma_gmul_commutes(p, co(e, j), y);
        lemma_gmul_associates(p, y, co(e, j), co(s, m));
    }
    lemma_sum_xor(f, yg, h, n);
    lemma_sum_scale(p, y, g, yg, n);
    // The convolution of c with the sequence.
    let pad = Seq::new((i + 2) as nat, |j: int| co(e, j));
    let full = amended(p, pad, y, shifted(p, 1, pad));
    assert forall|j: int| 0 <= j <= i + 1 implies #[trigger] co(c, j) == co(full, j) by {
        lemma_gmul_units(p, co(e, j - 1));
        lemma_gmul_units(p, y);
    }
    lemma_conv_same(p, c, full, s, i + 1);
    lemma_conv_amended(p, pad, y, shifted(p, 1, pad), s, i + 1);
    lemma_conv_shifted(p, 1, pad, s, i + 1);
    lemma_gmul_units(p, conv(p, pad, s, i));
    assert forall|j: int| 0 <= j <= i + 1 implies #[trigger] co(pad, j) == co(e, j) by {}
    lemma_conv_same(p, pad, e, s, i + 1);
    lemma_conv_same(p, pad, e, s, i);
    assert(gsum(f, (i + 2) as nat) == gsum(f, n) ^ f(i + 1));
    assert(f(i + 1) == 0) by {
        assert(co(e, i + 1) == 0);
        lemma_gmul_units(p, co(s, 0));
    }
    lemma_xor(gsum(f, n), 0, 0, 0);
}

/// A recurrence with as many distinct roots as its length is solved by power
/// sums over the points whose inverses are the roots.
pub proof fn lemma_recurrence_solved(
    p: u8,
    c: Seq<u8>,
    s: Seq<u8>,
    x: Seq<u8>,
    z: Seq<u8>,
    k: nat,
) -> (w: Seq<u8>)
    requires
        is_field_poly(p),
        z.len() == x.len(),
        k <= x.len(),
        x.no_duplicates(),
        z.no_duplicates(),
        forall|t: int| 0 <= t < x.len() ==> gmul(p, #[trigger] z[t], x[t]) == 1,
        c.len() > 0,
        co(c, 0) != 0,
        root_count(p, c, z, k) == c.len() - 1,
        forall|i: int| c.len() - 1 <= i < s.len() ==> #[trigger] conv(p, c, s, i) == 0,
    ensures
        w.len() == k,
        s == psums(p, w, x, s.len()),
        forall|t: int| 0 <= t < k && #[trigger] w[t] != 0 ==> peval(p, c, z[t]) == 0,
    decreases k,
{
    if k == 0 {
        let w = Seq::<u8>::empty();
        assert(c.len() == 1);
        assert forall|m: int| 0 <= m < s.len() implies s[m] == 0 by {
            assert(conv(p, c, s, m) == 0);
            lemma_conv_constant(p, c, s, m);
            lemma_no_zero_divisors(p, c[0], s[m]);
        }
        assert(s =~= psums(p, w, x, s.len()));
        w
    } else {
        let t = k - 1;
        let r = z[t];
        let y = x[t];
        if peval(p, c, r) != 0 {
            let u = lemma_recurrence_solved(p, c, s, x, z, (k - 1) as nat);
            let w = u.push(0);
            assert(w.drop_last() =~= u);
            assert forall|m: int| 0 <= m < s.len() implies s[m] == psum(p, w, x, m as nat) by {
                lemma_gmul_units(p, gpow(p, y, m as nat));
                lemma_xor(psum(p, u, x, m as nat), 0, 0, 0);
                assert(s[m] == psums(p, u, x, s.len())[m]);
            }
            assert(s =~= psums(p, w, x, s.len()));
            w
        } else if s.len() == 0 {
            let w = Seq::new(k, |i: int| 0u8);
            assert(s =~= psums(p, w, x, s.len()));
            w
        } else {
            assert(gmul(p, z[t], x[t]) == 1);
            let e = lemma_divide(p, c, r, y);
            let q = reduced(p, s, y);
            assert(c.len() >= 2);
            assert(co(c, 0) == co(e, 0)) by {
                lemma_gmul_units(p, y);
                lemma_xor(co(e, 0), 0, 0, 0);
                assert(co(e, -1) == 0);
            }
            assert forall|i: int| e.len() - 1 <= i < q.len() implies #[trigger] conv(p, e, q, i)
                == 0 by {
                lemma_conv_reduced(p, c, e, s, y, i);
                assert(conv(p, c, s, i + 1) == 0);
            }
            lemma_root_count_divided(p, c, e, z, r, (k - 1) as nat);
            let v = lemma_recurrence_solved(p, e, q, x, z, (k - 1) as nat);
            let u = Seq::new(v.len(), |i: int| gmul(p, v[i], ginv(p, x[i] ^ y)));
            let vv = Seq::new(u.len(), |i: int| gmul(p, u[i], x[i] ^ y));
            assert(vv =~= v) by {
                assert forall|i: int| 0 <= i < v.len() implies vv[i] == v[i] by {
                    lemma_xor(x[i], y, 0, 0);
                    let d = x[i] ^ y;
                    lemma_inverse(p, d);
                    lemma_gmul_associates(p, v[i], ginv(p, d), d);
                    lemma_gmul_commutes(p, ginv(p, d), d);
                    lemma_gmul_units(p, v[i]);
                }
            }
            let d0 = s[0] ^ psum(p, u, x, 0);
            let w = u.push(d0);
            assert(w.drop_last() =~= u);
            lemma_residue_geometric(p, s, u, v, x, y, k);
            assert forall|m: int| 0 <= m < s.len() implies s[m] == psum(p, w, x, m as nat) by {
                assert(s[m] ^ psum(p, u, x, m as nat) == gmul(p, d0, gpow(p, y, m as nat)));
                lemma_xor(s[m], psum(p, u, x, m as nat), 0, 0);
                lemma_xor(gmul(p, d0, gpow(p, y, m as nat)), psum(p, u, x, m as nat), 0, 0);
            }
            assert(s =~= psums(p, w, x, s.len()));
            assert forall|i: int| 0 <= i < k && #[trigger] w[i] != 0 implies peval(p, c, z[i])
                == 0 by {
                if i < k - 1 {
                    lemma_gmul_units(p, ginv(p, x[i] ^ y));
                    assert(v[i] != 0);
                    assert(peval(p, e, z[i]) == 0);
                    assert(z[i] != r);
                    assert(peval(p, c, z[i]) == 0);
                }
            }
            w
        }
    }
}

proof fn lemma_conv_constant(p: u8, c: Seq<u8>, s: Seq<u8>, m: int)
    requires
        c.len() == 1,
        0 <= m < s.len(),
    ensures
        conv(p, c, s, m) == gmul(p, c[0], s[m]),
{
    let f = |j: int| gmul(p, co(c, j), co(s, m - j));
    let g = |j: int| gmul(p, co(c, j + 1), co(s, m - j - 1));
    assert forall|j: int| 0 <= j < m implies #[trigger] g(j) == f(j + 1) by {}
    lemma_sum_split_first(f, g, m as nat);
    assert forall|j: int| 0 <= j < m implies #[trigger] g(j) == 0 by {
        lemma_gmul_units(p, co(s, m - j - 1));
    }
    lemma_sum_zero(g, m as nat);
    lemma_xor(f(0), 0, 0, 0);
}

proof fn lemma_root_count_divided(p: u8, c: Seq<u8>, e: Seq<u8>, z: Seq<u8>, r: u8, n: nat)
    requires
        n <= z.len(),
        forall|x: u8| x != r ==> (#[trigger] peval(p, c, x) == 0 <==> peval(p, e, x) == 0),
        forall|i: int| 0 <= i < n ==> z[i] != r,
    ensures
        root_count(p, c, z, n) == root_count(p, e, z, n),
    decreases n,
{
    if n > 0 {
        lemma_root_count_divided(p, c, e, z, r, (n - 1) as nat);
        assert(peval(p, c, z[n - 1]) == 0 <==> peval(p, e, z[n - 1]) == 0);
    }
}

proof fn lemma_residue_geometric(
    p: u8,
    s: Seq<u8>,
    u: Seq<u8>,
    v: Seq<u8>,
    x: Seq<u8>,
    y: u8,
    k: nat,
)
    requires
        s.len() > 0,
        u.len() <= x.len(),
        v == Seq::new(u.len(), |i: int| gmul(p, u[i], x[i] ^ y)),
        reduced(p, s, y) == psums(p, v, x, (s.len() - 1) as nat),
    ensures
        forall|m: int|
            0 <= m < s.len() ==> s[m] ^ #[trigger] psum(p, u, x, m as nat) == gmul(
                p,
                s[0] ^ psum(p, u, x, 0),
                gpow(p, y, m as nat),
            ),
{
    assert forall|m: int| 0 <= m < s.len() implies s[m] ^ #[trigger] psum(p, u, x, m as nat)
        == gmul(p, s[0] ^ psum(p, u, x, 0), gpow(p, y, m as nat)) by {
        lemma_residue_at(p, s, u, v, x, y, m as nat);
    }
}

proof fn lemma_residue_at(
    p: u8,
    s: Seq<u8>,
    u: Seq<u8>,
    v: Seq<u8>,
    x: Seq<u8>,
    y: u8,
    m: nat,
)
    requires
        m < s.len(),
        u.len() <= x.len(),
        v == Seq::new(u.len(), |i: int| gmul(p, u[i], x[i] ^ y)),
        reduced(p, s, y) == psums(p, v, x, (s.len() - 1) as nat),
    ensures
        s[m as int] ^ psum(p, u, x, m) == gmul(p, s[0] ^ psum(p, u, x, 0), gpow(p, y, m)),
    decreases m,
{
    let d0 = s[0] ^ psum(p, u, x, 0);
    if m == 0 {
        lemma_gmul_units(p, d0);
    } else {
        let j = (m - 1) as nat;
        lemma_residue_at(p, s, u, v, x, y, j);
        lemma_psum_eliminate(p, u, x, y, j);
        assert(j + 1 == m);
        let a = s[m as int];
        let b = s[j as int];
        let pa = psum(p, u, x, m);
        let pb = psum(p, u, x, j);
        assert(reduced(p, s, y)[j as int] == a ^ gmul(p, y, b));
        assert(psums(p, v, x, (s.len() - 1) as nat)[j as int] == pa ^ gmul(p, y, pb));
        // a + y b == pa + y pb, hence a + pa == y (b + pb)
        lemma_xor(a, gmul(p, y, b), pa, gmul(p, y, pb));
        lemma_xor_cross(a, gmul(p, y, b), pa, gmul(p, y, pb));
        lemma_gmul_distributes(p, b, pb, y);
        let z = gpow(p, y, j);
        lemma_gmul_associates(p, y, d0, z);
        lemma_gmul_commutes(p, y, d0);
        lemma_gmul_associates(p, d0, y, z);
    }
}

proof fn lemma_xor_cross(a: u8, b: u8, c: u8, d: u8)
    by (bit_vector)
    requires
        a ^ b == c ^ d,
    ensures
        a ^ c == b ^ d,
{
}

/// Runs the search over a syndrome sequence and returns the connection
/// polynomial, lowest coefficient first, with the length of its recurrence.
pub fn berlekamp_massey(gf: &GfTables, s: &[u8]) -> (r: (Vec<u8>, usize))
    requires
        gf.wf(),
        s@.len() <= 255,
    ensures
        r.0@ == locator(gf.poly(), s@),
        r.1 == locator_len(gf.poly(), s@),
{
    let len: usize = s.len();
    let ghost p = gf.poly();
    let mut c: Vec<u8> = vec![0u8; len + 2];
    let mut q: Vec<u8> = vec![0u8; len + 2];
    c.set(0, 1);
    q.set(1, 1);
    let mut l: usize = 0;
    let mut n: usize = 0;
    proof {
        gf.lemma_field();
        assert(c@ =~= bm_init(s@.len()).c);
        assert(q@ =~= bm_init(s@.len()).q);
    }
    while n < len
        invariant
            n <= len,
            len == s@.len(),
            len <= 255,
            gf.wf(),
            p == gf.poly(),
            is_field_poly(p),
            c@ == bm(p, s@, n as nat).c,
            q@ == bm(p, s@, n as nat).q,
            l == bm(p, s@, n as nat).l,
        decreases len - n,
    {
        proof {
            lemma_bm_inv(p, s@, n as nat);
        }
        let d: u8 = convolve_at(gf, &c, s, n);
        let ghost st = bm(p, s@, n as nat);
        if d == 0 {
            q = shift_scaled(gf, 1, &q);
        } else {
            let next: Vec<u8> = amend(gf, &c, d, &q);
            if 2 * l <= n {
                let k: u8 = gf.inv(d);
                q = shift_scaled(gf, k, &c);
                l = n + 1 - l;
            } else {
                q = shift_scaled(gf, 1, &q);
            }
            c = next;
        }
        n = n + 1;
    }
    (c, l)
}

/// Coefficient `n` of the product of a polynomial and a sequence.
pub fn convolve_at(gf: &GfTables, c: &Vec<u8>, s: &[u8], n: usize) -> (d: u8)
    requires
        gf.wf(),
        n < s@.len(),
        c@.len() == s@.len() + 2,
    ensures
        d == conv(gf.poly(), c@, s@, n as int),
{
    let len: usize = s.len();
    let mut d: u8 = 0;
    let mut j: usize = 0;
    let ghost f = |i: int| gmul(gf.poly(), co(c@, i), co(s@, n - i));
    while j < n + 1
        invariant
            gf.wf(),
            n < len,
            len == s@.len(),
            c@.len() == s@.len() + 2,
            j <= n + 1,
            f == (|i: int| gmul(gf.poly(), co(c@, i), co(s@, n - i))),
            d == gsum(f, j as nat),
        decreases n + 1 - j,
    {
        let t: u8 = gf.mul(c[j], s[n - j]);
        assert(t == f(j as int));
        d = d ^ t;
        j = j + 1;
    }
    d
}

fn shift_scaled(gf: &GfTables, k: u8, c: &Vec<u8>) -> (r: Vec<u8>)
    requires
        gf.wf(),
    ensures
        r@ == shifted(gf.poly(), k, c@),
{
    let mut r: Vec<u8> = Vec::new();
    let mut j: usize = 0;
    while j < c.len()
        invariant
            gf.wf(),
            j <= c@.len(),
            r@.len() == j,
            forall|i: int| 0 <= i < j ==> #[trigger] r@[i] == shifted(gf.poly(), k, c@)[i],
        decreases c@.len() - j,
    {
        let t: u8 = if j == 0 {
            0
        } else {
            gf.mul(k, c[j - 1])
        };
        r.push(t);
        j = j + 1;
    }
    assert(r@ =~= shifted(gf.poly(), k, c@));
    r
}

fn amend(gf: &GfTables, c: &Vec<u8>, d: u8, q: &Vec<u8>) -> (r: Vec<u8>)
    requires
        gf.wf(),
        c@.len() == q@.len(),
    ensures
        r@ == amended(gf.poly(), c@, d, q@),
{
    let mut r: Vec<u8> = Vec::new();
    let mut j: usize = 0;
    while j < c.len()
        invariant
            gf.wf(),
            c@.len() == q@.len(),
            j <= c@.len(),
            r@.len() == j,
            forall|i: int| 0 <= i < j ==> #[trigger] r@[i] == amended(gf.poly(), c@, d, q@)[i],
        decreases c@.len() - j,
    {
        let t: u8 = c[j] ^ gf.mul(d, q[j]);
        r.push(t);
        j = j + 1;
    }
    assert(r@ =~= amended(gf.poly(), c@, d, q@));
    r
}

/// Evaluates a polynomial given lowest coefficient first.
pub fn polynomial_value(gf: &GfTables, c: &Vec<u8>, y: u8) -> (r: u8)
    requires
        gf.wf(),
    ensures
        r == peval(gf.poly(), c@, y),
{
    let mut r: u8 = 0;
    let mut j: usize = c.len();
    assert(c@.skip(j as int) =~= Seq::<u8>::empty());
    while j > 0
        invariant
            gf.wf(),
            j <= c@.len(),
            r == peval(gf.poly(), c@.skip(j as int), y),
        decreases j,
    {
        j = j - 1;
        assert(c@.skip(j as int).drop_first() =~= c@.skip(j as int + 1));
        r = c[j] ^ gf.mul(y, r);
    }
    assert(c@.skip(0) =~= c@);
    r
}

} // verus!
