//! Words of length `255` as polynomials, their values at field elements, and
//! systematic encoding by a generator polynomial.
//!
//! A word lists its coefficients highest power first, so position `i` of a
//! word of length `255` is the coefficient of `x^(254 - i)`.

use crate::berlekamp::{lemma_peval_push, psums};
use crate::gf256::{
    GfTables, gmul, gpow, is_field_poly, lemma_alpha_distinct, lemma_alpha_nonzero,
    lemma_alpha_period, lemma_gmul_associates, lemma_gmul_commutes, lemma_gmul_distributes,
    lemma_gmul_units, lemma_no_zero_divisors, lemma_pow_add, lemma_pow_mul, lemma_pow_nonzero,
    lemma_xor,
};
use crate::gfpoly::{co, lemma_root_bound, lemma_weight_same, peval, psum, root_count, weight};
use vstd::prelude::*;

verus! {

/// The value at `y` of the polynomial whose coefficients the word lists
/// highest first.
pub open spec fn weval(p: u8, w: Seq<u8>, y: u8) -> u8
    decreases w.len(),
{
    if w.len() == 0 {
        0
    } else {
        gmul(p, weval(p, w.drop_last(), y), y) ^ w.last()
    }
}

/// The positionwise sum of two words.
pub open spec fn wxor(a: Seq<u8>, b: Seq<u8>) -> Seq<u8> {
    Seq::new(a.len(), |i: int| a[i] ^ b[i])
}

/// The number of positions at which two words of one length differ.
pub open spec fn distance(a: Seq<u8>, b: Seq<u8>) -> nat {
    weight(wxor(a, b))
}

/// The field element that belongs to each position of a word, for roots taken
/// among the powers of `2^g`.
pub open spec fn points(p: u8, g: nat) -> Seq<u8> {
    Seq::new(255, |i: int| gpow(p, 2, g * ((254 - i) as nat)))
}

/// The inverses of [`points`].
pub open spec fn inverse_points(p: u8, g: nat) -> Seq<u8> {
    Seq::new(255, |i: int| gpow(p, 2, g * ((i + 1) as nat)))
}

/// The steps for which the points are distinct: `1` for the BCH codes, `11`
/// for the CCSDS code.
pub open spec fn is_step(g: nat) -> bool {
    g == 1 || g == 11
}

pub proof fn lemma_alpha_eq(p: u8, i: nat, j: nat)
    requires
        is_field_poly(p),
    ensures
        gpow(p, 2, i) == gpow(p, 2, j) <==> i % 255 == j % 255,
{
    lemma_alpha_period(p, i % 255, i / 255);
    lemma_alpha_period(p, j % 255, j / 255);
    if i % 255 < j % 255 {
        lemma_alpha_distinct(p, i % 255, j % 255);
    } else if j % 255 < i % 255 {
        lemma_alpha_distinct(p, j % 255, i % 255);
    }
}

/// Distinct multiples of the step below one period apart are distinct modulo `255`.
pub proof fn lemma_step(g: nat, a: int, b: int)
    requires
        is_step(g),
        -255 < a - b < 255,
        a != b,
    ensures
        (g * a) % 255 != (g * b) % 255,
{
    if g == 11 && (11 * a) % 255 == (11 * b) % 255 {
        let d = a - b;
        let k = (11 * a) / 255 - (11 * b) / 255;
        assert(11 * d == 255 * k);
        assert(d == 255 * (116 * k - 5 * d));
    }
}

/// The points are distinct, and so are their inverses.
pub proof fn lemma_points(p: u8, g: nat)
    requires
        is_field_poly(p),
        is_step(g),
    ensures
        points(p, g).len() == 255,
        inverse_points(p, g).len() == 255,
        points(p, g).no_duplicates(),
        inverse_points(p, g).no_duplicates(),
        forall|i: int|
            0 <= i < 255 ==> gmul(p, #[trigger] inverse_points(p, g)[i], points(p, g)[i]) == 1,
        forall|i: int| 0 <= i < 255 ==> #[trigger] points(p, g)[i] != 0,
{
    let x = points(p, g);
    let z = inverse_points(p, g);
    assert forall|i: int, j: int| 0 <= i < x.len() && 0 <= j < x.len() && i != j implies x[i]
        != x[j] by {
        lemma_alpha_eq(p, g * ((254 - i) as nat), g * ((254 - j) as nat));
        lemma_step(g, 254 - i, 254 - j);
    }
    assert forall|i: int, j: int| 0 <= i < z.len() && 0 <= j < z.len() && i != j implies z[i]
        != z[j] by {
        lemma_alpha_eq(p, g * ((i + 1) as nat), g * ((j + 1) as nat));
        lemma_step(g, i + 1, j + 1);
    }
    assert forall|i: int| 0 <= i < 255 implies gmul(p, #[trigger] z[i], x[i]) == 1 by {
        lemma_pow_add(p, 2, g * ((i + 1) as nat), g * ((254 - i) as nat));
        lemma_alpha_period(p, 0, g);
        assert(g * ((i + 1) as nat) + g * ((254 - i) as nat) == 255 * g + 0) by (nonlinear_arith)
            requires
                0 <= i < 255,
        ;
    }
    assert forall|i: int| 0 <= i < 255 implies #[trigger] x[i] != 0 by {
        lemma_alpha_nonzero(p, g * ((254 - i) as nat));
    }
}

pub proof fn lemma_weval_xor(p: u8, a: Seq<u8>, b: Seq<u8>, y: u8)
    requires
        a.len() == b.len(),
    ensures
        weval(p, wxor(a, b), y) == weval(p, a, y) ^ weval(p, b, y),
    decreases a.len(),
{
    if a.len() == 0 {
        lemma_xor(0, 0, 0, 0);
    } else {
        let u = a.drop_last();
        let v = b.drop_last();
        lemma_weval_xor(p, u, v, y);
        assert(wxor(a, b).drop_last() =~= wxor(u, v));
        lemma_gmul_distributes(p, weval(p, u, y), weval(p, v, y), y);
        lemma_xor(gmul(p, weval(p, u, y), y), gmul(p, weval(p, v, y), y), a.last(), b.last());
    }
}

/// The weights with which the positions of a word enter its syndromes.
pub open spec fn syndrome_weights(p: u8, w: Seq<u8>, x: Seq<u8>, fcr: nat) -> Seq<u8> {
    Seq::new(w.len(), |i: int| gmul(p, w[i], gpow(p, x[i], fcr)))
}

/// The values of a word at `n` consecutive powers of `2^g`, from the power
/// `fcr` on.
pub open spec fn syndromes_of(p: u8, g: nat, fcr: nat, w: Seq<u8>, n: nat) -> Seq<u8> {
    Seq::new(n, |m: int| weval(p, w, gpow(p, 2, g * (fcr + m as nat))))
}

proof fn lemma_weval_prefix(p: u8, g: nat, w: Seq<u8>, e: nat, k: nat)
    requires
        w.len() == 255,
        k <= 255,
    ensures
        gmul(p, weval(p, w.take(k as int), gpow(p, 2, g * e)), gpow(p, 2, (g * e) * ((255 - k) as nat)))
            == psum(p, w.take(k as int), points(p, g), e),
    decreases k,
{
    let y = gpow(p, 2, g * e);
    let m = (255 - k) as nat;
    let ym = gpow(p, 2, (g * e) * m);
    let u = w.take(k as int);
    if k == 0 {
        lemma_gmul_units(p, ym);
    } else {
        let j = (k - 1) as nat;
        lemma_weval_prefix(p, g, w, e, j);
        let v = w.take(j as int);
        assert(u.drop_last() =~= v);
        let a = w[j as int];
        let yj = gpow(p, 2, (g * e) * ((255 - j) as nat));
        // y^(m + 1) == y * y^m
        assert(yj == gmul(p, y, ym)) by {
            lemma_pow_add(p, 2, g * e, (g * e) * m);
            assert((g * e) * ((255 - j) as nat) == g * e + (g * e) * m) by (nonlinear_arith)
                requires
                    (255 - j) as nat == m + 1,
            ;
        }
        let t = weval(p, v, y);
        lemma_gmul_distributes(p, gmul(p, t, y), a, ym);
        lemma_gmul_associates(p, t, y, ym);
        // a * y^m is the term of position j.
        assert(ym == gpow(p, points(p, g)[j as int], e)) by {
            lemma_pow_mul(p, 2, g * ((254 - j) as nat), e);
            assert((g * e) * m == (g * ((254 - j) as nat)) * e) by (nonlinear_arith)
                requires
                    m == (254 - j) as nat,
            ;
        }
    }
}

/// The syndromes of a word are the power sums of its positions.
pub proof fn lemma_syndromes_psums(p: u8, g: nat, fcr: nat, w: Seq<u8>, n: nat)
    requires
        w.len() == 255,
    ensures
        syndromes_of(p, g, fcr, w, n) == psums(
            p,
            syndrome_weights(p, w, points(p, g), fcr),
            points(p, g),
            n,
        ),
{
    let x = points(p, g);
    let v = syndrome_weights(p, w, x, fcr);
    assert forall|m: int| 0 <= m < n implies syndromes_of(p, g, fcr, w, n)[m] == psum(
        p,
        v,
        x,
        m as nat,
    ) by {
        let e = fcr + m as nat;
        lemma_weval_prefix(p, g, w, e, 255);
        assert(w.take(255) =~= w);
        assert((g * e) * 0 == 0);
        lemma_gmul_units(p, weval(p, w, gpow(p, 2, g * e)));
        lemma_psum_split(p, w, x, fcr, m as nat);
    }
    assert(syndromes_of(p, g, fcr, w, n) =~= psums(p, v, x, n));
}

pub proof fn lemma_psum_split(p: u8, w: Seq<u8>, x: Seq<u8>, a: nat, b: nat)
    requires
        w.len() <= x.len(),
    ensures
        psum(p, syndrome_weights(p, w, x, a), x, b) == psum(p, w, x, a + b),
    decreases w.len(),
{
    if w.len() > 0 {
        let u = w.drop_last();
        lemma_psum_split(p, u, x, a, b);
        let v = syndrome_weights(p, w, x, a);
        assert(v.drop_last() =~= syndrome_weights(p, u, x, a));
        let y = x[w.len() - 1];
        lemma_pow_add(p, y, a, b);
        lemma_gmul_associates(p, w.last(), gpow(p, y, a), gpow(p, y, b));
    }
}

/// A position weighs in the syndromes exactly when it is nonzero.
pub proof fn lemma_syndrome_weights(p: u8, g: nat, fcr: nat, w: Seq<u8>)
    requires
        is_field_poly(p),
        is_step(g),
        w.len() == 255,
    ensures
        weight(syndrome_weights(p, w, points(p, g), fcr)) == weight(w),
        forall|i: int|
            0 <= i < 255 ==> (#[trigger] syndrome_weights(p, w, points(p, g), fcr)[i] == 0 <==> w[i]
                == 0),
{
    lemma_points(p, g);
    let x = points(p, g);
    let v = syndrome_weights(p, w, x, fcr);
    assert forall|i: int| 0 <= i < 255 implies (#[trigger] v[i] == 0 <==> w[i] == 0) by {
        lemma_pow_nonzero(p, x[i], fcr);
        lemma_no_zero_divisors(p, w[i], gpow(p, x[i], fcr));
    }
    lemma_weight_same(v, w);
}

/// The polynomial `(x + r) * c`, lowest coefficient first.
pub open spec fn times_root(p: u8, c: Seq<u8>, r: u8) -> Seq<u8> {
    Seq::new(c.len() + 1, |j: int| co(c, j - 1) ^ gmul(p, co(c, j), r))
}

/// `c` multiplied by `x + r` for each listed root.
pub open spec fn times_roots(p: u8, c: Seq<u8>, roots: Seq<u8>) -> Seq<u8>
    decreases roots.len(),
{
    if roots.len() == 0 {
        c
    } else {
        times_root(p, times_roots(p, c, roots.drop_last()), roots.last())
    }
}

/// The monic polynomial with exactly the listed roots.
pub open spec fn poly_of_roots(p: u8, roots: Seq<u8>) -> Seq<u8> {
    times_roots(p, seq![1u8], roots)
}

pub proof fn lemma_peval_xor(p: u8, a: Seq<u8>, b: Seq<u8>, y: u8)
    requires
        a.len() == b.len(),
    ensures
        peval(p, wxor(a, b), y) == peval(p, a, y) ^ peval(p, b, y),
    decreases a.len(),
{
    if a.len() == 0 {
        lemma_xor(0, 0, 0, 0);
    } else {
        let u = a.drop_first();
        let v = b.drop_first();
        lemma_peval_xor(p, u, v, y);
        assert(wxor(a, b).drop_first() =~= wxor(u, v));
        lemma_gmul_distributes(p, peval(p, u, y), peval(p, v, y), y);
        lemma_xor(a[0], b[0], gmul(p, y, peval(p, u, y)), gmul(p, y, peval(p, v, y)));
    }
}

/// `k * c`.
pub open spec fn scaled(p: u8, k: u8, c: Seq<u8>) -> Seq<u8> {
    Seq::new(c.len(), |j: int| gmul(p, k, c[j]))
}

pub proof fn lemma_peval_scale(p: u8, k: u8, c: Seq<u8>, y: u8)
    ensures
        peval(p, scaled(p, k, c), y) == gmul(p, k, peval(p, c, y)),
    decreases c.len(),
{
    if c.len() == 0 {
        lemma_gmul_units(p, k);
    } else {
        let d = c.drop_first();
        lemma_peval_scale(p, k, d, y);
        assert(scaled(p, k, c).drop_first() =~= scaled(p, k, d));
        let t = peval(p, d, y);
        lemma_gmul_distributes(p, c[0], gmul(p, y, t), k);
        lemma_gmul_associates(p, k, y, t);
        lemma_gmul_commutes(p, k, y);
        lemma_gmul_associates(p, y, k, t);
    }
}

/// `x * c`.
pub open spec fn times_x(c: Seq<u8>) -> Seq<u8> {
    Seq::new(c.len() + 1, |j: int| if j == 0 {
        0u8
    } else {
        c[j - 1]
    })
}

pub proof fn lemma_peval_times_x(p: u8, c: Seq<u8>, y: u8)
    ensures
        peval(p, times_x(c), y) == gmul(p, y, peval(p, c, y)),
{
    assert(times_x(c).drop_first() =~= c);
    lemma_xor(gmul(p, y, peval(p, c, y)), 0, 0, 0);
}

pub proof fn lemma_times_root(p: u8, c: Seq<u8>, r: u8, y: u8)
    ensures
        times_root(p, c, r).len() == c.len() + 1,
        peval(p, times_root(p, c, r), y) == gmul(p, y ^ r, peval(p, c, y)),
{
    let a = times_x(c);
    let b = scaled(p, r, c.push(0));
    assert(times_root(p, c, r) =~= wxor(a, b)) by {
        assert forall|j: int| 0 <= j < c.len() + 1 implies times_root(p, c, r)[j] == wxor(
            a,
            b,
        )[j] by {
            lemma_gmul_commutes(p, co(c, j), r);
        }
    }
    lemma_peval_xor(p, a, b, y);
    lemma_peval_times_x(p, c, y);
    lemma_peval_scale(p, r, c.push(0), y);
    lemma_peval_push(p, c, 0, y);
    lemma_gmul_units(p, gpow(p, y, c.len()));
    lemma_xor(peval(p, c, y), 0, 0, 0);
    lemma_gmul_distributes(p, y, r, peval(p, c, y));
}

/// Each listed root is a root, the polynomial stays monic, and its degree
/// grows by one per root.
pub proof fn lemma_times_roots(p: u8, c: Seq<u8>, roots: Seq<u8>, y: u8)
    requires
        c.len() > 0,
        c.last() == 1,
    ensures
        times_roots(p, c, roots).len() == c.len() + roots.len(),
        times_roots(p, c, roots).last() == 1,
        roots.contains(y) || peval(p, c, y) == 0 ==> peval(p, times_roots(p, c, roots), y) == 0,
    decreases roots.len(),
{
    if roots.len() > 0 {
        let init = roots.drop_last();
        let r = roots.last();
        lemma_times_roots(p, c, init, y);
        let d = times_roots(p, c, init);
        lemma_times_root(p, d, r, y);
        lemma_gmul_units(p, peval(p, d, y));
        lemma_gmul_units(p, y ^ r);
        lemma_gmul_units(p, r);
        lemma_xor(y, y, 0, 0);
        lemma_xor(1, 0, 0, 0);
        let e = times_root(p, d, r);
        assert(e.last() == co(d, d.len() - 1) ^ gmul(p, co(d, d.len() as int), r));
        assert(e.last() == 1);
        if roots.contains(y) {
            let i = choose|i: int| 0 <= i < roots.len() && roots[i] == y;
            if i < roots.len() - 1 {
                assert(init[i] == y);
            } else {
                assert(y == r);
            }
        }
    }
}

/// The value of a concatenation.
pub proof fn lemma_weval_concat(p: u8, a: Seq<u8>, b: Seq<u8>, y: u8)
    ensures
        weval(p, a + b, y) == gmul(p, weval(p, a, y), gpow(p, y, b.len())) ^ weval(p, b, y),
    decreases b.len(),
{
    if b.len() == 0 {
        assert(a + b =~= a);
        lemma_gmul_units(p, weval(p, a, y));
        lemma_xor(weval(p, a, y), 0, 0, 0);
    } else {
        let v = b.drop_last();
        lemma_weval_concat(p, a, v, y);
        assert((a + b).drop_last() =~= a + v);
        let t = weval(p, a, y);
        let z = gpow(p, y, v.len());
        assert(gpow(p, y, b.len()) == gmul(p, y, z));
        lemma_gmul_distributes(p, gmul(p, t, z), weval(p, v, y), y);
        lemma_gmul_associates(p, t, z, y);
        lemma_gmul_commutes(p, z, y);
        lemma_xor(gmul(p, t, gmul(p, y, z)), gmul(p, weval(p, v, y), y), b.last(), 0);
    }
}

/// A word read backwards lists its coefficients lowest first.
pub proof fn lemma_weval_reverse(p: u8, c: Seq<u8>, y: u8)
    ensures
        weval(p, c.reverse(), y) == peval(p, c, y),
    decreases c.len(),
{
    if c.len() > 0 {
        let d = c.drop_first();
        lemma_weval_reverse(p, d, y);
        assert(c.reverse().drop_last() =~= d.reverse());
        lemma_gmul_commutes(p, y, peval(p, d, y));
        lemma_xor(c[0], gmul(p, y, peval(p, d, y)), 0, 0);
    }
}

/// One step of division by the monic generator `g`: the remainder `r`
/// (lowest coefficient first) after one more message symbol.
pub open spec fn divide_step(p: u8, g: Seq<u8>, r: Seq<u8>, symbol: u8) -> Seq<u8> {
    let feedback = symbol ^ r[r.len() - 1];
    Seq::new(
        r.len(),
        |i: int| (if i == 0 {
            0u8
        } else {
            r[i - 1]
        }) ^ gmul(p, feedback, g[i]),
    )
}

/// The remainder of `x^deg(g) * message(x)` by `g`, lowest coefficient first.
pub open spec fn divide(p: u8, g: Seq<u8>, message: Seq<u8>) -> Seq<u8>
    decreases message.len(),
{
    if message.len() == 0 {
        Seq::new((g.len() - 1) as nat, |i: int| 0u8)
    } else {
        divide_step(p, g, divide(p, g, message.drop_last()), message.last())
    }
}

/// A message followed by its parity symbols.
pub open spec fn systematic(p: u8, g: Seq<u8>, message: Seq<u8>) -> Seq<u8> {
    message + divide(p, g, message).reverse()
}

/// At a root of the generator, the remainder has the value of the shifted
/// message.
proof fn lemma_divide_value(p: u8, g: Seq<u8>, message: Seq<u8>, y: u8)
    requires
        g.len() >= 2,
        g.last() == 1,
        peval(p, g, y) == 0,
    ensures
        divide(p, g, message).len() == g.len() - 1,
        peval(p, divide(p, g, message), y) == gmul(
            p,
            weval(p, message, y),
            gpow(p, y, (g.len() - 1) as nat),
        ),
    decreases message.len(),
{
    let n = (g.len() - 1) as nat;
    let yn = gpow(p, y, n);
    if message.len() == 0 {
        let zero = Seq::new(n, |i: int| 0u8);
        lemma_peval_zero(p, zero, y);
        lemma_gmul_units(p, yn);
    } else {
        let m = message.drop_last();
        let a = message.last();
        lemma_divide_value(p, g, m, y);
        let r = divide(p, g, m);
        let s = divide_step(p, g, r, a);
        let fb = a ^ r[n - 1];
        let tx = times_x(r);
        let full = wxor(tx, scaled(p, fb, g));
        assert(full =~= s.push(a)) by {
            lemma_gmul_units(p, fb);
            lemma_xor(a, r[n - 1], 0, 0);
            lemma_xor(r[n - 1], fb, 0, 0);
        }
        lemma_peval_xor(p, tx, scaled(p, fb, g), y);
        lemma_peval_times_x(p, r, y);
        lemma_peval_scale(p, fb, g, y);
        lemma_gmul_units(p, fb);
        lemma_peval_push(p, s, a, y);
        let t = weval(p, m, y);
        lemma_xor(gmul(p, y, peval(p, r, y)), 0, 0, 0);
        // s(y) + a y^n == y r(y)
        lemma_xor(peval(p, s, y), gmul(p, a, yn), 0, 0);
        lemma_gmul_distributes(p, gmul(p, t, y), a, yn);
        lemma_gmul_associates(p, t, y, yn);
        lemma_gmul_commutes(p, t, gmul(p, y, yn));
        lemma_gmul_associates(p, y, yn, t);
        lemma_gmul_commutes(p, yn, t);
        lemma_gmul_commutes(p, t, yn);
    }
}

pub proof fn lemma_peval_zero(p: u8, c: Seq<u8>, y: u8)
    requires
        forall|i: int| 0 <= i < c.len() ==> c[i] == 0,
    ensures
        peval(p, c, y) == 0,
    decreases c.len(),
{
    if c.len() > 0 {
        let d = c.drop_first();
        assert forall|i: int| 0 <= i < d.len() implies d[i] == 0 by {
            assert(d[i] == c[i + 1]);
        }
        lemma_peval_zero(p, d, y);
        lemma_gmul_units(p, y);
        lemma_xor(0, 0, 0, 0);
    }
}

/// A systematic encoding vanishes at every root of the generator.
pub proof fn lemma_systematic(p: u8, g: Seq<u8>, message: Seq<u8>, y: u8)
    requires
        g.len() >= 2,
        g.last() == 1,
        peval(p, g, y) == 0,
    ensures
        systematic(p, g, message).len() == message.len() + g.len() - 1,
        weval(p, systematic(p, g, message), y) == 0,
{
    let r = divide(p, g, message);
    lemma_divide_value(p, g, message, y);
    lemma_weval_concat(p, message, r.reverse(), y);
    lemma_weval_reverse(p, r, y);
    lemma_xor(peval(p, r, y), 0, 0, 0);
}

/// Two words with the same leading symbols that vanish at as many distinct
/// elements as they have remaining symbols are equal.
pub proof fn lemma_systematic_unique(p: u8, a: Seq<u8>, b: Seq<u8>, roots: Seq<u8>)
    requires
        is_field_poly(p),
        a.len() == b.len(),
        roots.len() <= a.len(),
        roots.no_duplicates(),
        forall|i: int| 0 <= i < a.len() - roots.len() ==> a[i] == b[i],
        forall|i: int| 0 <= i < roots.len() ==> #[trigger] weval(p, a, roots[i]) == 0,
        forall|i: int| 0 <= i < roots.len() ==> #[trigger] weval(p, b, roots[i]) == 0,
    ensures
        a == b,
{
    let n = roots.len();
    let k = a.len() - n;
    let d = wxor(a, b);
    let head = d.take(k);
    let tail = d.skip(k);
    assert(d =~= head + tail);
    let c = tail.reverse();
    assert(c.reverse() =~= tail);
    assert forall|i: int| 0 <= i < n implies #[trigger] peval(p, c, roots[i]) == 0 by {
        let y = roots[i];
        lemma_weval_xor(p, a, b, y);
        assert(weval(p, a, y) == 0 && weval(p, b, y) == 0);
        lemma_xor(0, 0, 0, 0);
        lemma_weval_concat(p, head, tail, y);
        assert forall|j: int| 0 <= j < head.len() implies head[j] == 0 by {
            lemma_xor(a[j], b[j], 0, 0);
        }
        lemma_weval_zero(p, head, y);
        lemma_gmul_units(p, gpow(p, y, tail.len()));
        lemma_xor(weval(p, tail, y), 0, 0, 0);
        lemma_weval_reverse(p, c, y);
    }
    lemma_all_roots(p, c, roots, n);
    lemma_root_bound(p, c, roots, n);
    assert forall|i: int| 0 <= i < a.len() implies a[i] == b[i] by {
        lemma_xor(a[i], b[i], 0, 0);
        if i >= k {
            assert(c[n - 1 - (i - k)] == 0);
            assert(tail[i - k] == d[i]);
        }
    }
    assert(a =~= b);
}

proof fn lemma_all_roots(p: u8, c: Seq<u8>, x: Seq<u8>, n: nat)
    requires
        n <= x.len(),
        forall|i: int| 0 <= i < n ==> #[trigger] peval(p, c, x[i]) == 0,
    ensures
        root_count(p, c, x, n) == n,
    decreases n,
{
    if n > 0 {
        lemma_all_roots(p, c, x, (n - 1) as nat);
        assert(peval(p, c, x[n - 1]) == 0);
    }
}

pub proof fn lemma_weval_zero(p: u8, w: Seq<u8>, y: u8)
    requires
        forall|i: int| 0 <= i < w.len() ==> w[i] == 0,
    ensures
        weval(p, w, y) == 0,
    decreases w.len(),
{
    if w.len() > 0 {
        lemma_weval_zero(p, w.drop_last(), y);
        lemma_gmul_units(p, y);
        lemma_xor(0, 0, 0, 0);
    }
}

/// Multiplies a polynomial by `x + r`.
pub fn multiply_by_root(gf: &GfTables, c: &Vec<u8>, r: u8) -> (d: Vec<u8>)
    requires
        gf.wf(),
        c@.len() < 512,
    ensures
        d@ == times_root(gf.poly(), c@, r),
{
    let n: usize = c.len();
    let mut d: Vec<u8> = Vec::new();
    let mut j: usize = 0;
    while j < n + 1
        invariant
            gf.wf(),
            n == c@.len(),
            n < 512,
            j <= n + 1,
            d@.len() == j,
            forall|i: int| 0 <= i < j ==> #[trigger] d@[i] == times_root(gf.poly(), c@, r)[i],
        decreases n + 1 - j,
    {
        let low: u8 = if j >= 1 {
            c[j - 1]
        } else {
            0
        };
        let high: u8 = if j < n {
            gf.mul(c[j], r)
        } else {
            0
        };
        proof {
            lemma_gmul_units(gf.poly(), r);
        }
        d.push(low ^ high);
        j = j + 1;
    }
    assert(d@ =~= times_root(gf.poly(), c@, r));
    d
}

/// The remainder of the shifted message by the generator, lowest coefficient
/// first, one message symbol at a time.
pub fn remainder(gf: &GfTables, g: &Vec<u8>, message: &[u8]) -> (r: Vec<u8>)
    requires
        gf.wf(),
        2 <= g@.len() <= 256,
    ensures
        r@ == divide(gf.poly(), g@, message@),
        r@.len() == g@.len() - 1,
{
    let n: usize = g.len() - 1;
    let mut r: Vec<u8> = vec![0u8; n];
    let mut k: usize = 0;
    assert(message@.take(0) =~= Seq::<u8>::empty());
    assert(r@ =~= divide(gf.poly(), g@, message@.take(0)));
    while k < message.len()
        invariant
            gf.wf(),
            1 <= n <= 255,
            n == g@.len() - 1,
            k <= message@.len(),
            r@.len() == n,
            r@ == divide(gf.poly(), g@, message@.take(k as int)),
        decreases message@.len() - k,
    {
        let feedback: u8 = message[k] ^ r[n - 1];
        let ghost before = r@;
        let mut next: Vec<u8> = Vec::new();
        let mut i: usize = 0;
        while i < n
            invariant
                gf.wf(),
                1 <= n <= 255,
                n == g@.len() - 1,
                r@.len() == n,
                r@ == before,
                k < message@.len(),
                feedback == message@[k as int] ^ before[n - 1],
                i <= n,
                next@.len() == i,
                forall|j: int|
                    0 <= j < i ==> #[trigger] next@[j] == divide_step(
                        gf.poly(),
                        g@,
                        before,
                        message@[k as int],
                    )[j],
            decreases n - i,
        {
            let low: u8 = if i == 0 {
                0
            } else {
                r[i - 1]
            };
            let t: u8 = low ^ gf.mul(feedback, g[i]);
            next.push(t);
            i = i + 1;
        }
        proof {
            let m = message@.take(k as int + 1);
            assert(m.drop_last() =~= message@.take(k as int));
            assert(next@ =~= divide_step(gf.poly(), g@, before, message@[k as int]));
        }
        r = next;
        k = k + 1;
    }
    assert(message@.take(k as int) =~= message@);
    r
}

/// Evaluates a word by Horner's rule.
pub fn evaluate(gf: &GfTables, w: &[u8], y: u8) -> (r: u8)
    requires
        gf.wf(),
    ensures
        r == weval(gf.poly(), w@, y),
{
    let mut r: u8 = 0;
    let mut i: usize = 0;
    assert(w@.take(0) =~= Seq::<u8>::empty());
    while i < w.len()
        invariant
            gf.wf(),
            i <= w@.len(),
            r == weval(gf.poly(), w@.take(i as int), y),
        decreases w@.len() - i,
    {
        r = gf.mul(r, y) ^ w[i];
        assert(w@.take(i as int + 1).drop_last() =~= w@.take(i as int));
        i = i + 1;
    }
    assert(w@.take(i as int) =~= w@);
    r
}

} // verus!
