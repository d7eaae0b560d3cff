//! The Reed-Solomon (255,223) code of CCSDS 131.0-B-3 with interleaving.
//!
//! The field is `GF(2^8)` with polynomial `x^8 + x^7 + x^2 + x + 1`. With
//! `b = 2^11`, a codeword is a word of `255` bytes, highest power first, that
//! vanishes at `b^112, .., b^143`. Up to `16` byte errors per codeword are
//! corrected. At interleaving depth `d`, byte `j` of codeword `i` stands at
//! position `j * d + i`.

use crate::berlekamp::{
    berlekamp_massey, bm, conv, convolve_at, lemma_bm_inv, lemma_bm_locates, lemma_conv_same,
    lemma_recurrence_solved, lemma_root_count_take, lemma_roots_cover, locator, locator_len,
    polynomial_value,
};
use crate::cyclic::{
    distance, evaluate, inverse_points, lemma_alpha_eq, lemma_points, lemma_syndrome_weights,
    lemma_syndromes_psums, lemma_systematic, lemma_systematic_unique, lemma_times_roots,
    lemma_weval_xor, multiply_by_root, points, poly_of_roots, remainder, syndrome_weights,
    syndromes_of, systematic, weval, wxor,
};
use crate::error::FecError;
use crate::forney::{
    degree, derivative, derivative_value, evaluator, lemma_degree, lemma_evaluator_value,
    lemma_separable,
};
use crate::gf256::{
    GfTables, POLY_187, ginv, gmul, gpow, lemma_gmul_associates, lemma_gmul_commutes,
    lemma_gmul_units, lemma_inverse, lemma_pow_mul, lemma_xor,
};
use crate::slices::{copy_into, to_vector};
use crate::gfpoly::{lemma_root_bound, peval, root_count};
use vstd::prelude::*;

verus! {

/// Bytes per codeword.
pub const N: usize = 255;

/// Parity bytes per codeword.
pub const NROOTS: usize = 32;

/// Data bytes per codeword.
pub const K: usize = 223;

/// Exponent, as a power of `2^PRIM`, of the first root.
pub const FCR: usize = 112;

/// The roots are powers of `2^PRIM`.
pub const PRIM: usize = 11;

/// Root `i` of the generator.
pub open spec fn rs_root(i: nat) -> u8 {
    gpow(POLY_187, 2, 11 * (112 + i))
}

/// The `32` roots of the generator.
pub open spec fn rs_roots() -> Seq<u8> {
    Seq::new(32, |i: int| rs_root(i as nat))
}

/// The generator polynomial, lowest coefficient first.
pub open spec fn rs_generator() -> Seq<u8> {
    poly_of_roots(POLY_187, rs_roots())
}

/// The code: words of `255` bytes that vanish at the `32` roots.
pub open spec fn rs_codeword(w: Seq<u8>) -> bool {
    &&& w.len() == 255
    &&& forall|i: nat| i < 32 ==> weval(POLY_187, w, #[trigger] rs_root(i)) == 0
}

/// The `32` syndromes of a word.
pub open spec fn rs_syndromes(w: Seq<u8>) -> Seq<u8> {
    syndromes_of(POLY_187, 11, 112, w, 32)
}

/// The locator polynomial of a word's syndromes.
pub open spec fn rs_locator(w: Seq<u8>) -> Seq<u8> {
    locator(POLY_187, rs_syndromes(w))
}

/// The number of positions whose locator is a root.
pub open spec fn rs_root_count(w: Seq<u8>) -> nat {
    root_count(POLY_187, rs_locator(w), inverse_points(POLY_187, 11), 255)
}

/// The error value at position `i` by Forney's formula.
pub open spec fn rs_error_value(w: Seq<u8>, i: int) -> u8 {
    let p = POLY_187;
    let z = inverse_points(p, 11)[i];
    let c = rs_locator(w);
    gmul(
        p,
        gmul(p, peval(p, evaluator(p, c, rs_syndromes(w)), z), gpow(p, z, 111)),
        ginv(p, derivative(p, c, z)),
    )
}

/// The word with the error value removed at each located position.
pub open spec fn rs_corrected(w: Seq<u8>) -> Seq<u8> {
    Seq::new(
        w.len(),
        |i: int| if peval(POLY_187, rs_locator(w), inverse_points(POLY_187, 11)[i]) == 0 {
            w[i] ^ rs_error_value(w, i)
        } else {
            w[i]
        },
    )
}

/// Whether decoding one codeword succeeds: the locator has as many roots as
/// its degree.
pub open spec fn rs_decodable(w: Seq<u8>) -> bool {
    rs_codeword(w) || rs_root_count(w) == degree(rs_locator(w))
}

/// The word that a successful decoding gives.
pub open spec fn rs_fixed(w: Seq<u8>) -> Seq<u8> {
    if rs_codeword(w) {
        w
    } else {
        rs_corrected(w)
    }
}

/// The number of corrected bytes that a successful decoding reports.
pub open spec fn rs_fixes(w: Seq<u8>) -> nat {
    if rs_codeword(w) {
        0
    } else {
        rs_root_count(w)
    }
}

proof fn lemma_rs_roots()
    ensures
        rs_roots().no_duplicates(),
        rs_generator().len() == 33,
        rs_generator().last() == 1,
        forall|i: nat| i < 32 ==> peval(POLY_187, rs_generator(), #[trigger] rs_root(i)) == 0,
{
    let p = POLY_187;
    let r = rs_roots();
    assert forall|i: int, j: int| 0 <= i < r.len() && 0 <= j < r.len() && i != j implies r[i]
        != r[j] by {
        lemma_alpha_eq(p, 11 * (112 + i as nat), 11 * (112 + j as nat));
        crate::cyclic::lemma_step(11, 112 + i, 112 + j);
    }
    lemma_times_roots(p, seq![1u8], r, 0);
    assert forall|i: nat| i < 32 implies peval(p, rs_generator(), #[trigger] rs_root(i))
        == 0 by {
        assert(r[i as int] == rs_root(i));
        assert(r.contains(rs_root(i)));
        lemma_times_roots(p, seq![1u8], r, rs_root(i));
    }
}

/// The systematic encoding of `223` bytes is a codeword that starts with
/// them.
pub proof fn lemma_rs_encoding(data: Seq<u8>)
    requires
        data.len() == 223,
    ensures
        rs_codeword(systematic(POLY_187, rs_generator(), data)),
        systematic(POLY_187, rs_generator(), data).take(223) == data,
{
    let p = POLY_187;
    let g = rs_generator();
    let w = systematic(p, g, data);
    lemma_rs_roots();
    lemma_systematic(p, g, data, rs_root(0));
    assert forall|i: nat| i < 32 implies weval(p, w, #[trigger] rs_root(i)) == 0 by {
        lemma_systematic(p, g, data, rs_root(i));
    }
    assert(w.take(223) =~= data);
}

/// A codeword is determined by its data bytes.
pub proof fn lemma_rs_unique(a: Seq<u8>, b: Seq<u8>)
    requires
        rs_codeword(a),
        rs_codeword(b),
        a.take(223) == b.take(223),
    ensures
        a == b,
{
    lemma_rs_roots();
    let r = rs_roots();
    assert forall|i: int| 0 <= i < a.len() - r.len() implies a[i] == b[i] by {
        assert(a.take(223)[i] == a[i] && b.take(223)[i] == b[i]);
    }
    assert forall|i: int| #![trigger r[i]] 0 <= i < r.len() implies weval(POLY_187, a, r[i]) == 0
        && weval(POLY_187, b, r[i]) == 0 by {
        assert(r[i] == rs_root(i as nat));
    }
    lemma_systematic_unique(POLY_187, a, b, r);
}

/// A word is a codeword exactly when its syndromes vanish.
proof fn lemma_rs_syndromes(w: Seq<u8>)
    requires
        w.len() == 255,
    ensures
        rs_codeword(w) <==> forall|m: int| 0 <= m < 32 ==> #[trigger] rs_syndromes(w)[m] == 0,
{
    if forall|m: int| 0 <= m < 32 ==> #[trigger] rs_syndromes(w)[m] == 0 {
        assert forall|i: nat| i < 32 implies weval(POLY_187, w, #[trigger] rs_root(i)) == 0 by {
            assert(rs_syndromes(w)[i as int] == 0);
        }
    }
    if rs_codeword(w) {
        assert forall|m: int| 0 <= m < 32 implies #[trigger] rs_syndromes(w)[m] == 0 by {
            assert(rs_syndromes(w)[m] == weval(POLY_187, w, rs_root(m as nat)));
        }
    }
}

/// Decoding restores any codeword from which at most `16` bytes of the
/// received word differ, and returns how many did.
pub proof fn lemma_rs_corrects(w: Seq<u8>, c: Seq<u8>)
    requires
        w.len() == 255,
        rs_codeword(c),
        distance(w, c) <= 16,
    ensures
        rs_decodable(w),
        rs_fixed(w) == c,
        rs_fixes(w) == distance(w, c),
{
    let p = POLY_187;
    let x = points(p, 11);
    let z = inverse_points(p, 11);
    let e = wxor(w, c);
    let s = rs_syndromes(w);
    lemma_points(p, 11);
    assert(rs_syndromes(e) =~= s) by {
        assert forall|m: int| 0 <= m < 32 implies rs_syndromes(e)[m] == s[m] by {
            let y = rs_root(m as nat);
            lemma_weval_xor(p, w, c, y);
            assert(weval(p, c, y) == 0);
            lemma_xor(weval(p, w, y), 0, 0, 0);
        }
    }
    let v = syndrome_weights(p, e, x, 112);
    lemma_syndromes_psums(p, 11, 112, e, 32);
    lemma_syndrome_weights(p, 11, 112, e);
    lemma_bm_locates(p, v, x, z, 32);
    let lam = rs_locator(w);
    let l = locator_len(p, s);
    let st = bm(p, s, 32);
    lemma_bm_inv(p, s, 32);
    lemma_degree(lam);
    let d = degree(lam);
    // The degree is the length: it bounds the number of roots.
    if d > l {
        assert(lam[d as int] == 0);
    }
    lemma_root_count_take(p, lam, z, 255, d + 1);
    let cut = lam.take(d as int + 1);
    if root_count(p, cut, z, 255) >= cut.len() {
        lemma_root_bound(p, cut, z, 255);
        assert(cut[0] == 0);
    }
    assert(d == l);
    assert(rs_corrected(w) =~= c) by {
        assert forall|i: int| 0 <= i < 255 implies rs_corrected(w)[i] == c[i] by {
            assert(v[i] == 0 <==> e[i] == 0);
            assert(v[i] != 0 <==> peval(p, lam, z[i]) == 0);
            lemma_xor(w[i], c[i], 0, 0);
            if v[i] != 0 {
                lemma_evaluator_value(p, v, x, z, 32, i);
                lemma_separable(p, lam, z, i);
                let y = z[i];
                let dv = derivative(p, lam, y);
                let om = peval(p, evaluator(p, lam, s), y);
                let yk = gpow(p, y, 111);
                // om == e x^112 y dv, so om y^111 / dv == e.
                assert(gmul(p, gmul(p, om, yk), ginv(p, dv)) == e[i]) by {
                    lemma_forney_cancel(e[i], x[i], y, dv);
                }
                lemma_xor(w[i], e[i], 0, 0);
                lemma_xor(c[i], w[i], 0, 0);
            }
        }
    }
    if rs_codeword(w) {
        lemma_rs_syndromes(w);
        lemma_codewords_apart(w, c);
    }
}

proof fn lemma_forney_cancel(e: u8, x: u8, y: u8, dv: u8)
    requires
        gmul(POLY_187, y, x) == 1,
        dv != 0,
    ensures
        gmul(
            POLY_187,
            gmul(
                POLY_187,
                gmul(
                    POLY_187,
                    gmul(POLY_187, e, gpow(POLY_187, x, 112)),
                    gmul(POLY_187, y, dv),
                ),
                gpow(POLY_187, y, 111),
            ),
            ginv(POLY_187, dv),
        ) == e,
{
    let p = POLY_187;
    let xk = gpow(p, x, 112);
    let yk = gpow(p, y, 111);
    let di = ginv(p, dv);
    let a = gmul(p, e, xk);
    let b = gmul(p, y, dv);
    // (a b) y^111 == a (y^112 dv)
    lemma_gmul_associates(p, a, b, yk);
    lemma_gmul_associates(p, y, dv, yk);
    lemma_gmul_commutes(p, dv, yk);
    lemma_gmul_associates(p, y, yk, dv);
    let y112 = gpow(p, y, 112);
    assert(y112 == gmul(p, y, yk));
    assert(gmul(p, b, yk) == gmul(p, y112, dv));
    // times the inverse of dv
    lemma_gmul_associates(p, a, gmul(p, y112, dv), di);
    lemma_gmul_associates(p, y112, dv, di);
    lemma_inverse(p, dv);
    lemma_gmul_units(p, y112);
    // a y^112 == e
    lemma_gmul_associates(p, e, xk, y112);
    lemma_power_product(x, y, 112);
    lemma_gmul_units(p, e);
}

proof fn lemma_power_product(x: u8, y: u8, n: nat)
    requires
        gmul(POLY_187, y, x) == 1,
    ensures
        gmul(POLY_187, gpow(POLY_187, x, n), gpow(POLY_187, y, n)) == 1,
    decreases n,
{
    let p = POLY_187;
    if n == 0 {
        lemma_gmul_units(p, 1);
    } else {
        let m = (n - 1) as nat;
        lemma_power_product(x, y, m);
        let a = gpow(p, x, m);
        let b = gpow(p, y, m);
        lemma_gmul_commutes(p, x, a);
        lemma_gmul_associates(p, a, x, gmul(p, y, b));
        lemma_gmul_associates(p, x, y, b);
        lemma_gmul_commutes(p, x, y);
        lemma_gmul_units(p, b);
    }
}

/// Distinct codewords differ in more than `32` bytes.
pub proof fn lemma_rs_distance(a: Seq<u8>, b: Seq<u8>)
    requires
        rs_codeword(a),
        rs_codeword(b),
        a != b,
    ensures
        distance(a, b) > 32,
{
    let p = POLY_187;
    let x = points(p, 11);
    let e = wxor(a, b);
    lemma_points(p, 11);
    lemma_syndromes_psums(p, 11, 112, e, 32);
    lemma_syndrome_weights(p, 11, 112, e);
    let v = syndrome_weights(p, e, x, 112);
    if distance(a, b) <= 32 {
        assert forall|k: nat| k < 32 implies #[trigger] crate::gfpoly::psum(p, v, x, k) == 0 by {
            assert(rs_syndromes(e)[k as int] == crate::gfpoly::psum(p, v, x, k));
            let y = rs_root(k);
            lemma_weval_xor(p, a, b, y);
            assert(weval(p, a, y) == 0 && weval(p, b, y) == 0);
            lemma_xor(0, 0, 0, 0);
        }
        crate::gfpoly::lemma_vandermonde(p, v, x, 32);
        assert forall|i: int| 0 <= i < 255 implies a[i] == b[i] by {
            assert(v[i] == 0);
            lemma_xor(a[i], b[i], 0, 0);
        }
        assert(a =~= b);
    }
}

proof fn lemma_codewords_apart(w: Seq<u8>, c: Seq<u8>)
    requires
        rs_codeword(w),
        rs_codeword(c),
        distance(w, c) <= 16,
    ensures
        w == c,
        distance(w, c) == 0,
{
    if w != c {
        lemma_rs_distance(w, c);
    }
    let d = wxor(w, c);
    assert forall|i: int| 0 <= i < d.len() implies d[i] == 0 by {
        lemma_xor(w[i], c[i], 0, 0);
    }
    crate::gfpoly::lemma_psum_zero(POLY_187, d, d, 0);
}

/// What a successful decoding gives: a codeword, that differs from the
/// received word in as many bytes as were reported. This holds of up to `16`
/// corrections at the roots of a locator of full degree; a locator whose
/// degree falls short of the recurrence that it stands for proves nothing.
pub proof fn lemma_rs_accepts(w: Seq<u8>)
    requires
        w.len() == 255,
        rs_decodable(w),
        rs_fixes(w) <= 16,
        rs_codeword(w) || degree(rs_locator(w)) == locator_len(POLY_187, rs_syndromes(w)),
    ensures
        rs_codeword(rs_fixed(w)),
        distance(w, rs_fixed(w)) == rs_fixes(w),
{
    let p = POLY_187;
    let x = points(p, 11);
    let z = inverse_points(p, 11);
    let s = rs_syndromes(w);
    let c = rs_locator(w);
    let n = degree(c);
    lemma_points(p, 11);
    lemma_rs_syndromes(w);
    if rs_codeword(w) {
        let o = wxor(w, w);
        assert forall|i: int| 0 <= i < o.len() implies o[i] == 0 by {
            lemma_xor(w[i], w[i], 0, 0);
        }
        crate::gfpoly::lemma_psum_zero(p, o, o, 0);
    } else {
        lemma_bm_inv(p, s, 32);
        lemma_degree(c);
        let d = c.take(n as int + 1);
        lemma_root_count_take(p, c, z, 255, n + 1);
        assert forall|i: int| d.len() - 1 <= i < s.len() implies #[trigger] conv(p, d, s, i)
            == 0 by {
            lemma_conv_same(p, d, c, s, i);
            assert(conv(p, c, s, i) == 0);
        }
        let v = lemma_recurrence_solved(p, d, s, x, z, 255);
        let e = Seq::new(255, |i: int| gmul(p, v[i], gpow(p, z[i], 112)));
        assert(syndrome_weights(p, e, x, 112) =~= v) by {
            assert forall|i: int| 0 <= i < 255 implies syndrome_weights(p, e, x, 112)[i]
                == v[i] by {
                let a = gpow(p, z[i], 112);
                let b = gpow(p, x[i], 112);
                assert(gmul(p, z[i], x[i]) == 1);
                lemma_power_product(x[i], z[i], 112);
                lemma_gmul_commutes(p, a, b);
                lemma_gmul_associates(p, v[i], a, b);
                lemma_gmul_units(p, v[i]);
            }
        }
        lemma_syndrome_weights(p, 11, 112, e);
        assert forall|i: int| 0 <= i < 255 && v[i] != 0 implies #[trigger] peval(p, d, z[i])
            == 0 by {}
        lemma_roots_cover(p, d, v, z);
        lemma_syndromes_psums(p, 11, 112, e, 32);
        let q = wxor(w, e);
        assert forall|m: int| 0 <= m < 32 implies #[trigger] rs_syndromes(q)[m] == 0 by {
            lemma_weval_xor(p, w, e, rs_root(m as nat));
            assert(rs_syndromes(e)[m] == s[m]);
            lemma_xor(s[m], s[m], 0, 0);
        }
        lemma_rs_syndromes(q);
        assert(wxor(w, q) =~= e) by {
            assert forall|i: int| 0 <= i < 255 implies wxor(w, q)[i] == e[i] by {
                lemma_xor(w[i], w[i], e[i], 0);
                lemma_xor(e[i], 0, 0, 0);
                lemma_xor(0, e[i], 0, 0);
            }
        }
        lemma_rs_corrects(w, q);
    }
}

/// Codeword `i` of an interleaved block: every `d`-th byte from position `i`.
pub open spec fn stream(w: Seq<u8>, d: nat, i: nat, n: nat) -> Seq<u8> {
    Seq::new(n, |j: int| w[j * d + i])
}

/// The interleaving depths the standard permits.
pub open spec fn is_depth(d: nat) -> bool {
    d == 1 || d == 2 || d == 3 || d == 4 || d == 5 || d == 8
}

/// The number of bytes corrected in the first `n` codewords of a block.
pub open spec fn rs_total(w: Seq<u8>, d: nat, n: nat) -> nat
    decreases n,
{
    if n == 0 {
        0
    } else {
        rs_total(w, d, (n - 1) as nat) + rs_fixes(stream(w, d, (n - 1) as nat, 255))
    }
}

/// Codeword `i` of `after` is the correction of that of `before`.
pub open spec fn stream_corrected(before: Seq<u8>, after: Seq<u8>, d: nat, i: nat) -> bool {
    &&& rs_decodable(stream(before, d, i, 255))
    &&& stream(after, d, i, 255) == rs_fixed(stream(before, d, i, 255))
}

/// Codeword `i` is as it was.
pub open spec fn stream_kept(before: Seq<u8>, after: Seq<u8>, d: nat, i: nat) -> bool {
    stream(after, d, i, 255) == stream(before, d, i, 255)
}

/// The outcome of decoding an interleaved block: every codeword is corrected,
/// or those before the first that cannot be decoded.
pub open spec fn rs_block_decoded(
    d: nat,
    before: Seq<u8>,
    after: Seq<u8>,
    r: Result<usize, FecError>,
) -> bool {
    match r {
        Ok(n) => n == rs_total(before, d, d) && forall|i: nat|
            i < d ==> #[trigger] stream_corrected(before, after, d, i),
        Err(e) => e == FecError::DecoderNotConverged && exists|k: nat|
            k < d && !#[trigger] rs_decodable(stream(before, d, k, 255)) && (forall|i: nat|
                i < k ==> #[trigger] stream_corrected(before, after, d, i)) && (forall|i: nat|
                k <= i < d ==> #[trigger] stream_kept(before, after, d, i)),
    }
}

/// The data is spread over the codewords of an interleaved block, each of
/// which starts with its share.
pub open spec fn rs_block_encoded(d: nat, data: Seq<u8>, block: Seq<u8>) -> bool {
    forall|i: nat|
        #![trigger stream(block, d, i, 255)]
        i < d ==> rs_codeword(stream(block, d, i, 255)) && stream(block, d, i, 255).take(223)
            == stream(data, d, i, 223)
}

proof fn lemma_position(d: nat, j: int, i: nat)
    requires
        i < d,
        j >= 0,
    ensures
        (j * d + i) % (d as int) == i,
        (j * d + i) / (d as int) == j,
{
    vstd::arithmetic::div_mod::lemma_fundamental_div_mod_converse(j * d + i, d as int, j, i as int);
}

proof fn lemma_position_bound(d: nat, j: int, i: nat, n: int)
    requires
        i < d,
        0 <= j < n,
    ensures
        0 <= j * d + i < n * d,
{
    assert(0 <= j * d + i < n * d) by (nonlinear_arith)
        requires
            0 <= i < d,
            0 <= j < n,
    ;
}

/// Reads codeword `i` of an interleaved block.
fn gather(w: &[u8], d: usize, i: usize, n: usize) -> (v: Vec<u8>)
    requires
        i < d,
        w@.len() == n * d,
    ensures
        v@ == stream(w@, d as nat, i as nat, n as nat),
{
    let total: usize = w.len();
    let mut v: Vec<u8> = Vec::new();
    let mut j: usize = 0;
    while j < n
        invariant
            i < d,
            total == w@.len(),
            w@.len() == n * d,
            j <= n,
            v@.len() == j,
            forall|q: int| 0 <= q < j ==> #[trigger] v@[q] == w@[q * d + i],
        decreases n - j,
    {
        proof {
            lemma_position_bound(d as nat, j as int, i as nat, n as int);
            assert(j * d <= j * d + i);
        }
        v.push(w[j * d + i]);
        j = j + 1;
    }
    assert(v@ =~= stream(w@, d as nat, i as nat, n as nat));
    v
}

/// Writes codeword `i` of an interleaved block.
fn scatter(v: &Vec<u8>, w: &mut [u8], d: usize, i: usize)
    requires
        i < d,
        old(w)@.len() == v@.len() * d,
    ensures
        final(w)@.len() == old(w)@.len(),
        stream(final(w)@, d as nat, i as nat, v@.len()) == v@,
        forall|k: nat| #![trigger stream(final(w)@, d as nat, k, v@.len())]
            k < d && k != i ==> stream(final(w)@, d as nat, k, v@.len()) == stream(
                old(w)@,
                d as nat,
                k,
                v@.len(),
            ),
{
    let total: usize = w.len();
    let n: usize = v.len();
    let ghost before = w@;
    let mut j: usize = 0;
    while j < n
        invariant
            i < d,
            n == v@.len(),
            total == n * d,
            w@.len() == total,
            before.len() == total,
            j <= n,
            forall|q: int| 0 <= q < j ==> w@[#[trigger] (q * d) + i] == v@[q],
            forall|q: int| 0 <= q < total && q % (d as int) != i ==> w@[q] == before[q],
        decreases n - j,
    {
        proof {
            lemma_position_bound(d as nat, j as int, i as nat, n as int);
            lemma_position(d as nat, j as int, i as nat);
            assert(j * d <= j * d + i);
        }
        let ghost prev = w@;
        w[j * d + i] = v[j];
        proof {
            assert forall|q: int| 0 <= q < j + 1 implies w@[#[trigger] (q * d) + i] == v@[q] by {
                if q < j {
                    lemma_position(d as nat, q, i as nat);
                    lemma_position_bound(d as nat, q, i as nat, n as int);
                    assert(q * d + i != j * d + i);
                    assert(prev[(q * d) + i] == v@[q]);
                }
            }
        }
        j = j + 1;
    }
    proof {
        assert(stream(w@, d as nat, i as nat, v@.len()) =~= v@) by {
            assert forall|q: int| 0 <= q < n implies stream(w@, d as nat, i as nat, v@.len())[q]
                == v@[q] by {
                assert(w@[(q * d) + i] == v@[q]);
            }
        }
        assert forall|k: nat| #![trigger stream(w@, d as nat, k, v@.len())] k < d && k
            != i implies stream(w@, d as nat, k, v@.len()) == stream(
            before,
            d as nat,
            k,
            v@.len(),
        ) by {
            let a = stream(w@, d as nat, k, v@.len());
            let b = stream(before, d as nat, k, v@.len());
            assert forall|q: int| 0 <= q < n implies a[q] == b[q] by {
                lemma_position(d as nat, q, k);
                lemma_position_bound(d as nat, q, k, n as int);
            }
            assert(a =~= b);
        }
    }
}

/// Builds the generator polynomial from its roots.
fn build_generator(gf: &GfTables) -> (g: Vec<u8>)
    requires
        gf.wf(),
        gf.poly() == POLY_187,
    ensures
        g@ == rs_generator(),
{
    let mut g: Vec<u8> = vec![1u8; 1];
    let mut i: usize = 0;
    assert(g@ =~= seq![1u8]);
    assert(rs_roots().take(0) =~= Seq::<u8>::empty());
    while i < NROOTS
        invariant
            gf.wf(),
            gf.poly() == POLY_187,
            i <= 32,
            g@.len() == i + 1,
            g@ == poly_of_roots(POLY_187, rs_roots().take(i as int)),
        decreases 32 - i,
    {
        let root: u8 = gf.alpha_pow(PRIM * (FCR + i));
        g = multiply_by_root(gf, &g, root);
        proof {
            let next = rs_roots().take(i as int + 1);
            assert(next.drop_last() =~= rs_roots().take(i as int));
            assert(next.last() == root);
        }
        i = i + 1;
    }
    assert(rs_roots().take(32) =~= rs_roots());
    g
}

/// The index of the highest nonzero coefficient.
fn degree_of(c: &Vec<u8>) -> (d: usize)
    requires
        c@.len() > 0,
    ensures
        d == degree(c@),
{
    let mut d: usize = c.len() - 1;
    assert(c@.take(d as int + 1) =~= c@);
    while d > 0 && c[d] == 0
        invariant
            d < c@.len(),
            degree(c@) == degree(c@.take(d as int + 1)),
        decreases d,
    {
        assert(c@.take(d as int + 1).drop_last() =~= c@.take(d as int));
        d = d - 1;
    }
    proof {
        let t = c@.take(d as int + 1);
        if d > 0 {
            assert(t.last() == c@[d as int]);
        }
    }
    d
}

proof fn lemma_streams_step(
    before: Seq<u8>,
    prev: Seq<u8>,
    after: Seq<u8>,
    d: nat,
    i: nat,
)
    requires
        i < d,
        forall|k: nat| k < i ==> #[trigger] stream_corrected(before, prev, d, k),
        forall|k: nat| i <= k < d ==> #[trigger] stream_kept(before, prev, d, k),
        stream_corrected(before, after, d, i),
        forall|k: nat| k < d && k != i ==> #[trigger] stream_kept(prev, after, d, k),
    ensures
        forall|k: nat| k < i + 1 ==> #[trigger] stream_corrected(before, after, d, k),
        forall|k: nat| i + 1 <= k < d ==> #[trigger] stream_kept(before, after, d, k),
{
    assert forall|k: nat| k < i + 1 implies #[trigger] stream_corrected(
        before,
        after,
        d,
        k,
    ) by {
        if k < i {
            assert(stream_kept(prev, after, d, k));
            assert(stream_corrected(before, prev, d, k));
        }
    }
    assert forall|k: nat| i + 1 <= k < d implies #[trigger] stream_kept(before, after, d, k) by {
        assert(stream_kept(prev, after, d, k));
        assert(stream_kept(before, prev, d, k));
    }
}

/// A codec for one interleaving depth.
pub struct CcsdsReedSolomon {
    interleaving: usize,
    gf: GfTables,
    gen_poly: Vec<u8>,
}

impl CcsdsReedSolomon {
    /// The interleaving depth.
    pub closed spec fn depth(&self) -> nat {
        self.interleaving as nat
    }

    /// The codec holds what its depth determines.
    pub closed spec fn wf(&self) -> bool {
        &&& is_depth(self.interleaving as nat)
        &&& self.gf.wf()
        &&& self.gf.poly() == POLY_187
        &&& self.gen_poly@ == rs_generator()
    }

    /// A well-formed codec has one of the permitted depths.
    pub proof fn lemma_wf(&self)
        requires
            self.wf(),
        ensures
            is_depth(self.depth()),
    {
    }

    /// Constructs a codec at one of the permitted depths `1, 2, 3, 4, 5, 8`.
    pub fn new(interleaving: usize) -> (r: Result<CcsdsReedSolomon, FecError>)
        ensures
            match r {
                Ok(rs) => is_depth(interleaving as nat) && rs.wf() && rs.depth() == interleaving,
                Err(e) => !is_depth(interleaving as nat) && e == FecError::InvalidParam(
                    "CCSDS RS interleaving depth must be one of 1, 2, 3, 4, 5, 8",
                ),
            },
    {
        if !(interleaving == 1 || interleaving == 2 || interleaving == 3 || interleaving == 4
            || interleaving == 5 || interleaving == 8) {
            return Err(
                FecError::InvalidParam(
                    "CCSDS RS interleaving depth must be one of 1, 2, 3, 4, 5, 8",
                ),
            );
        }
        let gf: GfTables = GfTables::new(POLY_187);
        let gen_poly: Vec<u8> = build_generator(&gf);
        Ok(CcsdsReedSolomon { interleaving, gf, gen_poly })
    }

    /// The interleaving depth.
    pub fn interleaving(&self) -> (r: usize)
        ensures
            r == self.depth(),
    {
        self.interleaving
    }

    /// Data bytes of an interleaved block.
    pub fn data_len(&self) -> (r: usize)
        requires
            self.wf(),
        ensures
            r == self.depth() * 223,
    {
        self.interleaving * K
    }

    /// Bytes of an interleaved block.
    pub fn block_len(&self) -> (r: usize)
        requires
            self.wf(),
        ensures
            r == self.depth() * 255,
    {
        self.interleaving * N
    }

    /// The field tables.
    pub fn tables(&self) -> (gf: &GfTables)
        requires
            self.wf(),
        ensures
            gf.wf(),
            gf.poly() == POLY_187,
    {
        &self.gf
    }

    /// Encodes `223` data bytes into one codeword that starts with them.
    fn encode_block(&self, data: &Vec<u8>) -> (block: Vec<u8>)
        requires
            self.wf(),
            data@.len() == 223,
        ensures
            rs_codeword(block@),
            block@.take(223) == data@,
    {
        proof {
            lemma_rs_roots();
            lemma_rs_encoding(data@);
        }
        let r: Vec<u8> = remainder(&self.gf, &self.gen_poly, data.as_slice());
        let ghost target = systematic(POLY_187, rs_generator(), data@);
        let mut block: Vec<u8> = to_vector(data.as_slice());
        let mut j: usize = 0;
        while j < NROOTS
            invariant
                j <= 32,
                r@.len() == 32,
                data@.len() == 223,
                target == data@ + r@.reverse(),
                block@ == target.take(223 + j as int),
            decreases 32 - j,
        {
            block.push(r[NROOTS - 1 - j]);
            assert(target[223 + j as int] == r@.reverse()[j as int]);
            assert(target.take(223 + j as int + 1) =~= target.take(223 + j as int).push(
                target[223 + j as int],
            ));
            j = j + 1;
        }
        assert(target.take(255) =~= target);
        block
    }

    /// Encodes a block of data: each interleaved codeword starts with its
    /// share of the data.
    pub fn encode(&self, data: &[u8], codeword: &mut [u8]) -> (r: Result<(), FecError>)
        requires
            self.wf(),
        ensures
            data@.len() != self.depth() * 223 ==> r == Err::<(), _>(
                FecError::BufferTooSmall {
                    required: (self.depth() * 223) as usize,
                    provided: data@.len() as usize,
                },
            ),
            data@.len() == self.depth() * 223 && old(codeword)@.len() != self.depth() * 255 ==> r
                == Err::<(), _>(
                FecError::BufferTooSmall {
                    required: (self.depth() * 255) as usize,
                    provided: old(codeword)@.len() as usize,
                },
            ),
            data@.len() == self.depth() * 223 && old(codeword)@.len() == self.depth() * 255
                ==> r is Ok,
            r is Err ==> final(codeword)@ == old(codeword)@,
            r is Ok ==> final(codeword)@.len() == old(codeword)@.len() && rs_block_encoded(
                self.depth(),
                data@,
                final(codeword)@,
            ),
    {
        let dl: usize = self.data_len();
        let bl: usize = self.block_len();
        if data.len() != dl {
            return Err(FecError::BufferTooSmall { required: dl, provided: data.len() });
        }
        if codeword.len() != bl {
            return Err(FecError::BufferTooSmall { required: bl, provided: codeword.len() });
        }
        let d: usize = self.interleaving;
        let mut i: usize = 0;
        while i < d
            invariant
                self.wf(),
                d == self.depth(),
                i <= d,
                data@.len() == d * 223,
                codeword@.len() == d * 255,
                forall|k: nat| #![trigger stream(codeword@, d as nat, k, 255)]
                    k < i ==> rs_codeword(stream(codeword@, d as nat, k, 255)) && stream(
                        codeword@,
                        d as nat,
                        k,
                        255,
                    ).take(223) == stream(data@, d as nat, k, 223),
            decreases d - i,
        {
            let part: Vec<u8> = gather(data, d, i, K);
            let block: Vec<u8> = self.encode_block(&part);
            scatter(&block, codeword, d, i);
            i = i + 1;
        }
        Ok(())
    }

    /// Decodes one codeword.
    fn decode_word(&self, w: &Vec<u8>) -> (r: Option<(usize, Vec<u8>)>)
        requires
            self.wf(),
            w@.len() == 255,
        ensures
            match r {
                Some((n, v)) => rs_decodable(w@) && v@ == rs_fixed(w@) && n == rs_fixes(w@),
                None => !rs_decodable(w@),
            },
            r is Some ==> r.unwrap().1@.len() == 255 && r.unwrap().0 <= 255,
    {
        let ghost p = POLY_187;
        let ghost z = inverse_points(p, 11);
        let mut s: Vec<u8> = Vec::new();
        let mut any: bool = false;
        let mut m: usize = 0;
        while m < NROOTS
            invariant
                self.wf(),
                w@.len() == 255,
                m <= 32,
                s@.len() == m,
                forall|j: int| 0 <= j < m ==> #[trigger] s@[j] == rs_syndromes(w@)[j],
                any <==> exists|j: int| 0 <= j < m && #[trigger] rs_syndromes(w@)[j] != 0,
            decreases 32 - m,
        {
            let y: u8 = self.gf.alpha_pow(PRIM * (FCR + m));
            let v: u8 = evaluate(&self.gf, w.as_slice(), y);
            assert(v == rs_syndromes(w@)[m as int]);
            if v != 0 {
                any = true;
            }
            s.push(v);
            m = m + 1;
        }
        proof {
            assert(s@ =~= rs_syndromes(w@));
            lemma_rs_syndromes(w@);
        }
        if !any {
            return Some((0, to_vector(w.as_slice())));
        }
        let (c, l): (Vec<u8>, usize) = berlekamp_massey(&self.gf, s.as_slice());
        proof {
            lemma_bm_inv(p, s@, 32);
        }
        let deg: usize = degree_of(&c);
        let mut count: usize = 0;
        let mut i: usize = 0;
        while i < N
            invariant
                self.wf(),
                p == POLY_187,
                z == inverse_points(p, 11),
                i <= 255,
                count == root_count(p, c@, z, i as nat),
                count <= i,
            decreases 255 - i,
        {
            let y: u8 = self.gf.alpha_pow(PRIM * (i + 1));
            let v: u8 = polynomial_value(&self.gf, &c, y);
            assert(y == z[i as int]);
            if v == 0 {
                count = count + 1;
            }
            i = i + 1;
        }
        if count != deg {
            return None;
        }
        let mut om: Vec<u8> = Vec::new();
        let mut k: usize = 0;
        while k < NROOTS
            invariant
                self.wf(),
                p == POLY_187,
                k <= 32,
                s@.len() == 32,
                c@.len() == 34,
                om@.len() == k,
                forall|j: int| 0 <= j < k ==> #[trigger] om@[j] == evaluator(p, c@, s@)[j],
            decreases 32 - k,
        {
            let v: u8 = convolve_at(&self.gf, &c, s.as_slice(), k);
            om.push(v);
            k = k + 1;
        }
        assert(om@ =~= evaluator(p, c@, s@));
        proof {
            lemma_points(p, 11);
        }
        let mut out: Vec<u8> = Vec::new();
        let mut q: usize = 0;
        while q < N
            invariant
                self.wf(),
                p == POLY_187,
                z == inverse_points(p, 11),
                z.no_duplicates(),
                z.len() == 255,
                w@.len() == 255,
                s@ == rs_syndromes(w@),
                c@ == rs_locator(w@),
                c@.len() > 0,
                c@[0] != 0,
                om@ == evaluator(p, c@, s@),
                root_count(p, c@, z, 255) == degree(c@),
                q <= 255,
                out@.len() == q,
                forall|j: int| 0 <= j < q ==> #[trigger] out@[j] == rs_corrected(w@)[j],
            decreases 255 - q,
        {
            let y: u8 = self.gf.alpha_pow(PRIM * (q + 1));
            assert(y == z[q as int]);
            let v: u8 = polynomial_value(&self.gf, &c, y);
            let b: u8 = if v == 0 {
                let dv: u8 = derivative_value(&self.gf, &c, y);
                proof {
                    lemma_separable(p, c@, z, q as int);
                    lemma_pow_mul(p, 2, (11 * (q + 1)) as nat, 111);
                    assert((11 * (q + 1)) as nat * 111 == 1221 * (q + 1));
                }
                let yk: u8 = self.gf.alpha_pow(1221 * (q + 1));
                let num: u8 = polynomial_value(&self.gf, &om, y);
                let inv: u8 = self.gf.inv(dv);
                let e: u8 = self.gf.mul(self.gf.mul(num, yk), inv);
                w[q] ^ e
            } else {
                w[q]
            };
            out.push(b);
            q = q + 1;
        }
        assert(out@ =~= rs_corrected(w@));
        Some((count, out))
    }

    /// Decodes one codeword in place and returns the number of corrected
    /// bytes.
    pub fn decode_block(&self, block: &mut [u8]) -> (r: Result<usize, FecError>)
        requires
            self.wf(),
            old(block)@.len() == 255,
        ensures
            final(block)@.len() == old(block)@.len(),
            match r {
                Ok(n) => rs_decodable(old(block)@) && final(block)@ == rs_fixed(old(block)@) && n
                    == rs_fixes(old(block)@),
                Err(e) => !rs_decodable(old(block)@) && e
                    == FecError::DecoderNotConverged && final(block)@ == old(block)@,
            },
    {
        let w: Vec<u8> = to_vector(block);
        match self.decode_word(&w) {
            Some((n, v)) => {
                copy_into(&v, 0, block);
                assert(v@.skip(0) =~= v@);
                Ok(n)
            },
            None => Err(FecError::DecoderNotConverged),
        }
    }

    /// Decodes an interleaved block in place and returns the number of
    /// corrected bytes. It stops at the first codeword that cannot be
    /// decoded; those before it are then already corrected.
    pub fn decode(&self, block: &mut [u8]) -> (r: Result<usize, FecError>)
        requires
            self.wf(),
        ensures
            final(block)@.len() == old(block)@.len(),
            old(block)@.len() != self.depth() * 255 ==> final(block)@ == old(block)@ && r == Err::<
                usize,
                _,
            >(
                FecError::BufferTooSmall {
                    required: (self.depth() * 255) as usize,
                    provided: old(block)@.len() as usize,
                },
            ),
            old(block)@.len() == self.depth() * 255 ==> rs_block_decoded(
                self.depth(),
                old(block)@,
                final(block)@,
                r,
            ),
    {
        let bl: usize = self.block_len();
        if block.len() != bl {
            return Err(FecError::BufferTooSmall { required: bl, provided: block.len() });
        }
        let d: usize = self.interleaving;
        let ghost before = block@;
        let mut total: usize = 0;
        let mut i: usize = 0;
        while i < d
            invariant
                self.wf(),
                d == self.depth(),
                is_depth(d as nat),
                i <= d,
                before == old(block)@,
                before.len() == d * 255,
                block@.len() == d * 255,
                total == rs_total(before, d as nat, i as nat),
                total <= 255 * i,
                forall|k: nat| k < i ==> #[trigger] stream_corrected(before, block@, d as nat, k),
                forall|k: nat|
                    i <= k < d ==> #[trigger] stream_kept(before, block@, d as nat, k),
            decreases d - i,
        {
            let w: Vec<u8> = gather(block, d, i, N);
            assert(stream_kept(before, block@, d as nat, i as nat));
            assert(stream(block@, d as nat, i as nat, 255) == stream(
                before,
                d as nat,
                i as nat,
                255,
            ));
            match self.decode_word(&w) {
                Some((n, v)) => {
                    let ghost prev = block@;
                    scatter(&v, block, d, i);
                    proof {
                        assert forall|k: nat| k < d && k != i implies #[trigger] stream_kept(
                            prev,
                            block@,
                            d as nat,
                            k,
                        ) by {
                            assert(stream(block@, d as nat, k, v@.len()) == stream(
                                prev,
                                d as nat,
                                k,
                                v@.len(),
                            ));
                        }
                        lemma_streams_step(before, prev, block@, d as nat, i as nat);
                    }
                    total = total + n;
                },
                None => {
                    assert(!rs_decodable(stream(before, d as nat, i as nat, 255)));
                    return Err(FecError::DecoderNotConverged);
                },
            }
            i = i + 1;
        }
        Ok(total)
    }
}

} // verus!
