//! What the BCH codes promise as a whole: their distance, their symmetries,
//! and what decoding gives back of what was encoded.

use vstd::prelude::*;

use crate::bch::{
    bch_codeword, bch_syndromes, decoded, dimension, in_reach, lemma_codeword_syndromes,
    lemma_reach_unique, padded, root_exponents, shortened_decoded, starts_with_zeros, with_low_bits,
};
use crate::bits::{is_bits, lemma_low_bit, lemma_low_bits, lemma_xor_bits, low_bits};
use crate::cyclic::{
    distance, lemma_points, lemma_syndrome_weights, lemma_syndromes_psums, lemma_weval_concat,
    lemma_weval_xor, lemma_weval_zero, points, syndrome_weights, weval, wxor,
};
use crate::error::FecError;
use crate::gf256::{
    gmul, gpow, lemma_alpha_period, lemma_gmul_commutes, lemma_gmul_units, lemma_pow_mul, lemma_xor,
    POLY_11D,
};
use crate::gfpoly::{lemma_vandermonde, psum};

verus! {

/// The sum of two codewords is a codeword.
pub proof fn lemma_linear(t: nat, a: Seq<u8>, b: Seq<u8>)
    requires
        bch_codeword(t, a),
        bch_codeword(t, b),
    ensures
        bch_codeword(t, wxor(a, b)),
{
    let w = wxor(a, b);
    assert forall|i: int| 0 <= i < w.len() implies #[trigger] w[i] <= 1 by {
        lemma_xor_bits(a[i], b[i]);
    }
    assert forall|e: nat| 1 <= e <= 2 * t implies weval(
        POLY_11D,
        w,
        #[trigger] gpow(POLY_11D, 2, e),
    ) == 0 by {
        lemma_weval_xor(POLY_11D, a, b, gpow(POLY_11D, 2, e));
        lemma_xor(0, 0, 0, 0);
    }
}

/// The word of zeros is a codeword.
pub proof fn lemma_zero_codeword(t: nat)
    ensures
        bch_codeword(t, Seq::new(255, |i: int| 0u8)),
{
    let w = Seq::new(255, |i: int| 0u8);
    assert forall|e: nat| 1 <= e <= 2 * t implies weval(
        POLY_11D,
        w,
        #[trigger] gpow(POLY_11D, 2, e),
    ) == 0 by {
        lemma_weval_zero(POLY_11D, w, gpow(POLY_11D, 2, e));
    }
}

/// A codeword, rotated by one position, is a codeword.
pub proof fn lemma_cyclic(t: nat, w: Seq<u8>)
    requires
        bch_codeword(t, w),
    ensures
        bch_codeword(t, w.drop_first().push(w[0])),
{
    let p = POLY_11D;
    let rest = w.drop_first();
    let v = rest.push(w[0]);
    let head = seq![w[0]];
    assert(w =~= head + rest);
    assert forall|e: nat| 1 <= e <= 2 * t implies weval(p, v, #[trigger] gpow(p, 2, e)) == 0 by {
        let y = gpow(p, 2, e);
        lemma_weval_concat(p, head, rest, y);
        assert(head.drop_last() =~= Seq::<u8>::empty());
        assert(weval(p, head, y) == w[0]) by {
            assert(weval(p, head.drop_last(), y) == 0);
            lemma_gmul_units(p, y);
            lemma_xor(w[0], 0, 0, 0);
        }
        assert(v.drop_last() =~= rest);
        let a = gmul(p, w[0], gpow(p, y, 254));
        let r = weval(p, rest, y);
        assert(a ^ r == 0);
        lemma_xor(a, r, 0, 0);
        assert(r == a);
        assert(gmul(p, a, y) == gmul(p, w[0], gmul(p, gpow(p, y, 254), y))) by {
            crate::gf256::lemma_gmul_associates(p, w[0], gpow(p, y, 254), y);
        }
        lemma_gmul_commutes(p, gpow(p, y, 254), y);
        assert(gpow(p, y, 255) == gmul(p, y, gpow(p, y, 254)));
        lemma_pow_mul(p, 2, e, 255);
        lemma_alpha_period(p, 0, e);
        assert(gpow(p, y, 255) == 1);
        lemma_gmul_units(p, w[0]);
        lemma_xor(w[0], w[0], 0, 0);
    }
    assert forall|i: int| 0 <= i < v.len() implies #[trigger] v[i] <= 1 by {
        if i < 254 {
            assert(v[i] == w[i + 1]);
        }
    }
}

/// Different codewords differ in more than `2t` bits.
pub proof fn lemma_minimum_distance(t: nat, a: Seq<u8>, b: Seq<u8>)
    requires
        bch_codeword(t, a),
        bch_codeword(t, b),
        a != b,
    ensures
        distance(a, b) > 2 * t,
{
    let p = POLY_11D;
    let x = points(p, 1);
    let e = wxor(a, b);
    lemma_points(p, 1);
    lemma_linear(t, a, b);
    lemma_codeword_syndromes(t, e);
    lemma_syndromes_psums(p, 1, 1, e, 2 * t);
    lemma_syndrome_weights(p, 1, 1, e);
    let v = syndrome_weights(p, e, x, 1);
    if distance(a, b) <= 2 * t {
        assert forall|k: nat| k < 2 * t implies #[trigger] psum(p, v, x, k) == 0 by {
            assert(bch_syndromes(t, e)[k as int] == psum(p, v, x, k));
        }
        lemma_vandermonde(p, v, x, 2 * t);
        assert forall|i: int| 0 <= i < 255 implies a[i] == b[i] by {
            assert(v[i] == 0);
            lemma_xor(a[i], b[i], 0, 0);
        }
        assert(a =~= b);
    }
}

/// The more errors a code corrects, the fewer information bits it carries.
pub proof fn lemma_dimension_shrinks(t: nat, u: nat)
    requires
        t <= u,
    ensures
        dimension(u) <= dimension(t),
    decreases u,
{
    if t < u {
        lemma_dimension_shrinks(t, (u - 1) as nat);
        let before = root_exponents((u - 1) as nat);
        assert(root_exponents(u).len() >= before.len());
    }
}

/// A word with the low bits of `c` has them.
pub proof fn lemma_with_low_bits(w: Seq<u8>, c: Seq<u8>)
    requires
        w.len() == c.len(),
        is_bits(c),
    ensures
        low_bits(with_low_bits(w, c)) == c,
        is_bits(w) ==> with_low_bits(w, c) == c,
{
    let v = with_low_bits(w, c);
    assert forall|i: int| 0 <= i < w.len() implies #[trigger] v[i] & 1 == c[i] && (w[i] <= 1 ==> v[i]
        == c[i]) by {
        lemma_low_bit(w[i]);
        lemma_low_bit(v[i]);
        assert(c[i] <= 1);
        if c[i] == w[i] & 1 {
            assert(v[i] == w[i]);
        } else {
            assert(c[i] == (w[i] & 1) ^ 1);
            assert(v[i] == w[i] ^ 1);
        }
    }
    assert(low_bits(v) =~= c);
    if is_bits(w) {
        assert(v =~= c);
    }
}

/// Decoding a word that differs from a codeword in at most `t` bits gives
/// the codeword, and the number of bits that differed.
pub proof fn lemma_corrects(
    t: nat,
    c: Seq<u8>,
    before: Seq<u8>,
    after: Seq<u8>,
    r: Result<usize, FecError>,
)
    requires
        bch_codeword(t, c),
        before.len() == 255,
        distance(low_bits(before), c) <= t,
        decoded(t, before, after, r),
    ensures
        r == Ok::<usize, FecError>(distance(low_bits(before), c) as usize),
        low_bits(after) == c,
        is_bits(before) ==> after == c,
{
    let w = low_bits(before);
    lemma_low_bits(before);
    assert(in_reach(t, w, c));
    match r {
        Ok(n) => {
            let d = choose|d: Seq<u8>| #[trigger]
                in_reach(t, w, d) && n == distance(w, d) && after == with_low_bits(before, d);
            lemma_reach_unique(t, w, c, d);
            lemma_with_low_bits(before, c);
        },
        Err(_) => {},
    }
}

/// What decoding accepts is a codeword, and it changed at most `t` bits.
pub proof fn lemma_accepts(
    t: nat,
    before: Seq<u8>,
    after: Seq<u8>,
    r: Result<usize, FecError>,
)
    requires
        before.len() == 255,
        decoded(t, before, after, r),
        r is Ok,
    ensures
        bch_codeword(t, low_bits(after)),
        distance(low_bits(before), low_bits(after)) == r->Ok_0,
        r->Ok_0 <= t,
{
    let w = low_bits(before);
    lemma_low_bits(before);
    let n = r->Ok_0;
    let d = choose|d: Seq<u8>| #[trigger]
        in_reach(t, w, d) && n == distance(w, d) && after == with_low_bits(before, d);
    lemma_with_low_bits(before, d);
}

/// Information that was encoded comes back from decoding, as long as at most
/// `t` bits were changed in between.
pub proof fn lemma_round_trip(
    t: nat,
    info: Seq<u8>,
    sent: Seq<u8>,
    received: Seq<u8>,
    after: Seq<u8>,
    r: Result<usize, FecError>,
)
    requires
        info.len() == dimension(t),
        bch_codeword(t, sent),
        sent.take(info.len() as int) == info,
        received.len() == 255,
        is_bits(received),
        distance(received, sent) <= t,
        decoded(t, received, after, r),
    ensures
        r == Ok::<usize, FecError>(distance(received, sent) as usize),
        after == sent,
        after.take(info.len() as int) == info,
{
    lemma_low_bits(received);
    lemma_corrects(t, sent, received, after, r);
}

proof fn lemma_padded(before: Seq<u8>, w: Seq<u8>)
    requires
        before.len() <= 255,
        w.len() == before.len(),
        is_bits(before),
        is_bits(w),
    ensures
        is_bits(padded(255, before)),
        is_bits(padded(255, w)),
        starts_with_zeros(padded(255, w), 255 - w.len()),
        padded(255, w).skip(255 - w.len()) == w,
{
    let a = padded(255, before);
    let b = padded(255, w);
    let n = 255 - w.len();
    assert forall|i: int| 0 <= i < 255 implies #[trigger] a[i] <= 1 by {
        if i >= n {
            assert(a[i] == before[i - n]);
        }
    }
    assert forall|i: int| 0 <= i < 255 implies #[trigger] b[i] <= 1 by {
        if i >= n {
            assert(b[i] == w[i - n]);
        }
    }
    assert(b.skip(n) =~= w);
}

/// The shortened code keeps the promise: at most `t` changed bits of a
/// shortened codeword are set right.
pub proof fn lemma_shortened_corrects(
    t: nat,
    sent: Seq<u8>,
    received: Seq<u8>,
    after: Seq<u8>,
    r: Result<usize, FecError>,
)
    requires
        sent.len() <= 255,
        received.len() == sent.len(),
        is_bits(sent),
        is_bits(received),
        bch_codeword(t, padded(255, sent)),
        distance(padded(255, received), padded(255, sent)) <= t,
        shortened_decoded(t, received, after, r),
    ensures
        r == Ok::<usize, FecError>(
            distance(padded(255, received), padded(255, sent)) as usize,
        ),
        after == sent,
{
    let c = padded(255, sent);
    let wide = padded(255, received);
    let pad = 255 - received.len();
    lemma_padded(received, sent);
    lemma_low_bits(wide);
    assert(low_bits(wide) == wide);
    assert(in_reach(t, wide, c));
    match r {
        Ok(n) => {
            let d = choose|d: Seq<u8>| #[trigger]
                in_reach(t, wide, d) && starts_with_zeros(d, pad) && n == distance(wide, d) && after
                    == with_low_bits(received, d.skip(pad));
            lemma_reach_unique(t, wide, c, d);
            lemma_with_low_bits(received, sent);
        },
        Err(_) => {},
    }
}

} // verus!
