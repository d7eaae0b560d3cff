//! What decoding a polar code is for: bits are decided by what the words
//! that remain possible cost.
//!
//! The cost of a codeword is the sum of the distances from zero of the
//! likelihoods that it goes against. It splits along the transform: into the
//! cost of the first half against the combined likelihoods, and that of the
//! second half against the added ones.

use crate::bits::{is_bits, lemma_xor_bits};
use crate::numbers::{
    absolute, adds_exactly, against, joint, lemma_combined_value, lemma_signed_value, lemma_value,
    lemma_whole_combined, lemma_whole_signed, value, whole,
};
use crate::polar::{
    is_power, is_right_llr, left_llr, lemma_polar_bits, lemma_polar_involution, lemma_polar_len,
    polar, sc_decides,
};
use crate::soft::signed;
use vstd::prelude::*;

verus! {

/// The numbers of likelihoods.
pub open spec fn values(llr: Seq<u32>) -> Seq<int> {
    Seq::new(llr.len(), |i: int| value(llr[i]))
}

/// What the first `n` bits of a word cost.
pub open spec fn word_cost(v: Seq<int>, x: Seq<u8>, n: nat) -> int
    decreases n,
{
    if n == 0 {
        0
    } else {
        word_cost(v, x, (n - 1) as nat) + against(v[n - 1], x[n - 1])
    }
}

/// What the codeword of `u` costs.
pub open spec fn cost_of(llr: Seq<u32>, u: Seq<u8>) -> int {
    word_cost(values(llr), polar(u), llr.len())
}

/// The distances from zero of the first `n` numbers, added.
pub open spec fn spread(v: Seq<int>, n: nat) -> int
    decreases n,
{
    if n == 0 {
        0
    } else {
        spread(v, (n - 1) as nat) + absolute(v[n - 1])
    }
}

/// All likelihoods are multiples of the unit, and all together within the
/// bound.
pub open spec fn in_range(llr: Seq<u32>, unit: int, most: int) -> bool {
    &&& unit > 0
    &&& forall|i: int| 0 <= i < llr.len() ==> whole(#[trigger] llr[i], unit)
    &&& spread(values(llr), llr.len()) <= most
}

/// The numbers of the sums of the two halves.
spec fn lefts(v: Seq<int>) -> Seq<int> {
    let h = v.len() / 2;
    Seq::new(h, |i: int| joint(v[i], v[h + i]))
}

/// The numbers of the second half, given the first.
spec fn rights(v: Seq<int>, a: Seq<u8>) -> Seq<int> {
    let h = v.len() / 2;
    Seq::new(
        h,
        |i: int|
            v[h + i] + if a[i] == 0 {
                v[i]
            } else {
                -v[i]
            },
    )
}

proof fn lemma_cost_bounds(v: Seq<int>, x: Seq<u8>, n: nat)
    ensures
        0 <= word_cost(v, x, n) <= spread(v, n),
    decreases n,
{
    if n > 0 {
        lemma_cost_bounds(v, x, (n - 1) as nat);
    }
}

proof fn lemma_spread_monotone(v: Seq<int>, m: nat, n: nat)
    requires
        m <= n,
    ensures
        0 <= spread(v, m) <= spread(v, n),
    decreases n,
{
    if n > 0 {
        if m == n {
            lemma_spread_monotone(v, (n - 1) as nat, (n - 1) as nat);
        } else {
            lemma_spread_monotone(v, m, (n - 1) as nat);
        }
    }
}

proof fn lemma_split(v: Seq<int>, x: Seq<u8>, h: nat, k: nat)
    requires
        h + k <= v.len(),
        x.len() == v.len(),
    ensures
        word_cost(v, x, h + k) == word_cost(v, x, h) + word_cost(
            v.skip(h as int),
            x.skip(h as int),
            k,
        ),
        spread(v, h + k) == spread(v, h) + spread(v.skip(h as int), k),
    decreases k,
{
    if k > 0 {
        lemma_split(v, x, h, (k - 1) as nat);
        assert(v.skip(h as int)[k - 1] == v[h + k - 1]);
        assert(x.skip(h as int)[k - 1] == x[h + k - 1]);
    }
}

/// At one place: what a pair of bits costs, and that the added number takes
/// no more room than is left.
proof fn lemma_pair(s: int, t: int, a: u8, b: u8)
    requires
        a <= 1,
        b <= 1,
    ensures
        ({
            let r = t + if a == 0 {
                s
            } else {
                -s
            };
            &&& against(s, a ^ b) + against(t, b) == against(joint(s, t), a) + against(r, b)
            &&& against(joint(s, t), a) + absolute(r) <= absolute(s) + absolute(t)
            &&& absolute(joint(s, t)) <= absolute(s)
        }),
{
    lemma_xor_bits(a, b);
}

proof fn lemma_halves(v: Seq<int>, w: Seq<u8>, k: nat)
    requires
        is_power(v.len() as int),
        v.len() > 1,
        w.len() == v.len(),
        is_bits(w),
        k <= v.len() / 2,
    ensures
        ({
            let h = v.len() as int / 2;
            let a = polar(w.take(h));
            let b = polar(w.skip(h));
            &&& word_cost(v, polar(w), k) + word_cost(v.skip(h), polar(w).skip(h), k) == word_cost(
                lefts(v),
                a,
                k,
            ) + word_cost(rights(v, a), b, k)
            &&& word_cost(lefts(v), a, k) + spread(rights(v, a), k) <= spread(v, k) + spread(
                v.skip(h),
                k,
            )
            &&& spread(lefts(v), k) <= spread(v, k)
        }),
    decreases k,
{
    if k > 0 {
        let h = v.len() as int / 2;
        lemma_halves(v, w, (k - 1) as nat);
        lemma_half_words(w);
        let a = polar(w.take(h));
        let b = polar(w.skip(h));
        let i = k - 1;
        assert(a[i] <= 1 && b[i] <= 1);
        assert(polar(w)[i] == a[i] ^ b[i] && polar(w)[h + i] == b[i]);
        assert(polar(w).skip(h)[i] == b[i] && v.skip(h)[i] == v[h + i]);
        lemma_pair(v[i], v[h + i], a[i], b[i]);
    }
}

/// The halves of a word of bits, and their transforms, are words of bits.
proof fn lemma_half_words(w: Seq<u8>)
    requires
        is_power(w.len() as int),
        w.len() > 1,
        is_bits(w),
    ensures
        ({
            let h = w.len() as int / 2;
            &&& w.len() == 2 * h
            &&& is_power(h)
            &&& is_bits(w.take(h)) && is_bits(w.skip(h))
            &&& is_bits(polar(w.take(h))) && is_bits(polar(w.skip(h)))
            &&& polar(w.take(h)).len() == h && polar(w.skip(h)).len() == h
            &&& polar(w).len() == w.len()
        }),
{
    let h = w.len() as int / 2;
    assert forall|i: int| 0 <= i < h implies #[trigger] w.take(h)[i] <= 1 by {
        assert(w[i] <= 1);
    }
    assert forall|i: int| 0 <= i < h implies #[trigger] w.skip(h)[i] <= 1 by {
        assert(w[h + i] <= 1);
    }
    lemma_polar_len(w);
    lemma_polar_len(w.take(h));
    lemma_polar_len(w.skip(h));
    lemma_polar_bits(w.take(h));
    lemma_polar_bits(w.skip(h));
}

/// The cost of a codeword is that of its first half against the combined
/// likelihoods and that of its second half against the added ones.
proof fn lemma_node(v: Seq<int>, w: Seq<u8>)
    requires
        is_power(v.len() as int),
        v.len() > 1,
        w.len() == v.len(),
        is_bits(w),
    ensures
        ({
            let h = v.len() as int / 2;
            let a = polar(w.take(h));
            let b = polar(w.skip(h));
            &&& word_cost(v, polar(w), v.len()) == word_cost(lefts(v), a, h as nat) + word_cost(
                rights(v, a),
                b,
                h as nat,
            )
            &&& word_cost(lefts(v), a, h as nat) + spread(rights(v, a), h as nat) <= spread(
                v,
                v.len(),
            )
            &&& spread(lefts(v), h as nat) <= spread(v, v.len())
        }),
{
    let h = v.len() as int / 2;
    lemma_half_words(w);
    lemma_halves(v, w, h as nat);
    lemma_split(v, polar(w), h as nat, h as nat);
    lemma_spread_monotone(v.skip(h), 0, h as nat);
}

/// The bits that cost nothing.
spec fn agreeing(v: Seq<int>) -> Seq<u8> {
    Seq::new(
        v.len(),
        |i: int|
            if v[i] < 0 {
                1u8
            } else {
                0u8
            },
    )
}

proof fn lemma_agreeing(v: Seq<int>, n: nat)
    requires
        n <= v.len(),
    ensures
        word_cost(v, agreeing(v), n) == 0,
    decreases n,
{
    if n > 0 {
        lemma_agreeing(v, (n - 1) as nat);
    }
}

/// The combined likelihoods stand for the combined numbers.
proof fn lemma_lefts(llr: Seq<u32>, unit: int, most: int)
    requires
        is_power(llr.len() as int),
        llr.len() > 1,
        in_range(llr, unit, most),
    ensures
        values(left_llr(llr)) == lefts(values(llr)),
        in_range(left_llr(llr), unit, most),
{
    let h = llr.len() as int / 2;
    let l = left_llr(llr);
    assert forall|i: int| 0 <= i < h implies whole(#[trigger] l[i], unit) && value(l[i]) == lefts(
        values(llr),
    )[i] by {
        assert(whole(llr[i], unit) && whole(llr[h + i], unit));
        lemma_whole_combined(llr[i], llr[h + i], unit);
        lemma_combined_value(llr[i], llr[h + i]);
    }
    assert(values(l) =~= lefts(values(llr)));
    let w = Seq::new(llr.len(), |i: int| 0u8);
    lemma_node(values(llr), w);
}

/// The added likelihoods stand for the added numbers.
proof fn lemma_rights<F: Fn(u32, u32) -> u32>(
    plus: F,
    llr: Seq<u32>,
    unit: int,
    most: int,
    w1: Seq<u8>,
    right: Seq<u32>,
)
    requires
        is_power(llr.len() as int),
        llr.len() > 1,
        in_range(llr, unit, most),
        adds_exactly(plus, unit, most),
        w1.len() == llr.len() / 2,
        is_bits(w1),
        is_right_llr(plus, llr, polar(w1), right),
    ensures
        values(right) == rights(values(llr), polar(w1)),
        forall|i: int| 0 <= i < right.len() ==> whole(#[trigger] right[i], unit),
        word_cost(values(left_llr(llr)), polar(w1), llr.len() / 2) + spread(
            values(right),
            right.len(),
        ) <= spread(values(llr), llr.len()),
        in_range(right, unit, most),
{
    let h = llr.len() as int / 2;
    let v = values(llr);
    let a = polar(w1);
    let w = w1 + Seq::new(h as nat, |i: int| 0u8);
    assert(w.take(h) =~= w1);
    assert forall|i: int| 0 <= i < w.len() implies #[trigger] w[i] <= 1 by {
        if i < h {
            assert(w1[i] <= 1);
        }
    }
    lemma_half_words(w);
    lemma_node(v, w);
    lemma_lefts(llr, unit, most);
    lemma_cost_bounds(lefts(v), a, h as nat);
    assert forall|i: int| 0 <= i < h implies whole(#[trigger] right[i], unit) && value(right[i])
        == rights(v, a)[i] by {
        assert(whole(llr[i], unit) && whole(llr[h + i], unit));
        assert(a[i] <= 1);
        lemma_whole_signed(llr[i], a[i], unit);
        lemma_signed_value(llr[i], a[i]);
        lemma_two_within(v, i, h + i);
        assert(call_ensures(plus, (llr[h + i], signed(llr[i], a[i])), right[i]));
    }
    assert(values(right) =~= rights(v, a));
}

/// Two of the numbers are no further from zero than all of them.
proof fn lemma_two_within(v: Seq<int>, i: int, j: int)
    requires
        0 <= i < j < v.len(),
    ensures
        absolute(v[i]) + absolute(v[j]) <= spread(v, v.len()),
{
    lemma_spread_monotone(v, 0, i as nat);
    lemma_spread_monotone(v, (i + 1) as nat, j as nat);
    lemma_spread_monotone(v, (j + 1) as nat, v.len());
}

/// How successive cancellation decides a bit: of the words that share the
/// earlier bits, one with the bit decided costs no more than any with the
/// other bit, and less where the bit is one. The words range over all later
/// bits.
pub proof fn lemma_sc_decides_by_cost<F: Fn(u32, u32) -> u32>(
    plus: F,
    unit: int,
    most: int,
    llr: Seq<u32>,
    frozen: Seq<bool>,
    u: Seq<u8>,
    i: int,
    other: Seq<u8>,
) -> (best: Seq<u8>)
    requires
        is_power(llr.len() as int),
        frozen.len() == llr.len(),
        in_range(llr, unit, most),
        adds_exactly(plus, unit, most),
        sc_decides(plus, llr, frozen, u),
        0 <= i < llr.len(),
        !frozen[i],
        is_bits(other),
        other.len() == llr.len(),
        other.take(i) == u.take(i),
        other[i] != u[i],
    ensures
        is_bits(best),
        best.len() == llr.len(),
        best.take(i) == u.take(i),
        best[i] == u[i],
        u[i] == 0 ==> cost_of(llr, best) <= cost_of(llr, other),
        u[i] == 1 ==> cost_of(llr, best) < cost_of(llr, other),
        u[i] <= 1,
    decreases llr.len(),
{
    let n = llr.len();
    let v = values(llr);
    lemma_sc_bits(plus, llr, frozen, u);
    if n == 1 {
        let best = u;
        lemma_value(llr[0]);
        assert(whole(llr[0], unit));
        assert(u.len() == 1 && i == 0);
        assert(polar(best) == best && polar(other) == other);
        assert(other[0] <= 1);
        assert(word_cost(v, best, 1) == word_cost(v, best, 0) + against(v[0], best[0]));
        assert(word_cost(v, other, 1) == word_cost(v, other, 0) + against(v[0], other[0]));
        best
    } else {
        let h = n as int / 2;
        let u1 = u.take(h);
        let u2 = u.skip(h);
        let right = choose|right: Seq<u32>| #[trigger]
            is_right_llr(plus, llr, polar(u1), right) && sc_decides(
                plus,
                right,
                frozen.skip(h),
                u2,
            );
        lemma_half_words(u);
        lemma_half_words(other);
        lemma_lefts(llr, unit, most);
        lemma_node(v, other);
        if i < h {
            let o1 = other.take(h);
            assert(o1.take(i) =~= other.take(i) && u1.take(i) =~= u.take(i));
            let b1 = lemma_sc_decides_by_cost(
                plus,
                unit,
                most,
                left_llr(llr),
                frozen.take(h),
                u1,
                i,
                o1,
            );
            lemma_polar_len(b1);
            lemma_polar_bits(b1);
            let r = rights(v, polar(b1));
            let x2 = agreeing(r);
            let b2 = polar(x2);
            lemma_polar_len(x2);
            lemma_polar_bits(x2);
            lemma_polar_involution(x2);
            let best = b1 + b2;
            assert(best.take(h) =~= b1 && best.skip(h) =~= b2);
            assert(best.take(i) =~= b1.take(i));
            assert forall|k: int| 0 <= k < best.len() implies #[trigger] best[k] <= 1 by {
                if k < h {
                    assert(b1[k] <= 1);
                } else {
                    assert(b2[k - h] <= 1);
                }
            }
            lemma_node(v, best);
            lemma_agreeing(r, h as nat);
            lemma_cost_bounds(rights(v, polar(o1)), polar(other.skip(h)), h as nat);
            best
        } else {
            let o1 = other.take(h);
            let o2 = other.skip(h);
            assert(o1 =~= other.take(i).take(h) && u1 =~= u.take(i).take(h));
            assert(o2.take(i - h) =~= other.take(i).skip(h));
            assert(u2.take(i - h) =~= u.take(i).skip(h));
            lemma_rights(plus, llr, unit, most, u1, right);
            let b2 = lemma_sc_decides_by_cost(
                plus,
                unit,
                most,
                right,
                frozen.skip(h),
                u2,
                i - h,
                o2,
            );
            let best = u1 + b2;
            assert(best.take(h) =~= u1 && best.skip(h) =~= b2);
            assert(best.take(i) =~= u1 + b2.take(i - h));
            assert(u.take(i) =~= u1 + u2.take(i - h));
            assert forall|k: int| 0 <= k < best.len() implies #[trigger] best[k] <= 1 by {
                if k < h {
                    assert(u1[k] <= 1);
                } else {
                    assert(b2[k - h] <= 1);
                }
            }
            lemma_node(v, best);
            best
        }
    }
}

/// Successive cancellation decides bits, and zeros where positions are
/// frozen.
pub proof fn lemma_sc_bits<F: Fn(u32, u32) -> u32>(
    plus: F,
    llr: Seq<u32>,
    frozen: Seq<bool>,
    u: Seq<u8>,
)
    requires
        is_power(llr.len() as int),
        frozen.len() == llr.len(),
        sc_decides(plus, llr, frozen, u),
    ensures
        u.len() == llr.len(),
        is_bits(u),
        forall|i: int| 0 <= i < u.len() && frozen[i] ==> #[trigger] u[i] == 0,
    decreases llr.len(),
{
    if llr.len() > 1 {
        let h = llr.len() as int / 2;
        let right = choose|right: Seq<u32>| #[trigger]
            is_right_llr(plus, llr, polar(u.take(h)), right) && sc_decides(
                plus,
                right,
                frozen.skip(h),
                u.skip(h),
            );
        lemma_sc_bits(plus, left_llr(llr), frozen.take(h), u.take(h));
        lemma_sc_bits(plus, right, frozen.skip(h), u.skip(h));
        assert forall|i: int| 0 <= i < u.len() implies #[trigger] u[i] <= 1 && (frozen[i] ==> u[i]
            == 0) by {
            if i < h {
                assert(u[i] == u.take(h)[i] && frozen[i] == frozen.take(h)[i]);
            } else {
                assert(u[i] == u.skip(h)[i - h] && frozen[i] == frozen.skip(h)[i - h]);
            }
        }
    }
}

/// The combined likelihoods are in range and take no more room.
pub proof fn lemma_left_range(llr: Seq<u32>, unit: int, most: int)
    requires
        is_power(llr.len() as int),
        llr.len() > 1,
        in_range(llr, unit, most),
    ensures
        left_llr(llr).len() == llr.len() / 2,
        in_range(left_llr(llr), unit, most),
        spread(values(left_llr(llr)), llr.len() / 2) <= spread(values(llr), llr.len()),
{
    lemma_lefts(llr, unit, most);
    let w = Seq::new(llr.len(), |i: int| 0u8);
    lemma_node(values(llr), w);
}

/// The added likelihoods are in range and, with the cost of the first half,
/// take no more room.
pub proof fn lemma_right_range<F: Fn(u32, u32) -> u32>(
    plus: F,
    llr: Seq<u32>,
    unit: int,
    most: int,
    w1: Seq<u8>,
    right: Seq<u32>,
)
    requires
        is_power(llr.len() as int),
        llr.len() > 1,
        in_range(llr, unit, most),
        adds_exactly(plus, unit, most),
        w1.len() == llr.len() / 2,
        is_bits(w1),
        is_right_llr(plus, llr, polar(w1), right),
    ensures
        right.len() == llr.len() / 2,
        in_range(right, unit, most),
        word_cost(values(left_llr(llr)), polar(w1), llr.len() / 2) + spread(
            values(right),
            llr.len() / 2,
        ) <= spread(values(llr), llr.len()),
{
    lemma_rights(plus, llr, unit, most, w1, right);
}

/// The cost of a codeword splits into the costs of its halves.
pub proof fn lemma_node_costs<F: Fn(u32, u32) -> u32>(
    plus: F,
    llr: Seq<u32>,
    unit: int,
    most: int,
    w: Seq<u8>,
    right: Seq<u32>,
)
    requires
        is_power(llr.len() as int),
        llr.len() > 1,
        in_range(llr, unit, most),
        adds_exactly(plus, unit, most),
        w.len() == llr.len(),
        is_bits(w),
        is_right_llr(plus, llr, polar(w.take(llr.len() as int / 2)), right),
    ensures
        word_cost(values(llr), polar(w), llr.len()) == word_cost(
            values(left_llr(llr)),
            polar(w.take(llr.len() as int / 2)),
            llr.len() / 2,
        ) + word_cost(values(right), polar(w.skip(llr.len() as int / 2)), llr.len() / 2),
{
    let h = llr.len() as int / 2;
    lemma_half_words(w);
    lemma_lefts(llr, unit, most);
    lemma_rights(plus, llr, unit, most, w.take(h), right);
    lemma_node(values(llr), w);
}

/// Every binary digit of `j` that is one is one in `i`.
pub open spec fn covers(i: int, j: int) -> bool
    decreases j,
{
    j <= 0 || (i % 2 >= j % 2 && covers(i / 2, j / 2))
}

/// How many of the first `n` bits are one at a position that covers `j`.
pub open spec fn ones_covering(u: Seq<u8>, j: int, n: nat) -> nat
    decreases n,
{
    if n == 0 {
        0
    } else {
        ones_covering(u, j, (n - 1) as nat) + if u[n - 1] == 1 && covers(n - 1, j) {
            1nat
        } else {
            0nat
        }
    }
}

proof fn lemma_covers(i: int, j: int, h: int)
    requires
        is_power(h),
        0 <= i < h,
        0 <= j < h,
    ensures
        covers(h + i, h + j) == covers(i, j),
        covers(h + i, j) == covers(i, j),
        !covers(i, h + j),
    decreases h,
{
    if h == 1 {
        assert(covers(1, 1) == (1int % 2 >= 1int % 2 && covers(0, 0)));
        assert(covers(0, 1) == (0int % 2 >= 1int % 2 && covers(0, 0)));
    } else {
        let g = h / 2;
        lemma_covers(i / 2, j / 2, g);
        assert((h + i) / 2 == g + i / 2 && (h + j) / 2 == g + j / 2);
        assert((h + i) % 2 == i % 2 && (h + j) % 2 == j % 2);
    }
}

proof fn lemma_ones_covering(u: Seq<u8>, j: int, h: int, k: nat)
    requires
        is_power(h),
        u.len() == 2 * h,
        0 <= j < h,
        k <= h,
    ensures
        ones_covering(u, j, k) == ones_covering(u.take(h), j, k),
        ones_covering(u, h + j, k) == 0,
        ones_covering(u, j, (h + k) as nat) == ones_covering(u, j, h as nat) + ones_covering(
            u.skip(h),
            j,
            k,
        ),
        ones_covering(u, h + j, (h + k) as nat) == ones_covering(u, h + j, h as nat)
            + ones_covering(u.skip(h), j, k),
    decreases k,
{
    if k > 0 {
        lemma_ones_covering(u, j, h, (k - 1) as nat);
        lemma_covers(k - 1, j, h);
        assert(u.skip(h)[k - 1] == u[h + k - 1]);
        assert(u.take(h)[k - 1] == u[k - 1]);
    }
}

/// The transform by its matrix: bit `j` of a codeword is the parity of the
/// input bits at the positions that cover `j`.
pub proof fn lemma_polar_matrix(u: Seq<u8>, j: int)
    requires
        is_power(u.len() as int),
        is_bits(u),
        0 <= j < u.len(),
    ensures
        polar(u)[j] as int == ones_covering(u, j, u.len()) as int % 2,
    decreases u.len(),
{
    if u.len() == 1 {
        assert(u[0] <= 1);
        assert(covers(0, 0));
        assert(ones_covering(u, 0, 1) == ones_covering(u, 0, 0) + if u[0] == 1 && covers(0, 0) {
            1nat
        } else {
            0nat
        });
    } else {
        let h = u.len() as int / 2;
        lemma_half_words(u);
        let a = polar(u.take(h));
        let b = polar(u.skip(h));
        let k = if j < h {
            j
        } else {
            j - h
        };
        lemma_polar_matrix(u.take(h), k);
        lemma_polar_matrix(u.skip(h), k);
        lemma_ones_covering(u, k, h, h as nat);
        assert(a[k] <= 1 && b[k] <= 1);
        lemma_xor_bits(a[k], b[k]);
        assert(polar(u)[j] == (if j < h {
            a[k] ^ b[k]
        } else {
            b[k]
        }));
    }
}

} // verus!
