//! The reliability order of the positions of polar codes: a table up to
//! length 1024, and polarization weights above.

use crate::reliability_table::{
    entry_of,
    lemma_last_rank,
    lemma_rank,
    lemma_root_positive,
    polarization,
    rank_of,
    reliability_entry,
    scaled_root,
};
use vstd::arithmetic::div_mod::{lemma_basic_div, lemma_fundamental_div_mod_converse};
use vstd::arithmetic::power2::{
    lemma2_to64, lemma2_to64_rest, lemma_pow2_adds, lemma_pow2_pos, lemma_pow2_strictly_increases,
    lemma_pow2_unfold, pow2,
};
use vstd::bits::{
    lemma_low_bits_mask_values, lemma_u64_low_bits_mask_is_mod, lemma_u64_shr_is_div, low_bits_mask,
};
use vstd::prelude::*;

verus! {

/// Polarization weight of a position: the sum of `2^(b/4)` over the set bits
/// `b` below `n`, scaled by `2^48`.
pub open spec fn polarization_weight(i: u64, n: nat) -> nat
    decreases n,
{
    if n == 0 {
        0
    } else {
        polarization_weight(i, (n - 1) as nat) + if (i >> ((n - 1) as u64)) & 1 == 1 {
            scaled_root(n - 1)
        } else {
            0
        }
    }
}

/// In a code of length `n`, position `a` is less reliable than position `b`.
pub open spec fn precedes(n: nat, a: int, b: int) -> bool {
    if n <= 1024 {
        rank_of(a) < rank_of(b)
    } else {
        let wa = polarization_weight(a as u64, 64);
        let wb = polarization_weight(b as u64, 64);
        wa < wb || (wa == wb && a < b)
    }
}

/// All positions of a code of length `n`, the least reliable first.
pub open spec fn is_reliability_order(n: nat, order: Seq<usize>) -> bool {
    &&& order.len() == n
    &&& forall|i: int| 0 <= i < n ==> #[trigger] order[i] < n
    &&& forall|i: int, j: int|
        0 <= i < j < n ==> precedes(n, #[trigger] order[i] as int, #[trigger] order[j] as int)
}

/// The mask of frozen positions: all but the `k` most reliable ones.
pub open spec fn is_frozen_mask(n: nat, k: nat, mask: Seq<bool>) -> bool {
    mask.len() == n && exists|order: Seq<usize>| #[trigger]
        is_reliability_order(n, order) && forall|i: int|
            0 <= i < n ==> mask[#[trigger] order[i] as int] == (i < n - k)
}

/// Number of positions below `n` that are not frozen.
pub open spec fn free_below(mask: Seq<bool>, n: int) -> nat
    decreases n,
{
    if n <= 0 {
        0
    } else {
        free_below(mask, n - 1) + if mask[n - 1] {
            0nat
        } else {
            1nat
        }
    }
}

proof fn lemma_free_all(mask: Seq<bool>, n: int)
    requires
        0 <= n <= mask.len(),
        forall|i: int| 0 <= i < n ==> mask[i],
    ensures
        free_below(mask, n) == 0,
    decreases n,
{
    if n > 0 {
        lemma_free_all(mask, n - 1);
    }
}

proof fn lemma_free_one(mask: Seq<bool>, at: int, n: int)
    requires
        0 <= n <= mask.len(),
        0 <= at < mask.len(),
        mask[at],
    ensures
        free_below(mask.update(at, false), n) == free_below(mask, n) + if at < n {
            1nat
        } else {
            0nat
        },
    decreases n,
{
    if n > 0 {
        lemma_free_one(mask, at, n - 1);
    }
}

/// Number of table entries from `r` on that are below `n`.
pub open spec fn entries_from(n: int, r: int) -> nat
    decreases 1024 - r,
{
    if r >= 1024 {
        0
    } else {
        entries_from(n, r + 1) + if entry_of(r) < n {
            1nat
        } else {
            0nat
        }
    }
}

/// Number of positions below `m` with rank at least `r`.
spec fn ranks_from(m: int, r: int) -> nat
    decreases m,
{
    if m <= 0 {
        0
    } else {
        ranks_from(m - 1, r) + if rank_of(m - 1) >= r {
            1nat
        } else {
            0nat
        }
    }
}

proof fn lemma_ranks_step(m: int, r: int)
    requires
        0 <= m <= 1024,
        0 <= r < 1024,
    ensures
        ranks_from(m, r) == ranks_from(m, r + 1) + if entry_of(r) < m {
            1nat
        } else {
            0nat
        },
    decreases m,
{
    lemma_rank(r);
    if m > 0 {
        lemma_ranks_step(m - 1, r);
        lemma_rank(m - 1);
    }
}

proof fn lemma_ranks_extreme(m: int)
    requires
        0 <= m <= 1024,
    ensures
        ranks_from(m, 0) == m,
        ranks_from(m, 1024) == 0,
    decreases m,
{
    if m > 0 {
        lemma_ranks_extreme(m - 1);
        lemma_rank(m - 1);
    }
}

proof fn lemma_entries(n: int, r: int)
    requires
        0 <= n <= 1024,
        0 <= r <= 1024,
    ensures
        entries_from(n, r) == ranks_from(n, r),
    decreases 1024 - r,
{
    if r < 1024 {
        lemma_entries(n, r + 1);
        lemma_ranks_step(n, r);
    } else {
        lemma_ranks_extreme(n);
    }
}

/// The entries of the table below `n`, in order.
fn order_from_table(n: usize) -> (order: Vec<usize>)
    requires
        n <= 1024,
    ensures
        is_reliability_order(n as nat, order@),
{
    let mut order: Vec<usize> = Vec::new();
    let mut j: usize = 0;
    proof {
        lemma_entries(n as int, 0);
        lemma_ranks_extreme(n as int);
    }
    while j < 1024
        invariant
            n <= 1024,
            j <= 1024,
            order@.len() + entries_from(n as int, j as int) == n,
            forall|i: int| 0 <= i < order@.len() ==> #[trigger] order@[i] < n,
            forall|i: int|
                0 <= i < order@.len() ==> rank_of(#[trigger] order@[i] as int) < j,
            forall|a: int, b: int|
                0 <= a < b < order@.len() ==> rank_of(#[trigger] order@[a] as int)
                    < rank_of(#[trigger] order@[b] as int),
        decreases 1024 - j,
    {
        let p: usize = reliability_entry(j);
        proof {
            lemma_rank(j as int);
        }
        if p < n {
            order.push(p);
        }
        j = j + 1;
    }
    order
}

fn weight_of(i: u64) -> (w: u128)
    ensures
        w == polarization_weight(i, 64),
{
    let mut w: u128 = 0;
    let mut b: u64 = 0;
    while b < 64
        invariant
            b <= 64,
            w == polarization_weight(i, b as nat),
            w <= b * 0x1_0000_0000_0000_0000,
        decreases 64 - b,
    {
        let root: u64 = polarization(b as usize);
        if (i >> b) & 1 == 1 {
            w = w + root as u128;
        }
        b = b + 1;
    }
    w
}

/// The positions from `lo` to `hi`, in order of their weights.
fn order_by_weight(n: usize, weights: &Vec<u128>, lo: usize, hi: usize) -> (order: Vec<usize>)
    requires
        n > 1024,
        lo < hi <= n,
        weights@.len() == n,
        forall|i: int|
            0 <= i < n ==> #[trigger] weights@[i] == polarization_weight(i as u64, 64),
    ensures
        order@.len() == hi - lo,
        forall|i: int| 0 <= i < order@.len() ==> lo <= #[trigger] order@[i] < hi,
        forall|i: int, j: int|
            0 <= i < j < order@.len() ==> precedes(
                n as nat,
                #[trigger] order@[i] as int,
                #[trigger] order@[j] as int,
            ),
    decreases hi - lo,
{
    if hi - lo == 1 {
        let mut single: Vec<usize> = Vec::new();
        single.push(lo);
        return single;
    }
    let mid: usize = lo + (hi - lo) / 2;
    let a: Vec<usize> = order_by_weight(n, weights, lo, mid);
    let b: Vec<usize> = order_by_weight(n, weights, mid, hi);
    let mut order: Vec<usize> = Vec::new();
    let mut i: usize = 0;
    let mut j: usize = 0;
    while i < a.len() || j < b.len()
        invariant
            n > 1024,
            lo < mid < hi <= n,
            weights@.len() == n,
            forall|k: int|
                0 <= k < n ==> #[trigger] weights@[k] == polarization_weight(k as u64, 64),
            a@.len() == mid - lo,
            b@.len() == hi - mid,
            i <= a@.len(),
            j <= b@.len(),
            order@.len() == i + j,
            forall|k: int| 0 <= k < a@.len() ==> lo <= #[trigger] a@[k] < mid,
            forall|k: int| 0 <= k < b@.len() ==> mid <= #[trigger] b@[k] < hi,
            forall|x: int, y: int|
                0 <= x < y < a@.len() ==> precedes(
                    n as nat,
                    #[trigger] a@[x] as int,
                    #[trigger] a@[y] as int,
                ),
            forall|x: int, y: int|
                0 <= x < y < b@.len() ==> precedes(
                    n as nat,
                    #[trigger] b@[x] as int,
                    #[trigger] b@[y] as int,
                ),
            forall|k: int| 0 <= k < order@.len() ==> lo <= #[trigger] order@[k] < hi,
            forall|x: int, y: int|
                0 <= x < y < order@.len() ==> precedes(
                    n as nat,
                    #[trigger] order@[x] as int,
                    #[trigger] order@[y] as int,
                ),
            forall|x: int, y: int|
                0 <= x < order@.len() && i <= y < a@.len() ==> precedes(
                    n as nat,
                    #[trigger] order@[x] as int,
                    #[trigger] a@[y] as int,
                ),
            forall|x: int, y: int|
                0 <= x < order@.len() && j <= y < b@.len() ==> precedes(
                    n as nat,
                    #[trigger] order@[x] as int,
                    #[trigger] b@[y] as int,
                ),
        decreases a@.len() - i + b@.len() - j,
    {
        let from_a: bool = if i >= a.len() {
            false
        } else if j >= b.len() {
            true
        } else {
            let p: usize = a[i];
            let q: usize = b[j];
            assert(a@[i as int] < mid && b@[j as int] >= mid);
            weights[p] <= weights[q]
        };
        if from_a {
            let ghost p = a@[i as int];
            assert(j < b@.len() ==> precedes(n as nat, p as int, b@[j as int] as int));
            order.push(a[i]);
            i = i + 1;
        } else {
            let ghost q = b@[j as int];
            assert(i < a@.len() ==> precedes(n as nat, q as int, a@[i as int] as int));
            order.push(b[j]);
            j = j + 1;
        }
    }
    order
}

/// The positions of a code of length `n`, the least reliable first.
pub fn reliability_order(n: usize) -> (order: Vec<usize>)
    requires
        1 <= n,
    ensures
        is_reliability_order(n as nat, order@),
{
    if n <= 1024 {
        return order_from_table(n);
    }
    let mut weights: Vec<u128> = Vec::new();
    let mut i: usize = 0;
    while i < n
        invariant
            i <= n,
            weights@.len() == i,
            forall|k: int|
                0 <= k < i ==> #[trigger] weights@[k] == polarization_weight(k as u64, 64),
        decreases n - i,
    {
        weights.push(weight_of(i as u64));
        i = i + 1;
    }
    order_by_weight(n, &weights, 0, n)
}

/// The mask that freezes all but the `k` most reliable positions.
pub fn frozen_mask(n: usize, k: usize) -> (mask: Vec<bool>)
    requires
        1 <= n,
        k <= n,
    ensures
        is_frozen_mask(n as nat, k as nat, mask@),
        free_below(mask@, n as int) == k,
{
    let order: Vec<usize> = reliability_order(n);
    let mut mask: Vec<bool> = Vec::new();
    let mut i: usize = 0;
    while i < n
        invariant
            i <= n,
            mask@.len() == i,
            forall|j: int| 0 <= j < i ==> mask@[j],
        decreases n - i,
    {
        mask.push(true);
        i = i + 1;
    }
    proof {
        lemma_free_all(mask@, n as int);
    }
    let mut t: usize = n - k;
    while t < n
        invariant
            n - k <= t <= n,
            k <= n,
            mask@.len() == n,
            is_reliability_order(n as nat, order@),
            free_below(mask@, n as int) == t - (n - k),
            forall|j: int|
                0 <= j < n ==> mask@[#[trigger] order@[j] as int] == (j < n - k || j >= t),
        decreases n - t,
    {
        let p: usize = order[t];
        let ghost before = mask@;
        proof {
            assert(before[order@[t as int] as int]);
            lemma_free_one(before, p as int, n as int);
        }
        mask.set(p, false);
        proof {
            assert forall|j: int| 0 <= j < n implies mask@[#[trigger] order@[j] as int] == (j < n
                - k || j >= t + 1) by {
                assert(before[order@[j] as int] == (j < n - k || j >= t));
                if j != t {
                    assert(order@[j] != p) by {
                        if j < t {
                            assert(precedes(n as nat, order@[j] as int, order@[t as int] as int));
                        } else {
                            assert(precedes(n as nat, order@[t as int] as int, order@[j] as int));
                        }
                    }
                }
            }
        }
        t = t + 1;
    }
    mask
}

/// The order of two positions is strict.
proof fn lemma_precedes(n: nat, a: int, b: int)
    ensures
        !(precedes(n, a, b) && precedes(n, b, a)),
{
}

/// Every position stands in a reliability order, and only once.
proof fn lemma_order_covers(n: nat, order: Seq<usize>, p: int) -> (i: int)
    requires
        is_reliability_order(n, order),
        0 <= p < n,
    ensures
        0 <= i < n,
        order[i] == p,
{
    let at = Seq::new(n, |i: int| order[i] as int);
    assert forall|i: int, j: int| 0 <= i < n && 0 <= j < n && i != j implies at[i] != at[j] by {
        if i < j {
            assert(precedes(n, order[i] as int, order[j] as int));
            lemma_precedes(n, order[i] as int, order[j] as int);
        } else {
            assert(precedes(n, order[j] as int, order[i] as int));
            lemma_precedes(n, order[j] as int, order[i] as int);
        }
    }
    at.unique_seq_to_set();
    let all = vstd::set_lib::set_int_range(0, n as int);
    vstd::set_lib::lemma_int_range(0, n as int);
    assert forall|x: int| at.to_set().contains(x) implies all.contains(x) by {
        let i = choose|i: int| 0 <= i < n && at[i] == x;
        assert(order[i] < n);
    }
    vstd::set_lib::lemma_subset_equality(at.to_set(), all);
    assert(all.contains(p));
    assert(at.contains(p));
    choose|i: int| 0 <= i < n && at[i] == p
}

/// Two reliability orders of one length begin alike.
proof fn lemma_orders_agree(n: nat, a: Seq<usize>, b: Seq<usize>, m: nat)
    requires
        is_reliability_order(n, a),
        is_reliability_order(n, b),
        m <= n,
    ensures
        forall|i: int| 0 <= i < m ==> a[i] == b[i],
    decreases m,
{
    if m > 0 {
        let i = m - 1;
        lemma_orders_agree(n, a, b, i as nat);
        let j = lemma_order_covers(n, a, b[i] as int);
        let l = lemma_order_covers(n, b, a[i] as int);
        if j < i {
            assert(a[j] == b[j]);
            assert(precedes(n, b[j] as int, b[i] as int));
        } else if l < i {
            assert(a[l] == b[l]);
            assert(precedes(n, a[l] as int, a[i] as int));
        } else if i < j && i < l {
            assert(precedes(n, a[i] as int, a[j] as int));
            assert(precedes(n, b[i] as int, b[l] as int));
            lemma_precedes(n, a[i] as int, b[i] as int);
        }
    }
}

/// Only one order of the positions of a code is a reliability order.
pub proof fn lemma_order_unique(n: nat, a: Seq<usize>, b: Seq<usize>)
    requires
        is_reliability_order(n, a),
        is_reliability_order(n, b),
    ensures
        a == b,
{
    lemma_orders_agree(n, a, b, n);
    assert(a =~= b);
}

/// Only one mask freezes all but the `k` most reliable of `n` positions.
pub proof fn lemma_mask_unique(n: nat, k: nat, a: Seq<bool>, b: Seq<bool>)
    requires
        is_frozen_mask(n, k, a),
        is_frozen_mask(n, k, b),
    ensures
        a == b,
{
    let x = choose|order: Seq<usize>| #[trigger]
        is_reliability_order(n, order) && forall|i: int|
            0 <= i < n ==> a[#[trigger] order[i] as int] == (i < n - k);
    let y = choose|order: Seq<usize>| #[trigger]
        is_reliability_order(n, order) && forall|i: int|
            0 <= i < n ==> b[#[trigger] order[i] as int] == (i < n - k);
    lemma_order_unique(n, x, y);
    assert forall|p: int| 0 <= p < n implies a[p] == b[p] by {
        let i = lemma_order_covers(n, x, p);
        assert(a[x[i] as int] == (i < n - k) && b[y[i] as int] == (i < n - k));
    }
    assert(a =~= b);
}

/// A code with more information bits frees every position that one with
/// fewer frees.
pub proof fn lemma_masks_nested(n: nat, k: nat, l: nat, a: Seq<bool>, b: Seq<bool>, p: int)
    requires
        k <= l,
        is_frozen_mask(n, k, a),
        is_frozen_mask(n, l, b),
        0 <= p < n,
        !a[p],
    ensures
        !b[p],
{
    let x = choose|order: Seq<usize>| #[trigger]
        is_reliability_order(n, order) && forall|i: int|
            0 <= i < n ==> a[#[trigger] order[i] as int] == (i < n - k);
    let y = choose|order: Seq<usize>| #[trigger]
        is_reliability_order(n, order) && forall|i: int|
            0 <= i < n ==> b[#[trigger] order[i] as int] == (i < n - l);
    lemma_order_unique(n, x, y);
    let i = lemma_order_covers(n, x, p);
    assert(a[x[i] as int] == (i < n - k) && b[y[i] as int] == (i < n - l));
}

/// Where no entry of the table between two ranks is below `n`, as many
/// positions have at least the one rank as have at least the other.
proof fn lemma_ranks_gap(n: int, lo: int, hi: int)
    requires
        0 <= n <= 1024,
        0 <= lo <= hi <= 1024,
        forall|r: int| lo <= r < hi ==> #[trigger] entry_of(r) >= n,
    ensures
        ranks_from(n, lo) == ranks_from(n, hi),
    decreases hi - lo,
{
    if lo < hi {
        assert(entry_of(lo) >= n);
        lemma_ranks_step(n, lo);
        lemma_ranks_gap(n, lo + 1, hi);
    }
}

proof fn lemma_ranks_of_order(n: nat, order: Seq<usize>, i: int)
    requires
        n <= 1024,
        is_reliability_order(n, order),
        0 <= i < n,
    ensures
        ranks_from(n as int, rank_of(order[i] as int)) == n - i,
    decreases n - i,
{
    let r = rank_of(order[i] as int);
    lemma_rank(order[i] as int);
    lemma_ranks_step(n as int, r);
    let next = if i + 1 < n {
        rank_of(order[i + 1] as int)
    } else {
        1024
    };
    if i + 1 < n {
        lemma_ranks_of_order(n, order, i + 1);
        lemma_rank(order[i + 1] as int);
        assert(precedes(n, order[i] as int, order[i + 1] as int));
    } else {
        lemma_ranks_extreme(n as int);
    }
    assert forall|s: int| r + 1 <= s < next implies #[trigger] entry_of(s) >= n by {
        lemma_rank(s);
        if entry_of(s) < n {
            let j = lemma_order_covers(n, order, entry_of(s));
            if j < i {
                assert(precedes(n, order[j] as int, order[i] as int));
            } else if i + 1 < j {
                assert(precedes(n, order[i + 1] as int, order[j] as int));
            }
        }
    }
    lemma_ranks_gap(n as int, r + 1, next);
}

/// Up to length 1024 the free positions are the last `k` entries of the
/// table that are below the length.
pub proof fn lemma_mask_by_table(n: nat, k: nat, mask: Seq<bool>, r: int)
    requires
        n <= 1024,
        is_frozen_mask(n, k, mask),
        0 <= r < 1024,
        entry_of(r) < n,
    ensures
        mask[entry_of(r)] == (entries_from(n as int, r) > k),
{
    let x = choose|order: Seq<usize>| #[trigger]
        is_reliability_order(n, order) && forall|i: int|
            0 <= i < n ==> mask[#[trigger] order[i] as int] == (i < n - k);
    lemma_rank(r);
    let i = lemma_order_covers(n, x, entry_of(r));
    assert(mask[x[i] as int] == (i < n - k));
    lemma_ranks_of_order(n, x, i);
    lemma_entries(n as int, r);
}

/// The low bit of a number shifted right, by arithmetic.
proof fn lemma_digit_at(i: u64, b: nat)
    requires
        b < 64,
    ensures
        ((i >> (b as u64)) & 1) as int == (i as int / pow2(b) as int) % 2,
{
    lemma_u64_shr_is_div(i, b as u64);
    lemma_u64_low_bits_mask_is_mod(i >> (b as u64), 1);
    lemma2_to64();
    assert(low_bits_mask(1) == 1) by {
        lemma_low_bits_mask_values();
    }
}

/// All digits of one less than a power of two are ones, and no smaller
/// number has more digits.
proof fn lemma_digits_of_last(m: nat, q: int, b: nat)
    requires
        m < 64,
        0 <= q < pow2(m),
        b < 64,
    ensures
        (q / pow2(b) as int) % 2 <= ((pow2(m) - 1) / pow2(b) as int) % 2,
{
    lemma_pow2_pos(b);
    lemma_pow2_pos(m);
    if b < m {
        let c = (m - b) as nat;
        lemma_pow2_adds(b, c);
        lemma_pow2_pos(c);
        lemma_pow2_unfold(c);
        let p = pow2(b) as int;
        let r = pow2(c) as int;
        let half = pow2((c - 1) as nat) as int;
        assert(pow2(m) - 1 == (r - 1) * p + (p - 1)) by (nonlinear_arith)
            requires
                pow2(m) == p * r,
        ;
        lemma_fundamental_div_mod_converse(pow2(m) - 1, p, r - 1, p - 1);
        assert(r - 1 == 2 * (half - 1) + 1);
    } else {
        if m < b {
            lemma_pow2_strictly_increases(m, b);
        }
        lemma_basic_div(q, pow2(b) as int);
        lemma_basic_div(pow2(m) - 1, pow2(b) as int);
    }
}

proof fn lemma_last_weight(m: nat, q: int, n: nat)
    requires
        m < 64,
        0 <= q < pow2(m),
        pow2(m) <= 0x8000_0000_0000_0000,
        n <= 64,
    ensures
        polarization_weight(q as u64, n) <= polarization_weight((pow2(m) - 1) as u64, n),
    decreases n,
{
    if n > 0 {
        lemma_last_weight(m, q, (n - 1) as nat);
        lemma_digits_of_last(m, q, (n - 1) as nat);
        lemma_digit_at(q as u64, (n - 1) as nat);
        lemma_digit_at((pow2(m) - 1) as u64, (n - 1) as nat);
    }
}

/// The last position of every code is its most reliable one: a code with any
/// information bit frees it.
pub proof fn lemma_last_free(m: nat, k: nat, mask: Seq<bool>)
    requires
        m < 64,
        1 <= k,
        is_frozen_mask(pow2(m), k, mask),
    ensures
        !mask.last(),
{
    let n = pow2(m);
    lemma_pow2_pos(m);
    let x = choose|order: Seq<usize>| #[trigger]
        is_reliability_order(n, order) && forall|i: int|
            0 <= i < n ==> mask[#[trigger] order[i] as int] == (i < n - k);
    let i = lemma_order_covers(n, x, n - 1);
    assert(mask[x[i] as int] == (i < n - k));
    if i < n - 1 {
        let q = x[i + 1] as int;
        assert(precedes(n, n - 1, q)) by {
            assert(precedes(n, x[i] as int, x[i + 1] as int));
        }
        assert(x[i + 1] < n);
        lemma2_to64();
        if m > 10 {
            lemma_pow2_strictly_increases(10, m);
            if m < 63 {
                lemma_pow2_strictly_increases(m, 63);
            }
            lemma2_to64_rest();
            lemma_last_weight(m, q, 64);
        } else {
            assert(m == 0 || m == 1 || m == 2 || m == 3 || m == 4 || m == 5 || m == 6 || m == 7 || m
                == 8 || m == 9 || m == 10);
            lemma_last_rank(n as int, q);
        }
    }
}

/// Binary digit `k` of a position.
pub open spec fn digit_of(i: int, k: nat) -> int {
    (i / pow2(k) as int) % 2
}

proof fn lemma_weight_grows(a: u64, b: u64, j: nat, n: nat)
    requires
        n <= 64,
        j < 64,
        forall|k: nat| k < 64 ==> #[trigger] digit_of(a as int, k) <= digit_of(b as int, k),
        digit_of(a as int, j) < digit_of(b as int, j),
    ensures
        polarization_weight(a, n) <= polarization_weight(b, n),
        j < n ==> polarization_weight(a, n) < polarization_weight(b, n),
    decreases n,
{
    if n > 0 {
        let k = (n - 1) as nat;
        lemma_weight_grows(a, b, j, k);
        lemma_digit_at(a, k);
        lemma_digit_at(b, k);
        lemma_root_positive(k as int);
        assert(digit_of(a as int, k) <= digit_of(b as int, k));
    }
}

/// In a code longer than the table, a position whose digits include those of
/// another, and one more, is more reliable.
pub proof fn lemma_more_digits(n: nat, a: int, b: int, j: nat)
    requires
        1024 < n,
        0 <= a <= u64::MAX,
        0 <= b <= u64::MAX,
        j < 64,
        forall|k: nat| k < 64 ==> #[trigger] digit_of(a, k) <= digit_of(b, k),
        digit_of(a, j) < digit_of(b, j),
    ensures
        precedes(n, a, b),
{
    lemma_weight_grows(a as u64, b as u64, j, 64);
}

} // verus!
