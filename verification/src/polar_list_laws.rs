//! What list decoding of a polar code is for: the metric of a path is the
//! cost of its codeword, and of the paths that are left the cheapest is
//! chosen, among those that pass the check where there is one.

use crate::bits::{is_bits, lemma_low_bit, lemma_low_bits};
use crate::crc::{checks, CrcKind};
use crate::numbers::{
    absolute, adds_exactly, against, lemma_amount_order, lemma_penalty_value, lemma_value,
    lemma_whole_penalty, value, whole,
};
use crate::polar::{
    gathered, is_chosen, is_power, left_llr, lemma_gather_placed, lemma_placed, passes, placed,
    polar, respects, sc_decides, scl_decoded, PolarDecoder,
};
use crate::polar_laws::{
    cost_of, in_range, lemma_left_range, lemma_node_costs, lemma_right_range, lemma_sc_bits,
    lemma_sc_decides_by_cost, spread, values, word_cost,
};
use crate::polar_list::{
    all_close, all_fork, all_open, all_turn, close, comes_first, extends, first_list, forks_at,
    is_metric_order, is_pruned, kept, metrics_of, open_left, recent, scl_decides, turns, PathView,
};
use crate::reliability::{free_below, lemma_last_free};
use crate::soft::{lemma_patterns, penalty};
use vstd::arithmetic::power2::{
    lemma2_to64, lemma2_to64_rest, lemma_pow2_adds, lemma_pow2_pos, lemma_pow2_strictly_increases,
    lemma_pow2_unfold, pow2,
};
use vstd::prelude::*;

verus! {

/// A sum of numbers without a sign has none.
pub open spec fn adds_plainly<F: Fn(u32, u32) -> u32>(plus: F, unit: int) -> bool {
    forall|a: u32, b: u32, c: u32|
        #[trigger] call_ensures(plus, (a, b), c) && whole(a, unit) && whole(b, unit) && a
            < 0x8000_0000 && b < 0x8000_0000 ==> c < 0x8000_0000
}

/// A path whose innermost node has `n` likelihoods, with room for their
/// costs.
pub open spec fn ready(p: PathView, n: nat, unit: int, most: int) -> bool {
    &&& p.levels.len() >= 1
    &&& p.levels.last().len() == n
    &&& in_range(p.levels.last(), unit, most)
    &&& whole(p.metric, unit)
    &&& p.metric < 0x8000_0000
    &&& value(p.metric) + spread(values(p.levels.last()), n) <= most
}

/// `q` is `p` with the bits of `w`, which are zero where positions are
/// frozen, and with the cost of their codeword.
pub open spec fn costs_more(p: PathView, frozen: Seq<bool>, w: Seq<u8>, q: PathView) -> bool {
    &&& w.len() == frozen.len()
    &&& is_bits(w)
    &&& respects(frozen, w)
    &&& q.decoded == p.decoded + w
    &&& q.levels == p.levels
    &&& value(q.metric) == value(p.metric) + word_cost(
        values(p.levels.last()),
        polar(w),
        frozen.len(),
    )
}

proof fn lemma_extended<F: Fn(u32, u32) -> u32>(
    plus: F,
    unit: int,
    most: int,
    frozen: Seq<bool>,
    p: PathView,
    bit: u8,
    q: PathView,
)
    requires
        adds_exactly(plus, unit, most),
        adds_plainly(plus, unit),
        ready(p, 1, unit, most),
        bit <= 1,
        frozen.len() == 1,
        frozen[0] ==> bit == 0,
        extends(plus, p, bit, q),
    ensures
        costs_more(p, frozen, seq![bit], q),
        whole(q.metric, unit),
        q.metric < 0x8000_0000,
{
    let w = seq![bit];
    let l = p.levels.last()[0];
    let v = values(p.levels.last());
    assert(whole(l, unit));
    lemma_whole_penalty(l, bit, unit);
    lemma_penalty_value(l, bit);
    lemma_patterns(l, 0);
    lemma_value(p.metric);
    assert(polar(w) == w);
    assert(spread(v, 1) == spread(v, 0) + absolute(v[0]));
    assert(word_cost(v, w, 1) == word_cost(v, w, 0) + against(v[0], w[0]));
    assert(penalty(l, bit) < 0x8000_0000);
    assert(p.decoded.push(bit) =~= p.decoded + w);
}

/// Every path of a list comes from one of the list before, by the bits of
/// some word, and its metric has grown by the cost of that word's codeword.
pub proof fn lemma_list_costs<F: Fn(u32, u32) -> u32>(
    plus: F,
    unit: int,
    most: int,
    frozen: Seq<bool>,
    size: nat,
    before: Seq<PathView>,
    after: Seq<PathView>,
    k: int,
) -> (r: (int, Seq<u8>))
    requires
        is_power(frozen.len() as int),
        adds_exactly(plus, unit, most),
        adds_plainly(plus, unit),
        scl_decides(plus, frozen, size, before, after),
        forall|b: int|
            0 <= b < before.len() ==> ready(#[trigger] before[b], frozen.len(), unit, most),
        0 <= k < after.len(),
    ensures
        0 <= r.0 < before.len(),
        costs_more(before[r.0], frozen, r.1, after[k]),
        whole(after[k].metric, unit),
        after[k].metric < 0x8000_0000,
    decreases frozen.len(),
{
    let n = frozen.len();
    if n == 1 {
        if frozen[0] {
            assert(extends(plus, before[k], 0, after[k]));
            lemma_extended(plus, unit, most, frozen, before[k], 0, after[k]);
            (k, seq![0u8])
        } else {
            let forks = choose|forks: Seq<PathView>| #[trigger]
                all_fork(plus, before, forks) && is_pruned(forks, size, after);
            let order = choose|order: Seq<usize>| #[trigger]
                is_metric_order(metrics_of(forks), order) && after == kept(forks, order, size);
            let o = order[k] as int;
            let b = o / 2;
            assert(o < forks.len());
            assert(forks_at(plus, before, forks, b));
            let bit: u8 = if o % 2 == 0 {
                0
            } else {
                1
            };
            assert(after[k] == forks[o]);
            lemma_extended(plus, unit, most, frozen, before[b], bit, after[k]);
            (b, seq![bit])
        }
    } else {
        let h = n as int / 2;
        let (mid, turned, end) = choose|
            mid: Seq<PathView>,
            turned: Seq<PathView>,
            end: Seq<PathView>,
        |
            #![trigger all_turn(plus, mid, h, turned), all_close(end)]
            {
                &&& scl_decides(plus, frozen.take(h), size, all_open(before), mid)
                &&& all_turn(plus, mid, h, turned)
                &&& scl_decides(plus, frozen.skip(h), size, turned, end)
                &&& after == all_close(end)
            };
        let opened = all_open(before);
        assert forall|b: int| 0 <= b < opened.len() implies ready(
            #[trigger] opened[b],
            h as nat,
            unit,
            most,
        ) by {
            assert(ready(before[b], n, unit, most));
            lemma_left_range(before[b].levels.last(), unit, most);
            assert(opened[b].levels.last() == left_llr(before[b].levels.last()));
        }
        assert forall|t: int| 0 <= t < turned.len() implies ready(
            #[trigger] turned[t],
            h as nat,
            unit,
            most,
        ) by {
            let (b, w) = lemma_list_costs(
                plus,
                unit,
                most,
                frozen.take(h),
                size,
                opened,
                mid,
                t,
            );
            lemma_turned(plus, unit, most, frozen, before[b], opened[b], w, mid[t], turned[t]);
        }
        let (t, w2) = lemma_list_costs(
            plus,
            unit,
            most,
            frozen.skip(h),
            size,
            turned,
            end,
            k,
        );
        let (b, w1) = lemma_list_costs(plus, unit, most, frozen.take(h), size, opened, mid, t);
        lemma_turned(plus, unit, most, frozen, before[b], opened[b], w1, mid[t], turned[t]);
        let w = w1 + w2;
        assert(w.take(h) =~= w1 && w.skip(h) =~= w2);
        assert forall|i: int| 0 <= i < w.len() implies #[trigger] w[i] <= 1 && (frozen[i] ==> w[i]
            == 0) by {
            if i < h {
                assert(w1[i] <= 1 && frozen.take(h)[i] == frozen[i]);
            } else {
                assert(w2[i - h] <= 1 && frozen.skip(h)[i - h] == frozen[i]);
            }
        }
        lemma_node_costs(
            plus,
            before[b].levels.last(),
            unit,
            most,
            w,
            turned[t].levels.last(),
        );
        let q = after[k];
        assert(q == close(end[k]));
        assert(q.decoded =~= before[b].decoded + w);
        assert(q.levels =~= before[b].levels);
        (b, w)
    }
}

/// A path turned to its second half is ready for it.
proof fn lemma_turned<F: Fn(u32, u32) -> u32>(
    plus: F,
    unit: int,
    most: int,
    frozen: Seq<bool>,
    start: PathView,
    opened: PathView,
    w: Seq<u8>,
    mid: PathView,
    turned: PathView,
)
    requires
        is_power(frozen.len() as int),
        frozen.len() > 1,
        adds_exactly(plus, unit, most),
        ready(start, frozen.len(), unit, most),
        opened == open_left(start),
        costs_more(opened, frozen.take(frozen.len() as int / 2), w, mid),
        whole(mid.metric, unit),
        mid.metric < 0x8000_0000,
        turns(plus, mid, frozen.len() as int / 2, turned),
    ensures
        ready(turned, frozen.len() / 2, unit, most),
        turned.levels.drop_last() == start.levels,
        crate::polar::is_right_llr(plus, start.levels.last(), polar(w), turned.levels.last()),
{
    let h = frozen.len() as int / 2;
    let llr = start.levels.last();
    assert(opened.levels.drop_last() =~= start.levels);
    assert(mid.levels[mid.levels.len() - 2] == llr);
    assert(recent(mid.decoded, h) =~= w);
    lemma_right_range(plus, llr, unit, most, w, turned.levels.last());
}

/// Where the last position is free, a list ends in the order of its metrics.
pub proof fn lemma_list_sorted<F: Fn(u32, u32) -> u32>(
    plus: F,
    frozen: Seq<bool>,
    size: nat,
    before: Seq<PathView>,
    after: Seq<PathView>,
)
    requires
        is_power(frozen.len() as int),
        !frozen.last(),
        scl_decides(plus, frozen, size, before, after),
    ensures
        forall|i: int, j: int|
            0 <= i <= j < after.len() ==> (#[trigger] after[i]).metric <= (
            #[trigger] after[j]).metric,
    decreases frozen.len(),
{
    if frozen.len() == 1 {
        let forks = choose|forks: Seq<PathView>| #[trigger]
            all_fork(plus, before, forks) && is_pruned(forks, size, after);
        let order = choose|order: Seq<usize>| #[trigger]
            is_metric_order(metrics_of(forks), order) && after == kept(forks, order, size);
        assert forall|i: int, j: int| 0 <= i <= j < after.len() implies (
        #[trigger] after[i]).metric <= (#[trigger] after[j]).metric by {
            assert(order[i] < forks.len() && order[j] < forks.len());
            assert(after[i] == forks[order[i] as int] && after[j] == forks[order[j] as int]);
            assert(metrics_of(forks)[order[i] as int] == after[i].metric);
            assert(metrics_of(forks)[order[j] as int] == after[j].metric);
        }
    } else {
        let h = frozen.len() as int / 2;
        let (mid, turned, end) = choose|
            mid: Seq<PathView>,
            turned: Seq<PathView>,
            end: Seq<PathView>,
        |
            #![trigger all_turn(plus, mid, h, turned), all_close(end)]
            {
                &&& scl_decides(plus, frozen.take(h), size, all_open(before), mid)
                &&& all_turn(plus, mid, h, turned)
                &&& scl_decides(plus, frozen.skip(h), size, turned, end)
                &&& after == all_close(end)
            };
        lemma_list_sorted(plus, frozen.skip(h), size, turned, end);
        assert forall|i: int, j: int| 0 <= i <= j < after.len() implies (
        #[trigger] after[i]).metric <= (#[trigger] after[j]).metric by {
            assert(after[i] == close(end[i]) && after[j] == close(end[j]));
            assert(end[i].metric <= end[j].metric);
        }
    }
}

/// Which path is returned: where some path of the final list passes the
/// check, one that does, and none of those has a smaller metric; where none
/// does, or there is no check, no path has a smaller metric.
pub proof fn lemma_list_choice<F: Fn(u32, u32) -> u32>(
    plus: F,
    llr: Seq<u32>,
    frozen: Seq<bool>,
    size: nat,
    crc: Option<CrcKind>,
    out: Seq<u8>,
) -> (r: (Seq<PathView>, int))
    requires
        is_power(llr.len() as int),
        frozen.len() == llr.len(),
        !frozen.last(),
        scl_decoded(plus, llr, frozen, size, crc, out),
    ensures
        scl_decides(plus, frozen, size, first_list(llr), r.0),
        0 <= r.1 < r.0.len(),
        out == gathered(frozen, r.0[r.1].decoded, frozen.len() as int),
        crc is Some ==> forall|j: int|
            0 <= j < r.0.len() && checks(
                crc.unwrap(),
                gathered(frozen, (#[trigger] r.0[j]).decoded, frozen.len() as int),
            ) ==> checks(crc.unwrap(), out) && r.0[r.1].metric <= r.0[j].metric,
        crc is None || !checks(crc.unwrap(), out) ==> forall|j: int|
            0 <= j < r.0.len() ==> r.0[r.1].metric <= (#[trigger] r.0[j]).metric,
{
    let (paths, i) = choose|paths: Seq<PathView>, i: int|
        #![trigger scl_decides(plus, frozen, size, first_list(llr), paths), paths[i]]
        {
            &&& scl_decides(plus, frozen, size, first_list(llr), paths)
            &&& 0 <= i < paths.len()
            &&& is_chosen(crc, frozen, paths, i)
            &&& out == gathered(frozen, paths[i].decoded, frozen.len() as int)
        };
    lemma_list_sorted(plus, frozen, size, first_list(llr), paths);
    if crc is Some {
        let kind = crc.unwrap();
        assert forall|j: int|
            0 <= j < paths.len() && checks(
                kind,
                gathered(frozen, (#[trigger] paths[j]).decoded, frozen.len() as int),
            ) implies checks(kind, out) && paths[i].metric <= paths[j].metric by {
            assert(passes(kind, frozen, paths[j]));
            assert(passes(kind, frozen, paths[i]));
        }
    }
    (paths, i)
}

proof fn lemma_free_halves(frozen: Seq<bool>, h: int, k: int)
    requires
        0 <= h,
        0 <= k,
        h + k <= frozen.len(),
    ensures
        free_below(frozen, h + k) == free_below(frozen, h) + free_below(frozen.skip(h), k),
        free_below(frozen.take(h), h) == free_below(frozen, h),
    decreases h + k,
{
    if k > 0 {
        lemma_free_halves(frozen, h, k - 1);
        assert(frozen.skip(h)[k - 1] == frozen[h + k - 1]);
    } else if h > 0 {
        lemma_free_halves(frozen, h - 1, 0);
        lemma_free_take(frozen, h, h);
    }
}

proof fn lemma_free_take(frozen: Seq<bool>, h: int, k: int)
    requires
        0 <= k <= h <= frozen.len(),
    ensures
        free_below(frozen.take(h), k) == free_below(frozen, k),
    decreases k,
{
    if k > 0 {
        lemma_free_take(frozen, h, k - 1);
    }
}

/// A list that is large enough loses no path: every word that is zero at the
/// frozen positions is among the extensions of every path.
pub proof fn lemma_list_complete<F: Fn(u32, u32) -> u32>(
    plus: F,
    frozen: Seq<bool>,
    size: nat,
    before: Seq<PathView>,
    after: Seq<PathView>,
    b: int,
    w: Seq<u8>,
) -> (k: int)
    requires
        is_power(frozen.len() as int),
        scl_decides(plus, frozen, size, before, after),
        before.len() * pow2(free_below(frozen, frozen.len() as int)) <= size,
        size <= usize::MAX,
        0 <= b < before.len(),
        w.len() == frozen.len(),
        is_bits(w),
        respects(frozen, w),
    ensures
        after.len() == before.len() * pow2(free_below(frozen, frozen.len() as int)),
        0 <= k < after.len(),
        after[k].decoded == before[b].decoded + w,
    decreases frozen.len(),
{
    let n = frozen.len();
    vstd::arithmetic::power2::lemma2_to64();
    if n == 1 {
        assert(free_below(frozen, 1) == free_below(frozen, 0) + if frozen[0] {
            0nat
        } else {
            1nat
        });
        assert(w[0] <= 1);
        let c = before.len();
        let f = free_below(frozen, 1);
        assert(pow2(f) == 1 ==> c * pow2(f) == c) by (nonlinear_arith);
        assert(pow2(f) == 2 ==> c * pow2(f) == 2 * c) by (nonlinear_arith);
        if frozen[0] {
            assert(extends(plus, before[b], 0, after[b]));
            assert(w[0] == 0);
            assert(after[b].decoded =~= before[b].decoded + w);
            b
        } else {
            let forks = choose|forks: Seq<PathView>| #[trigger]
                all_fork(plus, before, forks) && is_pruned(forks, size, after);
            let order = choose|order: Seq<usize>| #[trigger]
                is_metric_order(metrics_of(forks), order) && after == kept(forks, order, size);
            assert(forks_at(plus, before, forks, b));
            let o = 2 * b + w[0];
            assert(order.contains(o as usize));
            let k = choose|k: int| 0 <= k < order.len() && order[k] == o as usize;
            assert(after[k] == forks[o]);
            assert(after[k].decoded =~= before[b].decoded + w);
            k
        }
    } else {
        let h = n as int / 2;
        let (mid, turned, end) = choose|
            mid: Seq<PathView>,
            turned: Seq<PathView>,
            end: Seq<PathView>,
        |
            #![trigger all_turn(plus, mid, h, turned), all_close(end)]
            {
                &&& scl_decides(plus, frozen.take(h), size, all_open(before), mid)
                &&& all_turn(plus, mid, h, turned)
                &&& scl_decides(plus, frozen.skip(h), size, turned, end)
                &&& after == all_close(end)
            };
        let opened = all_open(before);
        let f1 = free_below(frozen.take(h), h);
        let f2 = free_below(frozen.skip(h), h);
        lemma_free_halves(frozen, h, h);
        lemma_pow2_adds(f1, f2);
        lemma_pow2_pos(f2);
        let c = before.len();
        assert(c * pow2(f1) <= c * (pow2(f1) * pow2(f2)) && (c * pow2(f1)) * pow2(f2) == c * (
        pow2(f1) * pow2(f2))) by (nonlinear_arith)
            requires
                pow2(f2) >= 1,
                c >= 0,
                pow2(f1) >= 0,
        ;
        assert forall|i: int| 0 <= i < w.take(h).len() implies #[trigger] w.take(h)[i] <= 1 && (
        frozen.take(h)[i] ==> w.take(h)[i] == 0) by {
            assert(w[i] <= 1 && (frozen[i] ==> w[i] == 0));
        }
        assert forall|i: int| 0 <= i < w.skip(h).len() implies #[trigger] w.skip(h)[i] <= 1 && (
        frozen.skip(h)[i] ==> w.skip(h)[i] == 0) by {
            assert(w[h + i] <= 1 && (frozen[h + i] ==> w[h + i] == 0));
        }
        let t = lemma_list_complete(
            plus,
            frozen.take(h),
            size,
            opened,
            mid,
            b,
            w.take(h),
        );
        let k = lemma_list_complete(
            plus,
            frozen.skip(h),
            size,
            turned,
            end,
            t,
            w.skip(h),
        );
        assert(turns(plus, mid[t], h, turned[t]));
        assert(after[k] == close(end[k]));
        assert(w =~= w.take(h) + w.skip(h));
        assert(after[k].decoded =~= before[b].decoded + w);
        k
    }
}

/// The smaller of two numbers.
pub open spec fn at_most(n: nat, size: nat) -> nat {
    if n <= size {
        n
    } else {
        size
    }
}

/// What happens at a free position: each path goes on with a zero and with a
/// one, and of all these as many as the list holds stay, none of them twice.
/// None that leaves has a smaller metric than one that stays; of equals, the
/// earlier stay, and come first.
pub proof fn lemma_fork_keeps_best<F: Fn(u32, u32) -> u32>(
    plus: F,
    size: nat,
    before: Seq<PathView>,
    after: Seq<PathView>,
) -> (r: (Seq<PathView>, Seq<int>))
    requires
        scl_decides(plus, seq![false], size, before, after),
        2 * before.len() <= usize::MAX,
    ensures
        r.0.len() == 2 * before.len(),
        forall|i: int|
            0 <= i < before.len() ==> (#[trigger] r.0[2 * i]).decoded == before[i].decoded.push(0),
        forall|i: int|
            0 <= i < before.len() ==> (#[trigger] r.0[2 * i + 1]).decoded
                == before[i].decoded.push(1),
        after.len() == at_most(2 * before.len(), size),
        r.1.len() == after.len(),
        r.1.no_duplicates(),
        forall|i: int|
            0 <= i < after.len() ==> 0 <= #[trigger] r.1[i] < r.0.len() && after[i] == r.0[r.1[i]],
        forall|i: int, k: int|
            0 <= i < after.len() && 0 <= k < r.0.len() && !r.1.contains(k) ==> (
            #[trigger] after[i]).metric <= (#[trigger] r.0[k]).metric,
        forall|i: int, j: int|
            0 <= i <= j < after.len() ==> (#[trigger] after[i]).metric <= (
            #[trigger] after[j]).metric,
        forall|i: int, k: int|
            0 <= i < after.len() && 0 <= k < r.0.len() && !r.1.contains(k) && (
            #[trigger] after[i]).metric == (#[trigger] r.0[k]).metric ==> r.1[i] < k,
        forall|i: int, j: int|
            0 <= i < j < after.len() && (#[trigger] after[i]).metric == (
            #[trigger] after[j]).metric ==> r.1[i] < r.1[j],
{
    let forks = choose|forks: Seq<PathView>| #[trigger]
        all_fork(plus, before, forks) && is_pruned(forks, size, after);
    let order = choose|order: Seq<usize>| #[trigger]
        is_metric_order(metrics_of(forks), order) && after == kept(forks, order, size);
    let m = metrics_of(forks);
    let picks = Seq::new(after.len(), |i: int| order[i] as int);
    assert forall|i: int| 0 <= i < before.len() implies (#[trigger] forks[2 * i]).decoded
        == before[i].decoded.push(0) by {
        assert(forks_at(plus, before, forks, i));
    }
    assert forall|i: int| 0 <= i < before.len() implies (#[trigger] forks[2 * i + 1]).decoded
        == before[i].decoded.push(1) by {
        assert(forks_at(plus, before, forks, i));
    }
    assert forall|i: int| 0 <= i < after.len() implies 0 <= #[trigger] picks[i] < forks.len()
        && after[i] == forks[picks[i]] by {
        assert(order[i] < m.len());
    }
    assert forall|i: int, j: int| 0 <= i < picks.len() && 0 <= j < picks.len() && i != j implies
        picks[i] != picks[j] by {
        if i < j {
            assert(comes_first(m, order[i] as int, order[j] as int));
        } else {
            assert(comes_first(m, order[j] as int, order[i] as int));
        }
    }
    assert forall|i: int, k: int|
        0 <= i < after.len() && 0 <= k < forks.len() && !picks.contains(k) implies (
    #[trigger] after[i]).metric <= (#[trigger] forks[k]).metric by {
        assert(order.contains(k as usize));
        let p = choose|p: int| 0 <= p < order.len() && order[p] == k as usize;
        if p < after.len() {
            assert(picks[p] == k);
        }
        assert(comes_first(m, order[i] as int, order[p] as int));
        assert(after[i] == forks[picks[i]]);
    }
    assert forall|i: int, k: int|
        0 <= i < after.len() && 0 <= k < forks.len() && !picks.contains(k) && (
        #[trigger] after[i]).metric == (#[trigger] forks[k]).metric implies picks[i] < k by {
        assert(order.contains(k as usize));
        let p = choose|p: int| 0 <= p < order.len() && order[p] == k as usize;
        if p < after.len() {
            assert(picks[p] == k);
        }
        assert(comes_first(m, order[i] as int, order[p] as int));
        assert(after[i] == forks[picks[i]]);
    }
    assert forall|i: int, j: int| 0 <= i <= j < after.len() implies (#[trigger] after[i]).metric
        <= (#[trigger] after[j]).metric by {
        assert(after[i] == forks[picks[i]] && after[j] == forks[picks[j]]);
        if i < j {
            assert(comes_first(m, order[i] as int, order[j] as int));
        }
    }
    assert forall|i: int, j: int|
        0 <= i < j < after.len() && (#[trigger] after[i]).metric == (
        #[trigger] after[j]).metric implies picks[i] < picks[j] by {
        assert(after[i] == forks[picks[i]] && after[j] == forks[picks[j]]);
        assert(comes_first(m, order[i] as int, order[j] as int));
    }
    (forks, picks)
}

/// How long a list is: every free position doubles it, up to its size.
pub proof fn lemma_list_len<F: Fn(u32, u32) -> u32>(
    plus: F,
    frozen: Seq<bool>,
    size: nat,
    before: Seq<PathView>,
    after: Seq<PathView>,
)
    requires
        is_power(frozen.len() as int),
        scl_decides(plus, frozen, size, before, after),
        before.len() <= size,
    ensures
        after.len() == at_most(
            before.len() * pow2(free_below(frozen, frozen.len() as int)),
            size,
        ),
    decreases frozen.len(),
{
    let n = frozen.len();
    let c = before.len();
    lemma2_to64();
    if n == 1 {
        let f = free_below(frozen, 1);
        assert(f == free_below(frozen, 0) + if frozen[0] {
            0nat
        } else {
            1nat
        });
        assert(pow2(f) == 1 ==> c * pow2(f) == c) by (nonlinear_arith);
        assert(pow2(f) == 2 ==> c * pow2(f) == 2 * c) by (nonlinear_arith);
        if !frozen[0] {
            let forks = choose|forks: Seq<PathView>| #[trigger]
                all_fork(plus, before, forks) && is_pruned(forks, size, after);
            let order = choose|order: Seq<usize>| #[trigger]
                is_metric_order(metrics_of(forks), order) && after == kept(forks, order, size);
            assert(after.len() == kept(forks, order, size).len());
        }
    } else {
        let h = n as int / 2;
        let (mid, turned, end) = choose|
            mid: Seq<PathView>,
            turned: Seq<PathView>,
            end: Seq<PathView>,
        |
            #![trigger all_turn(plus, mid, h, turned), all_close(end)]
            {
                &&& scl_decides(plus, frozen.take(h), size, all_open(before), mid)
                &&& all_turn(plus, mid, h, turned)
                &&& scl_decides(plus, frozen.skip(h), size, turned, end)
                &&& after == all_close(end)
            };
        let f1 = free_below(frozen.take(h), h);
        let f2 = free_below(frozen.skip(h), h);
        lemma_free_halves(frozen, h, h);
        lemma_pow2_adds(f1, f2);
        lemma_pow2_pos(f2);
        lemma_list_len(plus, frozen.take(h), size, all_open(before), mid);
        lemma_list_len(plus, frozen.skip(h), size, turned, end);
        let a = c * pow2(f1);
        let b = pow2(f2);
        assert((c * pow2(f1)) * pow2(f2) == c * (pow2(f1) * pow2(f2))) by (nonlinear_arith);
        assert(a * b >= a && size * b >= size) by (nonlinear_arith)
            requires
                b >= 1,
                a >= 0,
                size >= 0,
        ;
    }
}

/// With a list that is large enough, list decoding finds the cheapest word:
/// no word that is zero at the frozen positions, and passes the check where
/// there is one, costs less than the one returned.
pub proof fn lemma_full_list_best<F: Fn(u32, u32) -> u32>(
    plus: F,
    unit: int,
    most: int,
    llr: Seq<u32>,
    frozen: Seq<bool>,
    size: nat,
    crc: Option<CrcKind>,
    out: Seq<u8>,
    other: Seq<u8>,
) -> (best: Seq<u8>)
    requires
        is_power(llr.len() as int),
        frozen.len() == llr.len(),
        !frozen.last(),
        in_range(llr, unit, most),
        adds_exactly(plus, unit, most),
        adds_plainly(plus, unit),
        pow2(free_below(frozen, frozen.len() as int)) <= size <= usize::MAX,
        scl_decoded(plus, llr, frozen, size, crc, out),
        other.len() == llr.len(),
        is_bits(other),
        respects(frozen, other),
        crc is Some ==> checks(
            crc.unwrap(),
            gathered(frozen, other, frozen.len() as int),
        ),
    ensures
        best.len() == llr.len(),
        is_bits(best),
        respects(frozen, best),
        out == gathered(frozen, best, frozen.len() as int),
        crc is Some ==> checks(crc.unwrap(), out),
        cost_of(llr, best) <= cost_of(llr, other),
{
    let start = first_list(llr);
    let n = llr.len();
    let (paths, i) = lemma_list_choice(plus, llr, frozen, size, crc, out);
    lemma_start_ready(llr, unit, most);
    let k = lemma_list_complete(plus, frozen, size, start, paths, 0, other);
    assert(start[0].decoded + other =~= other);
    let (b, best) = lemma_list_costs(plus, unit, most, frozen, size, start, paths, i);
    let (c, same) = lemma_list_costs(plus, unit, most, frozen, size, start, paths, k);
    assert(start[0].decoded + best =~= best);
    assert(start[0].decoded + same =~= same);
    assert(b == 0 && c == 0);
    assert(paths[k].decoded == other && paths[i].decoded == best);
    lemma_amount_order(paths[i].metric as int, paths[k].metric as int);
    best
}

proof fn lemma_start_ready(llr: Seq<u32>, unit: int, most: int)
    requires
        in_range(llr, unit, most),
    ensures
        forall|b: int|
            0 <= b < first_list(llr).len() ==> ready(
                #[trigger] first_list(llr)[b],
                llr.len(),
                unit,
                most,
            ),
{
    lemma_value(0);
    lemma_patterns(0, 0);
    crate::numbers::lemma_multiples_zero(unit);
    let p = first_list(llr)[0];
    assert(p.levels.last() == llr);
    assert(ready(p, llr.len(), unit, most));
}

/// The metric of every path of the final list is the cost of its codeword,
/// and its bits are zero at the frozen positions.
pub proof fn lemma_metric_is_cost<F: Fn(u32, u32) -> u32>(
    plus: F,
    unit: int,
    most: int,
    llr: Seq<u32>,
    frozen: Seq<bool>,
    size: nat,
    paths: Seq<PathView>,
    k: int,
)
    requires
        is_power(llr.len() as int),
        frozen.len() == llr.len(),
        in_range(llr, unit, most),
        adds_exactly(plus, unit, most),
        adds_plainly(plus, unit),
        scl_decides(plus, frozen, size, first_list(llr), paths),
        0 <= k < paths.len(),
    ensures
        paths[k].decoded.len() == llr.len(),
        is_bits(paths[k].decoded),
        respects(frozen, paths[k].decoded),
        value(paths[k].metric) == cost_of(llr, paths[k].decoded),
{
    let start = first_list(llr);
    lemma_start_ready(llr, unit, most);
    lemma_value(0);
    let (b, w) = lemma_list_costs(plus, unit, most, frozen, size, start, paths, k);
    assert(b == 0);
    assert(start[0].decoded + w =~= w);
}

proof fn lemma_gathered_at(frozen: Seq<bool>, u: Seq<u8>, i: int, n: int)
    requires
        0 <= n <= frozen.len(),
        u.len() == frozen.len(),
    ensures
        gathered(frozen, u, n).len() == free_below(frozen, n),
        0 <= i < n && !frozen[i] ==> free_below(frozen, i) < free_below(frozen, n) && gathered(
            frozen,
            u,
            n,
        )[free_below(frozen, i) as int] == u[i],
    decreases n,
{
    if n > 0 {
        lemma_gathered_at(frozen, u, i, n - 1);
    }
}

/// Placing what was gathered from a word of bits that is zero at the frozen
/// positions gives the word back.
pub proof fn lemma_placed_gathered(frozen: Seq<bool>, u: Seq<u8>)
    requires
        u.len() == frozen.len(),
        is_bits(u),
        respects(frozen, u),
    ensures
        placed(frozen, gathered(frozen, u, frozen.len() as int)) == u,
        gathered(frozen, u, frozen.len() as int).len() == free_below(frozen, frozen.len() as int),
{
    let g = gathered(frozen, u, frozen.len() as int);
    let p = placed(frozen, g);
    assert forall|i: int| 0 <= i < u.len() implies p[i] == u[i] by {
        lemma_gathered_at(frozen, u, i, frozen.len() as int);
        assert(u[i] <= 1);
        lemma_low_bit(u[i]);
    }
    assert(p =~= u);
    lemma_gathered_at(frozen, u, 0, frozen.len() as int);
}

/// What a power of two is.
proof fn lemma_power_exponent(n: int) -> (m: nat)
    requires
        is_power(n),
    ensures
        n == pow2(m),
    decreases n,
{
    lemma2_to64();
    if n == 1 {
        0
    } else {
        let m = lemma_power_exponent(n / 2);
        lemma_pow2_unfold(m + 1);
        m + 1
    }
}

/// A decoder of a code with any information bit has its last position free.
pub proof fn lemma_decoder_last_free(dec: PolarDecoder)
    requires
        dec.wf(),
        dec.dimension() >= 1,
    ensures
        !dec.frozen().last(),
        dec.frozen().len() == dec.length(),
        is_power(dec.length() as int),
        free_below(dec.frozen(), dec.length() as int) == dec.dimension(),
        dec.paths() >= 1,
        dec.length() <= usize::MAX,
        dec.paths() <= usize::MAX,
{
    dec.lemma_wf();
    dec.lemma_sizes();
    let m = lemma_power_exponent(dec.length() as int);
    if m >= 64 {
        lemma2_to64_rest();
        if m > 64 {
            lemma_pow2_strictly_increases(64, m);
        }
    }
    lemma_last_free(m, dec.dimension(), dec.frozen());
}

/// What the check is for: where any path of the final list passes it, the
/// bits returned pass it, and their path has the smallest metric of those
/// that do.
pub proof fn lemma_check_chooses<F: Fn(u32, u32) -> u32>(
    plus: F,
    dec: PolarDecoder,
    kind: CrcKind,
    llr: Seq<u32>,
    before: Seq<u8>,
    after: Seq<u8>,
) -> (r: (Seq<PathView>, int))
    requires
        dec.wf(),
        dec.dimension() >= 1,
        dec.paths() > 1,
        dec.crc_kind() == Some(kind),
        dec.scl_result(plus, llr, before, after, Ok(())),
    ensures
        scl_decides(plus, dec.frozen(), dec.paths(), first_list(llr), r.0),
        0 <= r.1 < r.0.len(),
        after == gathered(dec.frozen(), r.0[r.1].decoded, dec.length() as int),
        forall|j: int|
            0 <= j < r.0.len() && checks(
                kind,
                gathered(dec.frozen(), (#[trigger] r.0[j]).decoded, dec.length() as int),
            ) ==> checks(kind, after) && r.0[r.1].metric <= r.0[j].metric,
        !checks(kind, after) ==> forall|j: int|
            0 <= j < r.0.len() ==> r.0[r.1].metric <= (#[trigger] r.0[j]).metric,
{
    lemma_decoder_last_free(dec);
    lemma_list_choice(plus, llr, dec.frozen(), dec.paths(), dec.crc_kind(), after)
}

/// A list of one path is successive cancellation.
pub proof fn lemma_single_path<F: Fn(u32, u32) -> u32>(
    plus: F,
    dec: PolarDecoder,
    llr: Seq<u32>,
    before: Seq<u8>,
    after: Seq<u8>,
)
    requires
        dec.wf(),
        dec.paths() == 1,
        dec.scl_result(plus, llr, before, after, Ok(())),
    ensures
        dec.sc_result(plus, llr, before, after, Ok(())),
{
}

/// With a list as large as the code, list decoding finds the likeliest
/// information: of all information, or of all that passes the check where
/// there is one, none has a codeword that costs less.
pub proof fn lemma_likeliest<F: Fn(u32, u32) -> u32>(
    plus: F,
    unit: int,
    most: int,
    dec: PolarDecoder,
    llr: Seq<u32>,
    before: Seq<u8>,
    after: Seq<u8>,
    info: Seq<u8>,
)
    requires
        dec.wf(),
        dec.dimension() >= 1,
        dec.paths() >= pow2(dec.dimension()),
        in_range(llr, unit, most),
        adds_exactly(plus, unit, most),
        adds_plainly(plus, unit),
        dec.scl_result(plus, llr, before, after, Ok(())),
        info.len() == dec.dimension(),
        is_bits(info),
        dec.crc_kind() is Some ==> checks(dec.crc_kind().unwrap(), info),
    ensures
        dec.crc_kind() is Some ==> checks(dec.crc_kind().unwrap(), after),
        cost_of(llr, placed(dec.frozen(), after)) <= cost_of(llr, placed(dec.frozen(), info)),
{
    let frozen = dec.frozen();
    lemma_decoder_last_free(dec);
    lemma_pow2_adds((dec.dimension() - 1) as nat, 1);
    lemma2_to64();
    lemma_pow2_pos((dec.dimension() - 1) as nat);
    lemma_pow2_unfold(dec.dimension());
    let other = placed(frozen, info);
    lemma_placed(frozen, info);
    lemma_gather_placed(frozen, info);
    lemma_low_bits(info);
    let best = lemma_full_list_best(
        plus,
        unit,
        most,
        llr,
        frozen,
        dec.paths(),
        dec.crc_kind(),
        after,
        other,
    );
    lemma_placed_gathered(frozen, best);
}

/// `best` shares the bits of `u` up to and with position `i`, and costs no
/// more than a word that differs there first; less, where the bit is one.
pub open spec fn beats(llr: Seq<u32>, u: Seq<u8>, i: int, best: Seq<u8>, other: Seq<u8>) -> bool {
    &&& is_bits(best)
    &&& best.len() == u.len()
    &&& best.take(i + 1) == u.take(i + 1)
    &&& if u[i] == 0 {
        cost_of(llr, best) <= cost_of(llr, other)
    } else {
        cost_of(llr, best) < cost_of(llr, other)
    }
}

/// A word of bits that first differs from `u` at position `i`.
pub open spec fn parts_at(u: Seq<u8>, i: int, other: Seq<u8>) -> bool {
    &&& 0 <= i < u.len()
    &&& is_bits(other)
    &&& other.len() == u.len()
    &&& other.take(i) == u.take(i)
    &&& other[i] != u[i]
}

/// How successive cancellation decodes: the information stands at the free
/// positions of a word that is zero at the others, and each free bit is
/// decided by the least cost of the words that share the earlier ones.
pub proof fn lemma_decoded_by_cost<F: Fn(u32, u32) -> u32>(
    plus: F,
    unit: int,
    most: int,
    dec: PolarDecoder,
    llr: Seq<u32>,
    before: Seq<u8>,
    after: Seq<u8>,
) -> (u: Seq<u8>)
    requires
        dec.wf(),
        in_range(llr, unit, most),
        adds_exactly(plus, unit, most),
        dec.sc_result(plus, llr, before, after, Ok(())),
    ensures
        u.len() == dec.length(),
        is_bits(u),
        forall|i: int| 0 <= i < u.len() && dec.frozen()[i] ==> #[trigger] u[i] == 0,
        forall|i: int|
            0 <= i < u.len() && !dec.frozen()[i] ==> #[trigger] u[i] == after[free_below(
                dec.frozen(),
                i,
            ) as int],
        forall|i: int, other: Seq<u8>|
            #[trigger] parts_at(u, i, other) && !dec.frozen()[i] ==> exists|best: Seq<u8>|
                #[trigger] beats(llr, u, i, best, other),
{
    let frozen = dec.frozen();
    let n = dec.length() as int;
    dec.lemma_wf();
    let u = choose|u: Seq<u8>| #[trigger]
        sc_decides(plus, llr, frozen, u) && after == gathered(frozen, u, n);
    lemma_sc_bits(plus, llr, frozen, u);
    assert forall|i: int| 0 <= i < u.len() && !frozen[i] implies #[trigger] u[i]
        == after[free_below(frozen, i) as int] by {
        lemma_gathered_at(frozen, u, i, n);
    }
    assert forall|i: int, other: Seq<u8>| #[trigger]
        parts_at(u, i, other) && !frozen[i] implies exists|best: Seq<u8>| #[trigger]
        beats(llr, u, i, best, other) by {
        let best = lemma_sc_decides_by_cost(plus, unit, most, llr, frozen, u, i, other);
        assert(best.take(i + 1) =~= best.take(i).push(best[i]));
        assert(u.take(i + 1) =~= u.take(i).push(u[i]));
        assert(beats(llr, u, i, best, other));
    }
    u
}

} // verus!
