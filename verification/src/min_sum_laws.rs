//! What a row block of min-sum decoding does, in numbers: each check sends
//! to each of its bits the least that the other bits brought, less the
//! offset, with the product of their signs; and each bit's likelihood
//! changes by what the check's message changed.

use crate::ldpc_decoder::{
    all_to_check, degree, edges_updated, hard_bits, lane_updated, lanes_updated, layer_updated,
    layers_updated, min_sum_decoded, negated, passes_run, to_check,
};
use crate::min_sum::{
    excluded_min, excluded_sign, lane, lemma_row_bound, message, min_others, sign_sum, LARGEST,
};
use crate::numbers::{
    absolute, adds_exactly, amount, lemma_amount_order, lemma_multiples, lemma_value,
    lemma_whole_signed, value, whole,
};
use crate::qc_ldpc::QcLdpcParams;
use crate::soft::{lemma_patterns, magnitude};
use vstd::prelude::*;

verus! {

/// What edge `f` brings to check `i` of a row block: the likelihood of its
/// bit less what the check had sent it.
pub open spec fn brought(
    p: QcLdpcParams,
    layer: int,
    llr: Seq<u32>,
    r: Seq<u32>,
    f: int,
    i: int,
) -> int {
    let edge = p.layer_offsets@[layer] + f;
    value(llr[p.submatrix_cols@[edge] * p.z + (i + p.submatrix_shifts@[edge]) % (p.z as int)])
        - value(r[edge * p.z + i])
}

/// How many of the first `n` edges but `e` bring a number below zero.
pub open spec fn others_below(
    p: QcLdpcParams,
    layer: int,
    llr: Seq<u32>,
    r: Seq<u32>,
    e: int,
    i: int,
    n: nat,
) -> nat
    decreases n,
{
    if n == 0 {
        0
    } else {
        others_below(p, layer, llr, r, e, i, (n - 1) as nat) + if n - 1 != e && brought(
            p,
            layer,
            llr,
            r,
            n - 1,
            i,
        ) < 0 {
            1nat
        } else {
            0nat
        }
    }
}

/// A distance from zero less the offset, and not below zero.
pub open spec fn less_offset(m: int, beta: int) -> int {
    if m > beta {
        m - beta
    } else {
        0
    }
}

/// What one lane of one edge ends up with, from the state before the row
/// block.
spec fn lane_result<F: Fn(u32, u32) -> u32>(
    plus: F,
    p: QcLdpcParams,
    beta: u32,
    layer: int,
    q: Seq<u32>,
    e: int,
    i: int,
    llr: Seq<u32>,
    r: Seq<u32>,
    llr_after: Seq<u32>,
    r_after: Seq<u32>,
) -> bool {
    let z = p.z as int;
    let edge = p.layer_offsets@[layer] + e;
    let at = edge * z + i;
    let v = p.variable(edge, i);
    let least = excluded_min(q, z, i, e, degree(p, layer));
    let sign = excluded_sign(q, z, i, e, degree(p, layer));
    exists|raw: u32, delta: u32|
        {
            &&& #[trigger] call_ensures(plus, (least, negated(beta)), raw)
            &&& #[trigger] call_ensures(plus, (message(raw, sign), negated(r[at])), delta)
            &&& call_ensures(plus, (llr[v], delta), llr_after[v])
            &&& r_after[at] == message(raw, sign)
        }
}

/// The places of a row block and its bits lie apart.
proof fn lemma_places(p: QcLdpcParams, layer: int, e: int, i: int, f: int, j: int)
    requires
        p.wf(),
        0 <= layer < p.num_row_blocks,
        0 <= e < degree(p, layer),
        0 <= f < degree(p, layer),
        0 <= i < p.z,
        0 <= j < p.z,
    ensures
        ({
            let z = p.z as int;
            let a = p.layer_offsets@[layer] + e;
            let b = p.layer_offsets@[layer] + f;
            &&& a < p.submatrix_cols@.len()
            &&& p.variable(a, i) == p.submatrix_cols@[a] * z + (i + p.submatrix_shifts@[a]) % z
            &&& 0 <= p.variable(a, i) < p.num_col_blocks * z
            &&& 0 <= a * z + i < p.submatrix_cols@.len() * z
            &&& e == f && i != j ==> p.variable(a, i) != p.variable(b, j)
            &&& p.submatrix_cols@[a] != p.submatrix_cols@[b] ==> p.variable(a, i) != p.variable(b, j)
            &&& (e != f || i != j) ==> a * z + i != b * z + j
        }),
{
    let z = p.z as int;
    let a = p.layer_offsets@[layer] + e;
    let b = p.layer_offsets@[layer] + f;
    assert(p.layer_offsets@[layer + 1] <= p.submatrix_cols@.len());
    assert(0 <= p.submatrix_shifts@[a] < z && 0 <= p.submatrix_shifts@[b] < z);
    let s = p.submatrix_shifts@[a] as int;
    let x = p.submatrix_cols@[a] as int;
    let y = p.submatrix_cols@[b] as int;
    assert(x < p.num_col_blocks && y < p.num_col_blocks);
    if i + s < z {
        vstd::arithmetic::div_mod::lemma_small_mod((i + s) as nat, z as nat);
    } else {
        vstd::arithmetic::div_mod::lemma_small_mod((i + s - z) as nat, z as nat);
        vstd::arithmetic::div_mod::lemma_mod_add_multiples_vanish(i + s - z, z);
    }
    lemma_row_bound(x, p.num_col_blocks as int, z);
    lemma_row_bound(y, p.num_col_blocks as int, z);
    lemma_row_bound(a, p.submatrix_cols@.len() as int, z);
    lemma_row_bound(b, p.submatrix_cols@.len() as int, z);
    if x < y {
        lemma_row_bound(x, y, z);
    } else if y < x {
        lemma_row_bound(y, x, z);
    }
    if a < b {
        lemma_row_bound(a, b, z);
    } else if b < a {
        lemma_row_bound(b, a, z);
    }
}

/// After some lanes of an edge: each has its result, and nothing else has
/// changed.
proof fn lemma_lanes<F: Fn(u32, u32) -> u32>(
    plus: F,
    p: QcLdpcParams,
    beta: u32,
    layer: int,
    q: Seq<u32>,
    e: int,
    n: nat,
    llr: Seq<u32>,
    r: Seq<u32>,
    llr_after: Seq<u32>,
    r_after: Seq<u32>,
)
    requires
        p.wf(),
        0 <= layer < p.num_row_blocks,
        0 <= e < degree(p, layer),
        n <= p.z,
        llr.len() == p.num_col_blocks * p.z,
        r.len() >= p.submatrix_cols@.len() * p.z,
        lanes_updated(plus, p, beta, layer, q, e, n, llr, r, llr_after, r_after),
    ensures
        llr_after.len() == llr.len(),
        r_after.len() == r.len(),
        forall|i: int|
            0 <= i < n ==> #[trigger] lane_result(
                plus,
                p,
                beta,
                layer,
                q,
                e,
                i,
                llr,
                r,
                llr_after,
                r_after,
            ),
        forall|v: int|
            0 <= v < llr.len() && (forall|i: int|
                0 <= i < n ==> v != #[trigger] p.variable(p.layer_offsets@[layer] + e, i))
                ==> #[trigger] llr_after[v] == llr[v],
        forall|k: int|
            0 <= k < r.len() && !((p.layer_offsets@[layer] + e) * p.z <= k < (p.layer_offsets@[layer]
                + e) * p.z + n) ==> #[trigger] r_after[k] == r[k],
    decreases n,
{
    if n > 0 {
        let m = (n - 1) as nat;
        let edge = p.layer_offsets@[layer] + e;
        let z = p.z as int;
        let (lm, rm) = choose|llr_mid: Seq<u32>, r_mid: Seq<u32>|
            {
                &&& lanes_updated(plus, p, beta, layer, q, e, (n - 1) as nat, llr, r, llr_mid, r_mid)
                &&& #[trigger] lane_updated(
                    plus,
                    p,
                    beta,
                    layer,
                    q,
                    e,
                    n - 1,
                    llr_mid,
                    r_mid,
                    llr_after,
                    r_after,
                )
            };
        lemma_lanes(plus, p, beta, layer, q, e, m, llr, r, lm, rm);
        let v = p.variable(edge, n - 1);
        let at = edge * z + (n - 1);
        lemma_places(p, layer, e, n - 1, e, n - 1);
        assert(lane_updated(plus, p, beta, layer, q, e, n - 1, lm, rm, llr_after, r_after));
        assert(llr_after == lm.update(v, llr_after[v]));
        assert(r_after == rm.update(at, r_after[at]));
        assert forall|i: int| 0 <= i < n implies #[trigger] lane_result(
            plus,
            p,
            beta,
            layer,
            q,
            e,
            i,
            llr,
            r,
            llr_after,
            r_after,
        ) by {
            lemma_places(p, layer, e, i, e, n - 1);
            if i < m {
                assert(lane_result(plus, p, beta, layer, q, e, i, llr, r, lm, rm));
                let w = p.variable(edge, i);
                let k = edge * z + i;
                assert(w != v && k != at);
                assert(llr_after[w] == lm[w]);
                assert(r_after[k] == rm[k]);
            } else {
                assert(i == n - 1);
                assert forall|j: int| 0 <= j < m implies v != #[trigger] p.variable(edge, j) by {
                    lemma_places(p, layer, e, j, e, n - 1);
                }
                assert(lm[v] == llr[v]);
                assert(rm[at] == r[at]);
            }
        }
        assert forall|w: int|
            0 <= w < llr.len() && (forall|i: int|
                0 <= i < n ==> w != #[trigger] p.variable(edge, i)) implies #[trigger] llr_after[w]
            == llr[w] by {
            assert(w != p.variable(edge, n - 1));
            assert(lm[w] == llr[w]);
        }
    }
}

/// The columns of a row block are different.
pub open spec fn columns_apart(p: QcLdpcParams, layer: int) -> bool {
    forall|a: int, b: int|
        p.layer_offsets@[layer] <= a < b < p.layer_offsets@[layer + 1]
            ==> #[trigger] p.submatrix_cols@[a] != #[trigger] p.submatrix_cols@[b]
}

proof fn lemma_edges<F: Fn(u32, u32) -> u32>(
    plus: F,
    p: QcLdpcParams,
    beta: u32,
    layer: int,
    q: Seq<u32>,
    n: nat,
    llr: Seq<u32>,
    r: Seq<u32>,
    llr_after: Seq<u32>,
    r_after: Seq<u32>,
)
    requires
        p.wf(),
        0 <= layer < p.num_row_blocks,
        n <= degree(p, layer),
        columns_apart(p, layer),
        llr.len() == p.num_col_blocks * p.z,
        r.len() >= p.submatrix_cols@.len() * p.z,
        edges_updated(plus, p, beta, layer, q, n, llr, r, llr_after, r_after),
    ensures
        llr_after.len() == llr.len(),
        r_after.len() == r.len(),
        forall|e: int, i: int|
            0 <= e < n && 0 <= i < p.z ==> #[trigger] lane_result(
                plus,
                p,
                beta,
                layer,
                q,
                e,
                i,
                llr,
                r,
                llr_after,
                r_after,
            ),
        forall|v: int|
            0 <= v < llr.len() && (forall|e: int, i: int|
                0 <= e < n && 0 <= i < p.z ==> v != #[trigger] p.variable(
                    p.layer_offsets@[layer] + e,
                    i,
                )) ==> #[trigger] llr_after[v] == llr[v],
        forall|k: int|
            0 <= k < r.len() && !(p.layer_offsets@[layer] * p.z <= k < (p.layer_offsets@[layer] + n)
                * p.z) ==> #[trigger] r_after[k] == r[k],
    decreases n,
{
    if n > 0 {
        let m = (n - 1) as nat;
        let off = p.layer_offsets@[layer] as int;
        let z = p.z as int;
        let (lm, rm) = choose|llr_mid: Seq<u32>, r_mid: Seq<u32>|
            {
                &&& edges_updated(plus, p, beta, layer, q, (n - 1) as nat, llr, r, llr_mid, r_mid)
                &&& #[trigger] lanes_updated(
                    plus,
                    p,
                    beta,
                    layer,
                    q,
                    n - 1,
                    p.z as nat,
                    llr_mid,
                    r_mid,
                    llr_after,
                    r_after,
                )
            };
        lemma_edges(plus, p, beta, layer, q, m, llr, r, lm, rm);
        lemma_lanes(plus, p, beta, layer, q, n - 1, p.z as nat, lm, rm, llr_after, r_after);
        lemma_row_bound(off + m, off + n, z);
        assert(off * z <= (off + m) * z) by (nonlinear_arith)
            requires
                0 <= m,
                0 <= z,
        ;
        assert((off + n) * z == (off + m) * z + z) by (nonlinear_arith)
            requires
                n == m + 1,
        ;
        assert forall|e: int, i: int| 0 <= e < n && 0 <= i < p.z implies #[trigger] lane_result(
            plus,
            p,
            beta,
            layer,
            q,
            e,
            i,
            llr,
            r,
            llr_after,
            r_after,
        ) by {
            let edge = off + e;
            let v = p.variable(edge, i);
            let at = edge * z + i;
            lemma_places(p, layer, e, i, e, i);
            if e < m {
                assert(lane_result(plus, p, beta, layer, q, e, i, llr, r, lm, rm));
                assert forall|j: int| 0 <= j < z implies v != #[trigger] p.variable(off + m, j) by {
                    assert(p.submatrix_cols@[edge] != p.submatrix_cols@[off + m]);
                    lemma_places(p, layer, e, i, m as int, j);
                }
                assert(llr_after[v] == lm[v]);
                lemma_row_bound(edge, off + m, z);
                assert(r_after[at] == rm[at]);
            } else {
                assert(lane_result(plus, p, beta, layer, q, e, i, lm, rm, llr_after, r_after));
                assert forall|f: int, j: int| 0 <= f < m && 0 <= j < p.z implies v
                    != #[trigger] p.variable(off + f, j) by {
                    assert(p.submatrix_cols@[off + f] != p.submatrix_cols@[edge]);
                    lemma_places(p, layer, f, j, e, i);
                }
                assert(lm[v] == llr[v]);
                assert(rm[at] == r[at]);
            }
        }
        assert forall|v: int|
            0 <= v < llr.len() && (forall|e: int, i: int|
                0 <= e < n && 0 <= i < p.z ==> v != #[trigger] p.variable(off + e, i)) implies
            #[trigger] llr_after[v] == llr[v] by {
            assert forall|i: int| 0 <= i < p.z implies v != #[trigger] p.variable(off + m, i) by {}
            assert(lm[v] == llr[v]);
        }
    }
}

proof fn lemma_min_others_reached(q: Seq<u32>, z: int, i: int, e: int, n: nat)
    ensures
        forall|f: int|
            0 <= f < n && f != e ==> min_others(q, z, i, e, n) <= magnitude(
                #[trigger] lane(q, z, i, f),
            ),
        min_others(q, z, i, e, n) == LARGEST || exists|f: int|
            0 <= f < n && f != e && min_others(q, z, i, e, n) == magnitude(
                #[trigger] lane(q, z, i, f),
            ),
    decreases n,
{
    if n > 0 {
        lemma_min_others_reached(q, z, i, e, (n - 1) as nat);
        let a = lane(q, z, i, n - 1);
        let m = min_others(q, z, i, e, (n - 1) as nat);
        if n - 1 != e && magnitude(a) < m {
            assert(min_others(q, z, i, e, n) == magnitude(lane(q, z, i, n - 1)));
        } else if m != LARGEST {
            let f = choose|f: int|
                0 <= f < n - 1 && f != e && m == magnitude(#[trigger] lane(q, z, i, f));
            assert(m == magnitude(lane(q, z, i, f)));
        }
    }
}

/// How many of the first `n` lanes but `e` have the sign bit.
spec fn others_signed(q: Seq<u32>, z: int, i: int, e: int, n: nat) -> nat
    decreases n,
{
    if n == 0 {
        0
    } else {
        others_signed(q, z, i, e, (n - 1) as nat) + if n - 1 != e && lane(q, z, i, n - 1)
            >= 0x8000_0000 {
            1nat
        } else {
            0nat
        }
    }
}

proof fn lemma_signs(q: Seq<u32>, z: int, i: int, e: int, n: nat)
    ensures
        ({
            let own: u32 = if 0 <= e < n {
                lane(q, z, i, e) & 0x8000_0000
            } else {
                0
            };
            let odd = others_signed(q, z, i, e, n) % 2 == 1;
            &&& own == 0 || own == 0x8000_0000
            &&& sign_sum(q, z, i, n) == (if odd == (own == 0) {
                0x8000_0000u32
            } else {
                0u32
            })
        }),
    decreases n,
{
    lemma_patterns(0, 0);
    if 0 <= e < n {
        lemma_patterns(lane(q, z, i, e), 0);
    }
    if n > 0 {
        lemma_signs(q, z, i, e, (n - 1) as nat);
        lemma_patterns(lane(q, z, i, n - 1), 0);
    }
}

/// The message that a check sends, from what its edges bring.
proof fn lemma_message<F: Fn(u32, u32) -> u32>(
    plus: F,
    unit: int,
    most: int,
    beta: u32,
    q: Seq<u32>,
    z: int,
    i: int,
    e: int,
    n: nat,
    raw: u32,
    bound: int,
)
    requires
        unit > 0,
        adds_exactly(plus, unit, most),
        whole(beta, unit),
        value(beta) >= 0,
        2 <= n,
        0 <= e < n,
        forall|f: int| 0 <= f < n ==> whole(#[trigger] lane(q, z, i, f), unit),
        forall|f: int| 0 <= f < n ==> absolute(value(#[trigger] lane(q, z, i, f))) <= bound,
        bound + value(beta) <= most,
        bound < amount(LARGEST as int),
        call_ensures(plus, (excluded_min(q, z, i, e, n), negated(beta)), raw),
    ensures
        ({
            let sent = message(raw, excluded_sign(q, z, i, e, n));
            &&& whole(sent, unit)
            &&& exists|f: int|
                0 <= f < n && f != e && absolute(value(sent)) == less_offset(
                    absolute(value(#[trigger] lane(q, z, i, f))),
                    value(beta),
                )
            &&& forall|f: int|
                0 <= f < n && f != e ==> absolute(value(sent)) <= less_offset(
                    absolute(value(#[trigger] lane(q, z, i, f))),
                    value(beta),
                )
            &&& value(sent) != 0 ==> (value(sent) < 0 <==> others_signed(q, z, i, e, n) % 2 == 1)
            &&& value(sent) != 0 ==> forall|f: int|
                0 <= f < n && f != e ==> value(#[trigger] lane(q, z, i, f)) != 0
        }),
{
    let least = min_others(q, z, i, e, n);
    lemma_min_others_reached(q, z, i, e, n);
    let g: int = if e == 0 {
        1
    } else {
        0
    };
    let x = lane(q, z, i, g);
    assert(absolute(value(x)) <= bound);
    lemma_value(x);
    if magnitude(x) >= LARGEST {
        lemma_amount_order(LARGEST as int, magnitude(x) as int);
    }
    assert(least < LARGEST);
    let f = choose|f: int| 0 <= f < n && f != e && least == magnitude(#[trigger] lane(q, z, i, f));
    let y = lane(q, z, i, f);
    lemma_value(y);
    lemma_patterns(y, 0);
    lemma_value(least);
    lemma_patterns(least, 0);
    assert(whole(y, unit) && absolute(value(y)) <= bound);
    lemma_multiples(value(y), 0, unit);
    lemma_whole_signed(beta, 1, unit);
    assert(excluded_min(q, z, i, e, n) == least);
    assert(value(least) == absolute(value(y)));
    assert(whole(least, unit));
    assert(value(raw) == absolute(value(y)) - value(beta));
    lemma_value(raw);
    lemma_patterns(raw, 0);
    lemma_patterns(0, 0);
    lemma_value(0);
    lemma_signs(q, z, i, e, n);
    let own = lane(q, z, i, e);
    lemma_patterns(own, 0);
    let sign = excluded_sign(q, z, i, e, n);
    let odd = others_signed(q, z, i, e, n) % 2 == 1;
    assert(sign == (if odd {
        0x8000_0000u32
    } else {
        0u32
    }));
    let sent = message(raw, sign);
    lemma_value(sent);
    lemma_patterns(sent, 0);
    lemma_multiples(value(raw), 0, unit);
    assert(absolute(value(sent)) == less_offset(absolute(value(y)), value(beta)));
    assert forall|k: int| 0 <= k < n && k != e implies absolute(value(sent)) <= less_offset(
        absolute(value(#[trigger] lane(q, z, i, k))),
        value(beta),
    ) && (value(sent) != 0 ==> value(lane(q, z, i, k)) != 0) by {
        let w = lane(q, z, i, k);
        lemma_value(w);
        lemma_amount_order(least as int, magnitude(w) as int);
    }
}

proof fn lemma_signs_below(
    p: QcLdpcParams,
    layer: int,
    llr: Seq<u32>,
    r: Seq<u32>,
    q: Seq<u32>,
    e: int,
    i: int,
    n: nat,
)
    requires
        forall|f: int|
            0 <= f < n ==> value(#[trigger] lane(q, p.z as int, i, f)) == brought(
                p,
                layer,
                llr,
                r,
                f,
                i,
            ),
        forall|f: int| 0 <= f < n && f != e ==> value(#[trigger] lane(q, p.z as int, i, f)) != 0,
    ensures
        others_signed(q, p.z as int, i, e, n) == others_below(p, layer, llr, r, e, i, n),
    decreases n,
{
    if n > 0 {
        lemma_signs_below(p, layer, llr, r, q, e, i, (n - 1) as nat);
        lemma_value(lane(q, p.z as int, i, n - 1));
    }
}

/// A row block in numbers. Edge `e` of check `i` gets the least distance from
/// zero of what the other edges bring, less the offset and not below zero,
/// and below zero where an odd number of them is; its bit's likelihood is
/// then what the edge brought and what it got.
pub proof fn lemma_row_block<F: Fn(u32, u32) -> u32>(
    plus: F,
    unit: int,
    most: int,
    p: QcLdpcParams,
    beta: u32,
    layer: int,
    llr: Seq<u32>,
    r: Seq<u32>,
    llr_after: Seq<u32>,
    r_after: Seq<u32>,
    bound: int,
    e: int,
    i: int,
)
    requires
        p.wf(),
        0 <= layer < p.num_row_blocks,
        columns_apart(p, layer),
        2 <= degree(p, layer),
        llr.len() == p.num_col_blocks * p.z,
        r.len() >= p.submatrix_cols@.len() * p.z,
        unit > 0,
        adds_exactly(plus, unit, most),
        whole(beta, unit),
        value(beta) >= 0,
        forall|v: int| 0 <= v < llr.len() ==> whole(#[trigger] llr[v], unit),
        forall|k: int| 0 <= k < r.len() ==> whole(#[trigger] r[k], unit),
        forall|v: int| 0 <= v < llr.len() ==> absolute(value(#[trigger] llr[v])) <= bound,
        forall|k: int| 0 <= k < r.len() ==> absolute(value(#[trigger] r[k])) <= bound,
        4 * bound + value(beta) <= most,
        2 * bound < amount(LARGEST as int),
        layer_updated(plus, p, beta, layer, llr, r, llr_after, r_after),
        0 <= e < degree(p, layer),
        0 <= i < p.z,
    ensures
        ({
            let edge = p.layer_offsets@[layer] + e;
            let v = p.submatrix_cols@[edge] * p.z + (i + p.submatrix_shifts@[edge]) % (p.z as int);
            let sent = value(r_after[edge * p.z + i]);
            let b = value(beta);
            let n = degree(p, layer);
            &&& exists|f: int|
                0 <= f < n && f != e && absolute(sent) == less_offset(
                    absolute(#[trigger] brought(p, layer, llr, r, f, i)),
                    b,
                )
            &&& forall|f: int|
                0 <= f < n && f != e ==> absolute(sent) <= less_offset(
                    absolute(#[trigger] brought(p, layer, llr, r, f, i)),
                    b,
                )
            &&& sent != 0 ==> (sent < 0 <==> others_below(p, layer, llr, r, e, i, n) % 2 == 1)
            &&& value(llr_after[v]) == brought(p, layer, llr, r, e, i) + sent
        }),
        forall|k: int|
            0 <= k < r.len() && !(p.layer_offsets@[layer] * p.z <= k < p.layer_offsets@[layer + 1]
                * p.z) ==> #[trigger] r_after[k] == r[k],
{
    let n = degree(p, layer);
    let z = p.z as int;
    let off = p.layer_offsets@[layer] as int;
    assert(p.layer_offsets@[layer] <= p.layer_offsets@[layer + 1]);
    let q = choose|q: Seq<u32>| #[trigger]
        all_to_check(plus, p, layer, llr, r, q) && edges_updated(
            plus,
            p,
            beta,
            layer,
            q,
            degree(p, layer),
            llr,
            r,
            llr_after,
            r_after,
        );
    lemma_edges(plus, p, beta, layer, q, n, llr, r, llr_after, r_after);
    assert forall|f: int| 0 <= f < n implies whole(#[trigger] lane(q, z, i, f), unit) && value(
        lane(q, z, i, f),
    ) == brought(p, layer, llr, r, f, i) && absolute(value(lane(q, z, i, f))) <= 2 * bound by {
        lemma_places(p, layer, f, i, f, i);
        assert(to_check(plus, p, layer, llr, r, q, f, i));
        let v = p.variable(off + f, i);
        let at = (off + f) * z + i;
        assert(whole(llr[v], unit) && whole(r[at], unit));
        assert(absolute(value(llr[v])) <= bound && absolute(value(r[at])) <= bound);
        lemma_whole_signed(r[at], 1, unit);
        lemma_value(r[at]);
    }
    lemma_places(p, layer, e, i, e, i);
    let edge = off + e;
    let v = p.variable(edge, i);
    let at = edge * z + i;
    assert(lane_result(plus, p, beta, layer, q, e, i, llr, r, llr_after, r_after));
    let least = excluded_min(q, z, i, e, n);
    let sign = excluded_sign(q, z, i, e, n);
    let (raw, delta) = choose|raw: u32, delta: u32|
        {
            &&& #[trigger] call_ensures(plus, (least, negated(beta)), raw)
            &&& #[trigger] call_ensures(plus, (message(raw, sign), negated(r[at])), delta)
            &&& call_ensures(plus, (llr[v], delta), llr_after[v])
            &&& r_after[at] == message(raw, sign)
        };
    lemma_message(plus, unit, most, beta, q, z, i, e, n, raw, 2 * bound);
    let sent = message(raw, sign);
    if value(sent) != 0 {
        lemma_signs_below(p, layer, llr, r, q, e, i, n);
    }
    let f = choose|f: int|
        0 <= f < n && f != e && absolute(value(sent)) == less_offset(
            absolute(value(#[trigger] lane(q, z, i, f))),
            value(beta),
        );
    assert(absolute(value(lane(q, z, i, f))) <= 2 * bound);
    assert(absolute(value(sent)) == less_offset(
        absolute(brought(p, layer, llr, r, f, i)),
        value(beta),
    ));
    assert forall|k: int| 0 <= k < n && k != e implies absolute(value(sent)) <= less_offset(
        absolute(#[trigger] brought(p, layer, llr, r, k, i)),
        value(beta),
    ) by {
        assert(value(lane(q, z, i, k)) == brought(p, layer, llr, r, k, i));
    }
    lemma_whole_signed(r[at], 1, unit);
    lemma_value(r[at]);
    assert(whole(llr[v], unit) && whole(r[at], unit));
    assert(absolute(value(llr[v])) <= bound && absolute(value(r[at])) <= bound);
    assert(value(delta) == value(sent) - value(r[at]));
}

proof fn lemma_offsets_grow(p: QcLdpcParams, a: int, b: int)
    requires
        p.wf(),
        0 <= a <= b <= p.num_row_blocks,
    ensures
        p.layer_offsets@[a] <= p.layer_offsets@[b] <= p.submatrix_cols@.len(),
        p.layer_offsets@[a] * p.z <= p.layer_offsets@[b] * p.z,
    decreases b - a,
{
    if a < b {
        lemma_offsets_grow(p, a, b - 1);
        assert(p.layer_offsets@[b - 1] <= p.layer_offsets@[b]);
    } else if a < p.num_row_blocks {
        assert(p.layer_offsets@[a] <= p.layer_offsets@[a + 1]);
    }
    assert(p.layer_offsets@[a] * p.z <= p.layer_offsets@[b] * p.z) by (nonlinear_arith)
        requires
            p.layer_offsets@[a] <= p.layer_offsets@[b],
            p.z >= 0,
    ;
}

proof fn lemma_layer_frame<F: Fn(u32, u32) -> u32>(
    plus: F,
    p: QcLdpcParams,
    beta: u32,
    layer: int,
    llr: Seq<u32>,
    r: Seq<u32>,
    llr_after: Seq<u32>,
    r_after: Seq<u32>,
)
    requires
        p.wf(),
        0 <= layer < p.num_row_blocks,
        columns_apart(p, layer),
        llr.len() == p.num_col_blocks * p.z,
        r.len() >= p.submatrix_cols@.len() * p.z,
        layer_updated(plus, p, beta, layer, llr, r, llr_after, r_after),
    ensures
        llr_after.len() == llr.len(),
        r_after.len() == r.len(),
        forall|k: int|
            0 <= k < r.len() && !(p.layer_offsets@[layer] * p.z <= k < p.layer_offsets@[layer + 1]
                * p.z) ==> #[trigger] r_after[k] == r[k],
{
    assert(p.layer_offsets@[layer] <= p.layer_offsets@[layer + 1]);
    let q = choose|q: Seq<u32>| #[trigger]
        all_to_check(plus, p, layer, llr, r, q) && edges_updated(
            plus,
            p,
            beta,
            layer,
            q,
            degree(p, layer),
            llr,
            r,
            llr_after,
            r_after,
        );
    lemma_edges(plus, p, beta, layer, q, degree(p, layer), llr, r, llr_after, r_after);
}

/// The same messages at the places of a row block.
pub open spec fn same_messages(p: QcLdpcParams, layer: int, r: Seq<u32>, s: Seq<u32>) -> bool {
    forall|k: int|
        p.layer_offsets@[layer] * p.z <= k < p.layer_offsets@[layer + 1] * p.z
            ==> #[trigger] r[k] == s[k]
}

/// A pass visits every row block, in order and once: each is updated from
/// the messages that it had before the pass, and keeps what it then sent.
pub proof fn lemma_pass_visits<F: Fn(u32, u32) -> u32>(
    plus: F,
    p: QcLdpcParams,
    beta: u32,
    n: nat,
    llr: Seq<u32>,
    r: Seq<u32>,
    llr_after: Seq<u32>,
    r_after: Seq<u32>,
    layer: int,
) -> (s: ((Seq<u32>, Seq<u32>), (Seq<u32>, Seq<u32>)))
    requires
        p.wf(),
        n <= p.num_row_blocks,
        forall|l: int| 0 <= l < p.num_row_blocks ==> #[trigger] columns_apart(p, l),
        llr.len() == p.num_col_blocks * p.z,
        r.len() >= p.submatrix_cols@.len() * p.z,
        layers_updated(plus, p, beta, n, llr, r, llr_after, r_after),
        0 <= layer < n,
    ensures
        layer_updated(plus, p, beta, layer, s.0.0, s.0.1, s.1.0, s.1.1),
        same_messages(p, layer, s.0.1, r),
        same_messages(p, layer, s.1.1, r_after),
        s.0.0.len() == llr.len(),
        s.0.1.len() == r.len(),
        llr_after.len() == llr.len(),
        r_after.len() == r.len(),
        layer == 0 ==> s.0 == (llr, r),
        layer == n - 1 ==> s.1 == (llr_after, r_after),
    decreases n,
{
    let (lm, rm) = choose|llr_mid: Seq<u32>, r_mid: Seq<u32>|
        {
            &&& layers_updated(plus, p, beta, (n - 1) as nat, llr, r, llr_mid, r_mid)
            &&& #[trigger] layer_updated(
                plus,
                p,
                beta,
                n - 1,
                llr_mid,
                r_mid,
                llr_after,
                r_after,
            )
        };
    assert(columns_apart(p, n - 1));
    lemma_layers_frame(plus, p, beta, (n - 1) as nat, llr, r, lm, rm);
    lemma_layer_frame(plus, p, beta, n - 1, lm, rm, llr_after, r_after);
    lemma_offsets_grow(p, 0, n - 1);
    lemma_offsets_grow(p, n as int, p.num_row_blocks as int);
    if layer == n - 1 {
        lemma_full_range(p, layer);
        ((lm, rm), (llr_after, r_after))
    } else {
        let s = lemma_pass_visits(plus, p, beta, (n - 1) as nat, llr, r, lm, rm, layer);
        lemma_offsets_grow(p, layer + 1, n - 1);
        lemma_offsets_grow(p, 0, layer);
        lemma_full_range(p, layer);
        s
    }
}

proof fn lemma_full_range(p: QcLdpcParams, layer: int)
    requires
        p.wf(),
        0 <= layer < p.num_row_blocks,
    ensures
        0 <= p.layer_offsets@[layer] * p.z <= p.layer_offsets@[layer + 1] * p.z
            <= p.submatrix_cols@.len() * p.z,
{
    lemma_offsets_grow(p, 0, layer);
    lemma_offsets_grow(p, layer, layer + 1);
    lemma_offsets_grow(p, layer + 1, p.num_row_blocks as int);
    assert(0 <= p.layer_offsets@[layer] * p.z) by (nonlinear_arith);
}

proof fn lemma_layers_frame<F: Fn(u32, u32) -> u32>(
    plus: F,
    p: QcLdpcParams,
    beta: u32,
    n: nat,
    llr: Seq<u32>,
    r: Seq<u32>,
    llr_after: Seq<u32>,
    r_after: Seq<u32>,
)
    requires
        p.wf(),
        n <= p.num_row_blocks,
        forall|l: int| 0 <= l < p.num_row_blocks ==> #[trigger] columns_apart(p, l),
        llr.len() == p.num_col_blocks * p.z,
        r.len() >= p.submatrix_cols@.len() * p.z,
        layers_updated(plus, p, beta, n, llr, r, llr_after, r_after),
    ensures
        llr_after.len() == llr.len(),
        r_after.len() == r.len(),
        forall|k: int|
            p.layer_offsets@[n as int] * p.z <= k < r.len() ==> #[trigger] r_after[k] == r[k],
        n == 0 ==> llr_after == llr && r_after == r,
    decreases n,
{
    if n > 0 {
        let (lm, rm) = choose|llr_mid: Seq<u32>, r_mid: Seq<u32>|
            {
                &&& layers_updated(plus, p, beta, (n - 1) as nat, llr, r, llr_mid, r_mid)
                &&& #[trigger] layer_updated(
                    plus,
                    p,
                    beta,
                    n - 1,
                    llr_mid,
                    r_mid,
                    llr_after,
                    r_after,
                )
            };
        assert(columns_apart(p, n - 1));
        lemma_layers_frame(plus, p, beta, (n - 1) as nat, llr, r, lm, rm);
        lemma_layer_frame(plus, p, beta, n - 1, lm, rm, llr_after, r_after);
        lemma_full_range(p, n - 1);
    }
}

/// One pass over all row blocks.
pub open spec fn pass_made<F: Fn(u32, u32) -> u32>(
    plus: F,
    p: QcLdpcParams,
    beta: u32,
    from: (Seq<u32>, Seq<u32>),
    to: (Seq<u32>, Seq<u32>),
) -> bool {
    layers_updated(plus, p, beta, p.num_row_blocks as nat, from.0, from.1, to.0, to.1)
}

proof fn lemma_trace<F: Fn(u32, u32) -> u32>(
    plus: F,
    p: QcLdpcParams,
    beta: u32,
    k: nat,
    llr: Seq<u32>,
    r: Seq<u32>,
    llr_after: Seq<u32>,
    r_after: Seq<u32>,
) -> (trace: Seq<(Seq<u32>, Seq<u32>)>)
    requires
        passes_run(plus, p, beta, k, llr, r, llr_after, r_after),
    ensures
        trace.len() == k + 1,
        trace[0] == (llr, r),
        trace[k as int] == (llr_after, r_after),
        forall|j: int|
            0 <= j < k ==> pass_made(plus, p, beta, #[trigger] trace[j], trace[j + 1]),
        forall|j: int| 1 <= j < k ==> !p.satisfied(hard_bits((#[trigger] trace[j]).0)),
    decreases k,
{
    if k == 0 {
        seq![(llr, r)]
    } else {
        let (llr_mid, r_mid) = choose|llr_mid: Seq<u32>, r_mid: Seq<u32>|
            {
                &&& passes_run(plus, p, beta, (k - 1) as nat, llr, r, llr_mid, r_mid)
                &&& k > 1 ==> !p.satisfied(hard_bits(llr_mid))
                &&& #[trigger] layers_updated(
                    plus,
                    p,
                    beta,
                    p.num_row_blocks as nat,
                    llr_mid,
                    r_mid,
                    llr_after,
                    r_after,
                )
            };
        let first = lemma_trace(plus, p, beta, (k - 1) as nat, llr, r, llr_mid, r_mid);
        let trace = first.push((llr_after, r_after));
        assert forall|j: int| 0 <= j < k implies pass_made(
            plus,
            p,
            beta,
            #[trigger] trace[j],
            trace[j + 1],
        ) by {
            if j < k - 1 {
                assert(pass_made(plus, p, beta, first[j], first[j + 1]));
            }
        }
        assert forall|j: int| 1 <= j < k implies !p.satisfied(
            hard_bits((#[trigger] trace[j]).0),
        ) by {
            if j < k - 1 {
                assert(!p.satisfied(hard_bits(first[j].0)));
            }
        }
        trace
    }
}

/// When decoding stops: after the first pass whose decisions satisfy every
/// check, and otherwise only when the passes allowed are used up. The passes
/// follow one another, from the likelihoods received to those returned.
pub proof fn lemma_stops_first<F: Fn(u32, u32) -> u32>(
    plus: F,
    p: QcLdpcParams,
    beta: u32,
    iterations: nat,
    llr: Seq<u32>,
    r: Seq<u32>,
    used: nat,
    llr_after: Seq<u32>,
    r_after: Seq<u32>,
) -> (trace: Seq<(Seq<u32>, Seq<u32>)>)
    requires
        min_sum_decoded(plus, p, beta, iterations, llr, r, used, llr_after, r_after),
    ensures
        used <= iterations,
        trace.len() == used + 1,
        trace[0] == (llr, r),
        trace[used as int] == (llr_after, r_after),
        forall|j: int|
            0 <= j < used ==> pass_made(plus, p, beta, #[trigger] trace[j], trace[j + 1]),
        forall|j: int| 1 <= j < used ==> !p.satisfied(hard_bits((#[trigger] trace[j]).0)),
        used < iterations ==> used >= 1 && p.satisfied(hard_bits(llr_after)),
{
    lemma_trace(plus, p, beta, used, llr, r, llr_after, r_after)
}

/// Where decoding has stopped at satisfied checks, it would have stopped
/// there with any number of passes that allows for it.
pub proof fn lemma_more_passes<F: Fn(u32, u32) -> u32>(
    plus: F,
    p: QcLdpcParams,
    beta: u32,
    iterations: nat,
    others: nat,
    llr: Seq<u32>,
    r: Seq<u32>,
    used: nat,
    llr_after: Seq<u32>,
    r_after: Seq<u32>,
)
    requires
        min_sum_decoded(plus, p, beta, iterations, llr, r, used, llr_after, r_after),
        used >= 1,
        p.satisfied(hard_bits(llr_after)),
        others >= used,
    ensures
        min_sum_decoded(plus, p, beta, others, llr, r, used, llr_after, r_after),
{
}

} // verus!
