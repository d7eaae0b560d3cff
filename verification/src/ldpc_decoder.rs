//! Layered offset min-sum decoding of lifted base graphs.
//!
//! Log-likelihood ratios are bit patterns of single-precision numbers,
//! positive for a zero bit. The caller hands over the addition of two such
//! patterns.

use crate::bits::{is_bits, lemma_xor_bits};
use crate::error::FecError;
use crate::min_sum::{
    excluded_min,
    excluded_sign,
    lane,
    lemma_min_others_small,
    lemma_row_bound,
    message,
    scan_lane,
    sign_sum,
    LARGEST,
};
use crate::polar::all_decide;
use crate::qc_ldpc::{
    in_lifting_set,
    is_lifting_size,
    lemma_row_edges_len,
    lifted,
    BaseGraph,
    BaseGraphTable,
    QcLdpcParams,
};
use crate::soft::{decides, hard, hard_bit, lemma_patterns, magnitude, negative, positive};
use crate::numbers::value;
use vstd::arithmetic::power2::{lemma2_to64, lemma_pow2_adds, pow2};
use vstd::prelude::*;

verus! {

/// The negated pattern.
pub open spec fn negated(p: u32) -> u32 {
    p ^ 0x8000_0000
}

/// Hard decisions.
pub open spec fn hard_bits(llr: Seq<u32>) -> Seq<u8> {
    Seq::new(llr.len(), |i: int| hard(llr[i]))
}

/// Number of edges of row block `layer`.
pub open spec fn degree(p: QcLdpcParams, layer: int) -> nat {
    (p.layer_offsets@[layer + 1] - p.layer_offsets@[layer]) as nat
}

/// The message from variable to check on edge `e`, lane `i`, of a row block:
/// the variable's value less what the check had sent it.
pub open spec fn to_check<F: Fn(u32, u32) -> u32>(
    plus: F,
    p: QcLdpcParams,
    layer: int,
    llr: Seq<u32>,
    r: Seq<u32>,
    q: Seq<u32>,
    e: int,
    i: int,
) -> bool {
    let edge = p.layer_offsets@[layer] + e;
    call_ensures(
        plus,
        (llr[p.variable(edge, i)], negated(r[edge * p.z + i])),
        lane(q, p.z as int, i, e),
    )
}

/// All messages from variables to the checks of a row block.
pub open spec fn all_to_check<F: Fn(u32, u32) -> u32>(
    plus: F,
    p: QcLdpcParams,
    layer: int,
    llr: Seq<u32>,
    r: Seq<u32>,
    q: Seq<u32>,
) -> bool {
    forall|e: int, i: int|
        0 <= e < degree(p, layer) && 0 <= i < p.z ==> #[trigger] to_check(
            plus,
            p,
            layer,
            llr,
            r,
            q,
            e,
            i,
        )
}

/// Edge `e`, lane `i`, of a row block updated: the check's new message
/// replaces the old one, and the difference goes to the variable.
pub open spec fn lane_updated<F: Fn(u32, u32) -> u32>(
    plus: F,
    p: QcLdpcParams,
    beta: u32,
    layer: int,
    q: Seq<u32>,
    e: int,
    i: int,
    llr: Seq<u32>,
    r: Seq<u32>,
    llr_after: Seq<u32>,
    r_after: Seq<u32>,
) -> bool {
    let z = p.z as int;
    let edge = p.layer_offsets@[layer] + e;
    let at = edge * z + i;
    let v = p.variable(edge, i);
    let least = excluded_min(q, z, i, e, degree(p, layer));
    let sign = excluded_sign(q, z, i, e, degree(p, layer));
    exists|raw: u32, delta: u32|
        {
            &&& #[trigger] call_ensures(plus, (least, negated(beta)), raw)
            &&& #[trigger] call_ensures(plus, (message(raw, sign), negated(r[at])), delta)
            &&& call_ensures(plus, (llr[v], delta), llr_after[v])
            &&& llr_after == llr.update(v, llr_after[v])
            &&& r_after == r.update(at, message(raw, sign))
        }
}

/// The first `n` lanes of edge `e` updated.
pub open spec fn lanes_updated<F: Fn(u32, u32) -> u32>(
    plus: F,
    p: QcLdpcParams,
    beta: u32,
    layer: int,
    q: Seq<u32>,
    e: int,
    n: nat,
    llr: Seq<u32>,
    r: Seq<u32>,
    llr_after: Seq<u32>,
    r_after: Seq<u32>,
) -> bool
    decreases n,
{
    if n == 0 {
        llr_after == llr && r_after == r
    } else {
        exists|llr_mid: Seq<u32>, r_mid: Seq<u32>|
            {
                &&& lanes_updated(
                    plus,
                    p,
                    beta,
                    layer,
                    q,
                    e,
                    (n - 1) as nat,
                    llr,
                    r,
                    llr_mid,
                    r_mid,
                )
                &&& #[trigger] lane_updated(
                    plus,
                    p,
                    beta,
                    layer,
                    q,
                    e,
                    n - 1,
                    llr_mid,
                    r_mid,
                    llr_after,
                    r_after,
                )
            }
    }
}

/// The first `n` edges of a row block updated.
pub open spec fn edges_updated<F: Fn(u32, u32) -> u32>(
    plus: F,
    p: QcLdpcParams,
    beta: u32,
    layer: int,
    q: Seq<u32>,
    n: nat,
    llr: Seq<u32>,
    r: Seq<u32>,
    llr_after: Seq<u32>,
    r_after: Seq<u32>,
) -> bool
    decreases n,
{
    if n == 0 {
        llr_after == llr && r_after == r
    } else {
        exists|llr_mid: Seq<u32>, r_mid: Seq<u32>|
            {
                &&& edges_updated(plus, p, beta, layer, q, (n - 1) as nat, llr, r, llr_mid, r_mid)
                &&& #[trigger] lanes_updated(
                    plus,
                    p,
                    beta,
                    layer,
                    q,
                    n - 1,
                    p.z as nat,
                    llr_mid,
                    r_mid,
                    llr_after,
                    r_after,
                )
            }
    }
}

/// A row block updated, from the messages that its checks received.
pub open spec fn layer_updated<F: Fn(u32, u32) -> u32>(
    plus: F,
    p: QcLdpcParams,
    beta: u32,
    layer: int,
    llr: Seq<u32>,
    r: Seq<u32>,
    llr_after: Seq<u32>,
    r_after: Seq<u32>,
) -> bool {
    exists|q: Seq<u32>| #[trigger]
        all_to_check(plus, p, layer, llr, r, q) && edges_updated(
            plus,
            p,
            beta,
            layer,
            q,
            degree(p, layer),
            llr,
            r,
            llr_after,
            r_after,
        )
}

/// The first `n` row blocks updated, one after the other.
pub open spec fn layers_updated<F: Fn(u32, u32) -> u32>(
    plus: F,
    p: QcLdpcParams,
    beta: u32,
    n: nat,
    llr: Seq<u32>,
    r: Seq<u32>,
    llr_after: Seq<u32>,
    r_after: Seq<u32>,
) -> bool
    decreases n,
{
    if n == 0 {
        llr_after == llr && r_after == r
    } else {
        exists|llr_mid: Seq<u32>, r_mid: Seq<u32>|
            {
                &&& layers_updated(plus, p, beta, (n - 1) as nat, llr, r, llr_mid, r_mid)
                &&& #[trigger] layer_updated(
                    plus,
                    p,
                    beta,
                    n - 1,
                    llr_mid,
                    r_mid,
                    llr_after,
                    r_after,
                )
            }
    }
}

/// After `k` passes over all row blocks, none of which but the last ended
/// with every check satisfied.
pub open spec fn passes_run<F: Fn(u32, u32) -> u32>(
    plus: F,
    p: QcLdpcParams,
    beta: u32,
    k: nat,
    llr: Seq<u32>,
    r: Seq<u32>,
    llr_after: Seq<u32>,
    r_after: Seq<u32>,
) -> bool
    decreases k,
{
    if k == 0 {
        llr_after == llr && r_after == r
    } else {
        exists|llr_mid: Seq<u32>, r_mid: Seq<u32>|
            {
                &&& passes_run(plus, p, beta, (k - 1) as nat, llr, r, llr_mid, r_mid)
                &&& k > 1 ==> !p.satisfied(hard_bits(llr_mid))
                &&& #[trigger] layers_updated(
                    plus,
                    p,
                    beta,
                    p.num_row_blocks as nat,
                    llr_mid,
                    r_mid,
                    llr_after,
                    r_after,
                )
            }
    }
}

/// The likelihoods that decoding with `iterations` passes ends with, after
/// `used` passes: the first after which every check is satisfied, or the
/// last.
pub open spec fn min_sum_decoded<F: Fn(u32, u32) -> u32>(
    plus: F,
    p: QcLdpcParams,
    beta: u32,
    iterations: nat,
    llr: Seq<u32>,
    r: Seq<u32>,
    used: nat,
    llr_after: Seq<u32>,
    r_after: Seq<u32>,
) -> bool {
    &&& used <= iterations
    &&& passes_run(plus, p, beta, used, llr, r, llr_after, r_after)
    &&& used == iterations || (used >= 1 && p.satisfied(hard_bits(llr_after)))
}

/// Zeros over the first `n` entries.
pub open spec fn cleared(r: Seq<u32>, n: int) -> Seq<u32> {
    Seq::new(
        r.len(),
        |i: int|
            if i < n {
                0
            } else {
                r[i]
            },
    )
}

/// Decoding forgets what its message buffer held: two buffers start out with
/// the same messages, and beyond them each keeps its own entries.
pub proof fn lemma_fresh_messages(r: Seq<u32>, s: Seq<u32>, n: int)
    requires
        0 <= n <= r.len(),
        n <= s.len(),
    ensures
        cleared(r, n).take(n) == cleared(s, n).take(n),
        cleared(r, n).skip(n) == r.skip(n),
        cleared(r, n).len() == r.len(),
{
    assert(cleared(r, n).take(n) =~= cleared(s, n).take(n));
    assert(cleared(r, n).skip(n) =~= r.skip(n));
}

/// A decoder: a lifted base graph and the offset, as a pattern.
#[derive(Clone)]
pub struct QcLdpcDecoder {
    params: QcLdpcParams,
    offset_beta: u32,
}

impl QcLdpcDecoder {
    /// The lifted base graph.
    pub closed spec fn params(&self) -> QcLdpcParams {
        self.params
    }

    /// The offset.
    pub closed spec fn offset(&self) -> u32 {
        self.offset_beta
    }

    /// The graph is in order, and the buffers for its edges can be counted.
    pub open spec fn wf(&self) -> bool {
        &&& self.params().wf()
        &&& self.params().submatrix_cols@.len() * 384 <= usize::MAX
        &&& self.params().max_layer_degree * 384 <= usize::MAX
    }

    /// Number of information bits, fillers among them.
    pub open spec fn info_bits(&self) -> int {
        (self.params().num_col_blocks - self.params().num_row_blocks) * self.params().z
    }

    /// The likelihoods that decoding starts from: those of the last fillers
    /// among the information positions known to be zero, and those of the
    /// first two column blocks unknown.
    pub open spec fn start_5g(&self, llr: Seq<u32>, n_filler: int) -> Seq<u32> {
        prepared(llr, self.info_bits(), n_filler, 2 * self.params().z)
    }

    /// Entries of a buffer for the messages of all edges.
    pub open spec fn edge_entries(&self) -> int {
        self.params().submatrix_cols@.len() * self.params().z
    }

    /// Entries of a buffer for the messages of one row block.
    pub open spec fn layer_entries(&self) -> int {
        self.params().max_layer_degree * self.params().z
    }

    proof fn lemma_buffers(&self)
        requires
            self.wf(),
        ensures
            0 <= self.edge_entries() <= usize::MAX,
            0 <= self.layer_entries() <= usize::MAX,
    {
        let z = self.params.z as int;
        let n = self.params.submatrix_cols@.len() as int;
        let d = self.params.max_layer_degree as int;
        assert(0 <= n * z <= n * 384) by (nonlinear_arith)
            requires
                0 <= n,
                0 <= z <= 384,
        ;
        assert(0 <= d * z <= d * 384) by (nonlinear_arith)
            requires
                0 <= d,
                0 <= z <= 384,
        ;
    }

    /// Number of variable nodes.
    pub fn variable_node_count(&self) -> (n: usize)
        requires
            self.wf(),
        ensures
            n == self.params().num_col_blocks * self.params().z,
    {
        self.params.variable_node_count()
    }

    /// Number of check nodes.
    pub fn check_node_count(&self) -> (n: usize)
        requires
            self.wf(),
        ensures
            n == self.params().num_row_blocks * self.params().z,
    {
        self.params.check_node_count()
    }

    /// Entries of a buffer for the messages of all edges.
    pub fn required_edge_buffer(&self) -> (n: usize)
        requires
            self.wf(),
        ensures
            n == self.edge_entries(),
    {
        proof {
            self.lemma_buffers();
        }
        self.params.submatrix_shifts.len() * self.params.z
    }

    /// Entries of a buffer for the messages of one row block.
    pub fn required_layer_buffer(&self) -> (n: usize)
        requires
            self.wf(),
        ensures
            n == self.layer_entries(),
    {
        proof {
            self.lemma_buffers();
        }
        self.params.max_layer_degree * self.params.z
    }

    /// The lifted base graph.
    pub fn parameters(&self) -> (p: &QcLdpcParams)
        ensures
            *p == self.params(),
    {
        &self.params
    }

    /// Number of information bits, fillers counted.
    pub fn info_bit_count_5g(&self) -> (n: usize)
        requires
            self.wf(),
        ensures
            n == (self.params().num_col_blocks - self.params().num_row_blocks) * self.params().z,
    {
        self.params.info_bit_count_5g()
    }

    /// Whether the hard decisions satisfy every check.
    fn check_syndrome(&self, llr: &[u32]) -> (b: bool)
        requires
            self.wf(),
            llr@.len() == self.params.num_col_blocks * self.params.z,
        ensures
            b == self.params.satisfied(hard_bits(llr@)),
    {
        let bits: Vec<u8> = decide_all(llr);
        proof {
            assert(crate::bits::is_bits(bits@));
            crate::bits::lemma_low_bits(bits@);
        }
        self.params.check_syndrome(bits.as_slice())
    }
}

fn decide_all(llr: &[u32]) -> (bits: Vec<u8>)
    ensures
        bits@ == hard_bits(llr@),
{
    let mut bits: Vec<u8> = Vec::new();
    let mut i: usize = 0;
    while i < llr.len()
        invariant
            i <= llr@.len(),
            bits@ == hard_bits(llr@).take(i as int),
        decreases llr@.len() - i,
    {
        bits.push(hard_bit(llr[i]));
        assert(hard_bits(llr@).take(i + 1) =~= hard_bits(llr@).take(i as int).push(
            hard_bits(llr@)[i as int],
        ));
        i = i + 1;
    }
    assert(hard_bits(llr@).take(i as int) =~= hard_bits(llr@));
    bits
}

proof fn lemma_offset_bound(p: QcLdpcParams, table: BaseGraphTable, z: usize, r: int, n: int)
    requires
        lifted(table, z, p),
        0 <= r <= p.num_row_blocks,
        n == table.entries().len(),
    ensures
        p.layer_offsets@[r] <= r * n,
    decreases r,
{
    if r > 0 {
        lemma_offset_bound(p, table, z, r - 1, n);
        let ils = choose|i: int| in_lifting_set(i, z as int);
        assert(in_lifting_set(ils, z as int));
        lemma_row_edges_len(table.entries(), ils, z as int, r - 1, n as nat);
        assert(p.layer_offsets@[r - 1] <= p.layer_offsets@[r - 1 + 1]);
        assert(p.edges(r - 1).len() <= n);
        assert((r - 1) * n + n == r * n) by (nonlinear_arith);
    } else {
        assert(0 * n == 0) by (nonlinear_arith);
    }
}

proof fn lemma_degree_bound(p: QcLdpcParams, n: nat)
    requires
        p.wf(),
        n <= p.num_row_blocks,
    ensures
        p.max_degree(n) <= p.submatrix_cols@.len(),
    decreases n,
{
    if n > 0 {
        lemma_degree_bound(p, (n - 1) as nat);
        assert(p.layer_offsets@[n - 1] <= p.layer_offsets@[n - 1 + 1]);
    }
}

impl QcLdpcDecoder {
    /// A decoder at lifting size `z`.
    pub fn with_lifting_size(table: &BaseGraphTable, z: usize, offset_beta: u32) -> (r: Result<
        QcLdpcDecoder,
        FecError,
    >)
        requires
            table.wf(),
            table.entries().len() * 17664 <= usize::MAX,
        ensures
            match r {
                Ok(d) => is_lifting_size(z as int) && d.wf() && lifted(*table, z, d.params())
                    && d.offset() == offset_beta,
                Err(e) => !is_lifting_size(z as int) && e == FecError::InvalidParam(
                    "z is not a valid 3GPP lifting size",
                ),
            },
    {
        match QcLdpcParams::new(table, z) {
            Err(e) => Err(e),
            Ok(params) => {
                proof {
                    let n = table.entries().len() as int;
                    let rows = params.num_row_blocks as int;
                    assert(lifted(*table, z, params));
                    lemma_offset_bound(params, *table, z, rows, n);
                    lemma_degree_bound(params, rows as nat);
                    assert(rows * n <= 46 * n) by (nonlinear_arith)
                        requires
                            rows <= 46,
                            n >= 0,
                    ;
                }
                Ok(QcLdpcDecoder { params, offset_beta })
            },
        }
    }

    /// A decoder at the default lifting size of its base graph.
    pub fn new(table: &BaseGraphTable, offset_beta: u32) -> (d: QcLdpcDecoder)
        requires
            table.wf(),
            table.entries().len() * 17664 <= usize::MAX,
        ensures
            d.wf(),
            d.offset() == offset_beta,
            lifted(
                *table,
                match table.graph() {
                    BaseGraph::Bg1 => 384usize,
                    BaseGraph::Bg2 => 128usize,
                },
                d.params(),
            ),
    {
        let z: usize = match table.base_graph() {
            BaseGraph::Bg1 => 384,
            BaseGraph::Bg2 => 128,
        };
        proof {
            assert(in_lifting_set(1, 384));
            assert(in_lifting_set(0, 128));
            assert(is_lifting_size(384) && is_lifting_size(128));
        }
        match QcLdpcDecoder::with_lifting_size(table, z, offset_beta) {
            Ok(d) => d,
            Err(_) => {
                assert(false);
                vstd::pervasive::unreached()
            },
        }
    }

    /// The messages from the variables to the checks of a row block.
    fn send_to_checks<F: Fn(u32, u32) -> u32>(
        &self,
        layer: usize,
        llr: &[u32],
        edge_r: &[u32],
        scratch: &mut [u32],
        plus: &F,
    )
        requires
            self.wf(),
            layer < self.params.num_row_blocks,
            llr@.len() == self.params.num_col_blocks * self.params.z,
            edge_r@.len() >= self.edge_entries(),
            old(scratch)@.len() >= self.layer_entries(),
            forall|a: u32, b: u32| call_requires(*plus, (a, b)),
        ensures
            final(scratch)@.len() == old(scratch)@.len(),
            forall|k: int|
                self.layer_entries() <= k < old(scratch)@.len() ==> #[trigger] final(scratch)@[k]
                    == old(scratch)@[k],
            all_to_check(*plus, self.params, layer as int, llr@, edge_r@, final(scratch)@),
    {
        let z: usize = self.params.z;
        let ghost p = self.params;
        assert(p.layer_offsets@[layer as int] <= p.layer_offsets@[layer + 1]);
        let begin: usize = self.params.layer_offsets[layer];
        let end: usize = self.params.layer_offsets[layer + 1];
        let count: usize = end - begin;
        let ghost before = scratch@;
        proof {
            self.lemma_buffers();
            lemma_degree_entries(p, layer as int);
        }
        let mut e: usize = 0;
        let mut q_base: usize = 0;
        while e < count
            invariant
                self.wf(),
                p == self.params,
                z == p.z,
                layer < p.num_row_blocks,
                begin == p.layer_offsets@[layer as int],
                end == p.layer_offsets@[layer + 1],
                begin <= end <= p.submatrix_cols@.len(),
                count == end - begin,
                count == degree(p, layer as int),
                count * z <= self.layer_entries(),
                e <= count,
                q_base == e * z,
                llr@.len() == p.num_col_blocks * z,
                edge_r@.len() >= self.edge_entries(),
                scratch@.len() == before.len(),
                before.len() >= self.layer_entries(),
                self.layer_entries() <= usize::MAX,
                self.edge_entries() <= usize::MAX,
                forall|a: u32, b: u32| call_requires(*plus, (a, b)),
                forall|k: int|
                    self.layer_entries() <= k < before.len() ==> #[trigger] scratch@[k] == before[k],
                forall|f: int, i: int|
                    0 <= f < e && 0 <= i < z ==> #[trigger] to_check(
                        *plus,
                        p,
                        layer as int,
                        llr@,
                        edge_r@,
                        scratch@,
                        f,
                        i,
                    ),
            decreases count - e,
        {
            let edge: usize = begin + e;
            proof {
                lemma_row_bound(e as int, count as int, z as int);
                lemma_row_bound(edge as int, p.submatrix_cols@.len() as int, z as int);
            }
            let base: usize = edge * z;
            let mut i: usize = 0;
            while i < z
                invariant
                    self.wf(),
                    p == self.params,
                    z == p.z,
                    layer < p.num_row_blocks,
                    begin == p.layer_offsets@[layer as int],
                    end == p.layer_offsets@[layer + 1],
                    begin <= end <= p.submatrix_cols@.len(),
                    count == end - begin,
                    count == degree(p, layer as int),
                    e < count,
                    edge == begin + e,
                    base == edge * z,
                    base + z <= self.edge_entries(),
                    q_base == e * z,
                    q_base + z <= self.layer_entries(),
                    i <= z,
                    llr@.len() == p.num_col_blocks * z,
                    edge_r@.len() >= self.edge_entries(),
                    scratch@.len() == before.len(),
                    before.len() >= self.layer_entries(),
                    self.layer_entries() <= usize::MAX,
                    self.edge_entries() <= usize::MAX,
                    forall|a: u32, b: u32| call_requires(*plus, (a, b)),
                    forall|k: int|
                        self.layer_entries() <= k < before.len() ==> #[trigger] scratch@[k]
                            == before[k],
                    forall|f: int, j: int|
                        0 <= f < e && 0 <= j < z ==> #[trigger] to_check(
                            *plus,
                            p,
                            layer as int,
                            llr@,
                            edge_r@,
                            scratch@,
                            f,
                            j,
                        ),
                    forall|j: int|
                        0 <= j < i ==> #[trigger] to_check(
                            *plus,
                            p,
                            layer as int,
                            llr@,
                            edge_r@,
                            scratch@,
                            e as int,
                            j,
                        ),
                decreases z - i,
            {
                let v: usize = self.params.variable_index(edge, i);
                let ghost now = scratch@;
                let value: u32 = plus(llr[v], edge_r[base + i] ^ 0x8000_0000);
                scratch[q_base + i] = value;
                proof {
                    assert forall|f: int, j: int| 0 <= f < e && 0 <= j < z implies #[trigger] to_check(
                        *plus,
                        p,
                        layer as int,
                        llr@,
                        edge_r@,
                        scratch@,
                        f,
                        j,
                    ) by {
                        assert(to_check(*plus, p, layer as int, llr@, edge_r@, now, f, j));
                        lemma_row_bound(f, e as int, z as int);
                    }
                    assert forall|j: int| 0 <= j < i + 1 implies #[trigger] to_check(
                        *plus,
                        p,
                        layer as int,
                        llr@,
                        edge_r@,
                        scratch@,
                        e as int,
                        j,
                    ) by {
                        if j < i {
                            assert(to_check(*plus, p, layer as int, llr@, edge_r@, now, e as int, j));
                        }
                    }
                }
                i = i + 1;
            }
            q_base = q_base + z;
            e = e + 1;
        }
    }

    /// One edge, one lane.
    fn update_lane<F: Fn(u32, u32) -> u32>(
        &self,
        layer: usize,
        q: &[u32],
        e: usize,
        i: usize,
        least: u32,
        sign: u32,
        llr: &mut [u32],
        edge_r: &mut [u32],
        plus: &F,
    )
        requires
            self.wf(),
            layer < self.params.num_row_blocks,
            e < degree(self.params, layer as int),
            i < self.params.z,
            old(llr)@.len() == self.params.num_col_blocks * self.params.z,
            old(edge_r)@.len() >= self.edge_entries(),
            least == excluded_min(
                q@,
                self.params.z as int,
                i as int,
                e as int,
                degree(self.params, layer as int),
            ),
            sign == excluded_sign(
                q@,
                self.params.z as int,
                i as int,
                e as int,
                degree(self.params, layer as int),
            ),
            forall|a: u32, b: u32| call_requires(*plus, (a, b)),
        ensures
            final(llr)@.len() == old(llr)@.len(),
            final(edge_r)@.len() == old(edge_r)@.len(),
            forall|k: int|
                self.edge_entries() <= k < old(edge_r)@.len() ==> #[trigger] final(edge_r)@[k]
                    == old(edge_r)@[k],
            lane_updated(
                *plus,
                self.params,
                self.offset_beta,
                layer as int,
                q@,
                e as int,
                i as int,
                old(llr)@,
                old(edge_r)@,
                final(llr)@,
                final(edge_r)@,
            ),
    {
        let z: usize = self.params.z;
        assert(self.params.layer_offsets@[layer as int] <= self.params.layer_offsets@[layer + 1]);
        let edge: usize = self.params.layer_offsets[layer] + e;
        proof {
            self.lemma_buffers();
            lemma_row_bound(edge as int, self.params.submatrix_cols@.len() as int, z as int);
        }
        let at: usize = edge * z + i;
        let v: usize = self.params.variable_index(edge, i);
        let ghost llr0 = llr@;
        let ghost r0 = edge_r@;
        let raw: u32 = plus(least, self.offset_beta ^ 0x8000_0000);
        let size: u32 = if hard_bit(raw) == 1 {
            0
        } else {
            raw
        };
        let sent: u32 = size | sign;
        let old_sent: u32 = edge_r[at];
        edge_r[at] = sent;
        let delta: u32 = plus(sent, old_sent ^ 0x8000_0000);
        let value: u32 = plus(llr[v], delta);
        llr[v] = value;
        proof {
            assert(sent == message(raw, sign));
            assert(call_ensures(*plus, (least, negated(self.offset_beta)), raw));
            assert(call_ensures(*plus, (message(raw, sign), negated(r0[at as int])), delta));
            assert(llr@ =~= llr0.update(v as int, llr@[v as int]));
            assert(edge_r@ =~= r0.update(at as int, message(raw, sign)));
        }
    }

    /// The messages from the checks of a row block to its variables.
    fn send_to_variables<F: Fn(u32, u32) -> u32>(
        &self,
        layer: usize,
        q: &[u32],
        llr: &mut [u32],
        edge_r: &mut [u32],
        plus: &F,
    )
        requires
            self.wf(),
            layer < self.params.num_row_blocks,
            q@.len() >= self.layer_entries(),
            old(llr)@.len() == self.params.num_col_blocks * self.params.z,
            old(edge_r)@.len() >= self.edge_entries(),
            forall|a: u32, b: u32| call_requires(*plus, (a, b)),
        ensures
            final(llr)@.len() == old(llr)@.len(),
            final(edge_r)@.len() == old(edge_r)@.len(),
            forall|k: int|
                self.edge_entries() <= k < old(edge_r)@.len() ==> #[trigger] final(edge_r)@[k]
                    == old(edge_r)@[k],
            edges_updated(
                *plus,
                self.params,
                self.offset_beta,
                layer as int,
                q@,
                degree(self.params, layer as int),
                old(llr)@,
                old(edge_r)@,
                final(llr)@,
                final(edge_r)@,
            ),
    {
        let z: usize = self.params.z;
        let ghost p = self.params;
        let ghost beta = self.offset_beta;
        assert(p.layer_offsets@[layer as int] <= p.layer_offsets@[layer + 1]);
        let count: usize = self.params.layer_offsets[layer + 1] - self.params.layer_offsets[layer];
        proof {
            self.lemma_buffers();
            lemma_degree_entries(p, layer as int);
        }
        let q_len: usize = q.len();
        let mut minima: Vec<(u32, u32, u32)> = Vec::new();
        let mut i: usize = 0;
        while i < z
            invariant
                i <= z,
                count * z <= q@.len(),
                minima@.len() == i,
                forall|j: int|
                    0 <= j < i ==> #[trigger] scanned(q@, z as int, j, count as nat, minima@[j]),
            decreases z - i,
        {
            let m: (u32, u32, u32) = scan_lane(q, z, count, i);
            minima.push(m);
            assert(scanned(q@, z as int, i as int, count as nat, m));
            i = i + 1;
        }
        let ghost llr0 = llr@;
        let ghost r0 = edge_r@;
        let mut e: usize = 0;
        while e < count
            invariant
                self.wf(),
                p == self.params,
                beta == self.offset_beta,
                z == p.z,
                layer < p.num_row_blocks,
                count == degree(p, layer as int),
                count * z <= q@.len(),
                q_len == q@.len(),
                e <= count,
                llr@.len() == p.num_col_blocks * z,
                llr0.len() == llr@.len(),
                edge_r@.len() == r0.len(),
                r0.len() >= self.edge_entries(),
                minima@.len() == z,
                forall|j: int|
                    0 <= j < z ==> #[trigger] scanned(q@, z as int, j, count as nat, minima@[j]),
                forall|a: u32, b: u32| call_requires(*plus, (a, b)),
                forall|k: int|
                    self.edge_entries() <= k < r0.len() ==> #[trigger] edge_r@[k] == r0[k],
                edges_updated(
                    *plus,
                    p,
                    beta,
                    layer as int,
                    q@,
                    e as nat,
                    llr0,
                    r0,
                    llr@,
                    edge_r@,
                ),
            decreases count - e,
        {
            let ghost llr1 = llr@;
            let ghost r1 = edge_r@;
            proof {
                lemma_row_bound(e as int, count as int, z as int);
            }
            let base: usize = e * z;
            let mut i: usize = 0;
            while i < z
                invariant
                    self.wf(),
                    p == self.params,
                    beta == self.offset_beta,
                    z == p.z,
                    layer < p.num_row_blocks,
                    count == degree(p, layer as int),
                    e < count,
                    base == e * z,
                    base + z <= q_len,
                    q_len == q@.len(),
                    i <= z,
                    llr@.len() == p.num_col_blocks * z,
                    edge_r@.len() == r0.len(),
                    r0.len() >= self.edge_entries(),
                    minima@.len() == z,
                    forall|j: int|
                        0 <= j < z ==> #[trigger] scanned(
                            q@,
                            z as int,
                            j,
                            count as nat,
                            minima@[j],
                        ),
                    forall|a: u32, b: u32| call_requires(*plus, (a, b)),
                    forall|k: int|
                        self.edge_entries() <= k < r0.len() ==> #[trigger] edge_r@[k] == r0[k],
                    lanes_updated(
                        *plus,
                        p,
                        beta,
                        layer as int,
                        q@,
                        e as int,
                        i as nat,
                        llr1,
                        r1,
                        llr@,
                        edge_r@,
                    ),
                decreases z - i,
            {
                let (m1, m2, s): (u32, u32, u32) = minima[i];
                assert(scanned(q@, z as int, i as int, count as nat, minima@[i as int]));
                let bits: u32 = q[base + i];
                assert(bits == lane(q@, z as int, i as int, e as int));
                let least: u32 = if bits & 0x7FFF_FFFF == m1 {
                    m2
                } else {
                    m1
                };
                assert(least == excluded_min(q@, z as int, i as int, e as int, count as nat));
                let sign: u32 = s ^ (bits & 0x8000_0000);
                let ghost llr2 = llr@;
                let ghost r2 = edge_r@;
                self.update_lane(layer, q, e, i, least, sign, llr, edge_r, plus);
                proof {
                    assert(lane_updated(
                        *plus,
                        p,
                        beta,
                        layer as int,
                        q@,
                        e as int,
                        (i + 1) - 1,
                        llr2,
                        r2,
                        llr@,
                        edge_r@,
                    ));
                }
                i = i + 1;
            }
            proof {
                assert(lanes_updated(
                    *plus,
                    p,
                    beta,
                    layer as int,
                    q@,
                    (e + 1) - 1,
                    p.z as nat,
                    llr1,
                    r1,
                    llr@,
                    edge_r@,
                ));
            }
            e = e + 1;
        }
    }
}

/// What a scan of a lane gives.
spec fn scanned(q: Seq<u32>, z: int, i: int, n: nat, m: (u32, u32, u32)) -> bool {
    &&& m.2 == sign_sum(q, z, i, n)
    &&& forall|e: int|
        0 <= e < n ==> #[trigger] excluded_min(q, z, i, e, n) == (if magnitude(lane(q, z, i, e))
            == m.0 {
            m.1
        } else {
            m.0
        })
}

proof fn lemma_degree_entries(p: QcLdpcParams, layer: int)
    requires
        p.wf(),
        0 <= layer < p.num_row_blocks,
    ensures
        degree(p, layer) * p.z <= p.max_layer_degree * p.z,
        degree(p, layer) == p.layer_offsets@[layer + 1] - p.layer_offsets@[layer],
{
    assert(p.layer_offsets@[layer] <= p.layer_offsets@[layer + 1]);
    let d = degree(p, layer) as int;
    let m = p.max_layer_degree as int;
    let z = p.z as int;
    assert(d * z <= m * z) by (nonlinear_arith)
        requires
            d <= m,
            z >= 0,
    ;
}

/// The pattern of one million, the likelihood of a filler bit.
pub const FILLER: u32 = 0x4974_2400;

/// Which buffers are rejected, and how.
pub open spec fn buffer_error(
    d: QcLdpcDecoder,
    llr: nat,
    hard_output: nat,
    edge_r: nat,
    scratch: nat,
) -> Option<FecError> {
    let n = d.params().num_col_blocks * d.params().z;
    if llr != n {
        Some(FecError::InvalidParam("llr length must equal variable_node_count()"))
    } else if hard_output != n {
        Some(FecError::InvalidParam("hard_output length must equal variable_node_count()"))
    } else if edge_r < d.edge_entries() {
        Some(
            FecError::BufferTooSmall {
                required: d.edge_entries() as usize,
                provided: edge_r as usize,
            },
        )
    } else if scratch < d.layer_entries() {
        Some(
            FecError::BufferTooSmall {
                required: d.layer_entries() as usize,
                provided: scratch as usize,
            },
        )
    } else {
        None
    }
}

/// Likelihoods with the last `n_filler` of `k` information positions known
/// to be zero and the first `punctured` positions unknown.
pub open spec fn prepared(llr: Seq<u32>, k: int, n_filler: int, punctured: int) -> Seq<u32> {
    Seq::new(
        llr.len(),
        |i: int|
            if i < punctured {
                0
            } else if k - n_filler <= i < k {
                FILLER
            } else {
                llr[i]
            },
    )
}

impl QcLdpcDecoder {
    /// One pass over all row blocks.
    fn pass<F: Fn(u32, u32) -> u32>(
        &self,
        llr: &mut [u32],
        edge_r: &mut [u32],
        scratch: &mut [u32],
        plus: &F,
    )
        requires
            self.wf(),
            old(llr)@.len() == self.params.num_col_blocks * self.params.z,
            old(edge_r)@.len() >= self.edge_entries(),
            old(scratch)@.len() >= self.layer_entries(),
            forall|a: u32, b: u32| call_requires(*plus, (a, b)),
        ensures
            final(llr)@.len() == old(llr)@.len(),
            final(edge_r)@.len() == old(edge_r)@.len(),
            final(scratch)@.len() == old(scratch)@.len(),
            forall|k: int|
                self.edge_entries() <= k < old(edge_r)@.len() ==> #[trigger] final(edge_r)@[k]
                    == old(edge_r)@[k],
            forall|k: int|
                self.layer_entries() <= k < old(scratch)@.len() ==> #[trigger] final(scratch)@[k]
                    == old(scratch)@[k],
            layers_updated(
                *plus,
                self.params,
                self.offset_beta,
                self.params.num_row_blocks as nat,
                old(llr)@,
                old(edge_r)@,
                final(llr)@,
                final(edge_r)@,
            ),
    {
        let ghost llr0 = llr@;
        let ghost r0 = edge_r@;
        let ghost s0 = scratch@;
        let ghost p = self.params;
        let ghost beta = self.offset_beta;
        let mut layer: usize = 0;
        while layer < self.params.num_row_blocks
            invariant
                self.wf(),
                p == self.params,
                beta == self.offset_beta,
                layer <= p.num_row_blocks,
                llr0.len() == p.num_col_blocks * p.z,
                llr@.len() == llr0.len(),
                edge_r@.len() == r0.len(),
                r0.len() >= self.edge_entries(),
                scratch@.len() == s0.len(),
                s0.len() >= self.layer_entries(),
                forall|a: u32, b: u32| call_requires(*plus, (a, b)),
                forall|k: int|
                    self.edge_entries() <= k < r0.len() ==> #[trigger] edge_r@[k] == r0[k],
                forall|k: int|
                    self.layer_entries() <= k < s0.len() ==> #[trigger] scratch@[k] == s0[k],
                layers_updated(*plus, p, beta, layer as nat, llr0, r0, llr@, edge_r@),
            decreases self.params.num_row_blocks - layer,
        {
            let ghost llr1 = llr@;
            let ghost r1 = edge_r@;
            self.send_to_checks(layer, llr, edge_r, scratch, plus);
            self.send_to_variables(layer, scratch, llr, edge_r, plus);
            proof {
                assert(all_to_check(*plus, p, layer as int, llr1, r1, scratch@));
                assert(layer_updated(
                    *plus,
                    p,
                    beta,
                    (layer + 1) - 1,
                    llr1,
                    r1,
                    llr@,
                    edge_r@,
                ));
            }
            layer = layer + 1;
        }
    }

    /// Decodes in place. Returns the number of passes, at most `iterations`:
    /// fewer only where every check is satisfied after the last of them.
    pub fn decode_layered_offset_min_sum<F: Fn(u32, u32) -> u32>(
        &self,
        llr: &mut [u32],
        edge_r: &mut [u32],
        layer_scratch: &mut [u32],
        hard_output: &mut [u8],
        iterations: usize,
        plus: &F,
    ) -> (r: Result<usize, FecError>)
        requires
            self.wf(),
            forall|a: u32, b: u32| call_requires(*plus, (a, b)),
        ensures
            final(hard_output)@.len() == old(hard_output)@.len(),
            final(llr)@.len() == old(llr)@.len(),
            final(edge_r)@.len() == old(edge_r)@.len(),
            final(layer_scratch)@.len() == old(layer_scratch)@.len(),
            forall|k: int|
                self.layer_entries() <= k < old(layer_scratch)@.len()
                    ==> #[trigger] final(layer_scratch)@[k] == old(layer_scratch)@[k],
            ({
                let error = buffer_error(
                    *self,
                    old(llr)@.len(),
                    old(hard_output)@.len(),
                    old(edge_r)@.len(),
                    old(layer_scratch)@.len(),
                );
                match r {
                    Ok(used) => {
                        &&& error is None
                        &&& min_sum_decoded(
                            *plus,
                            self.params(),
                            self.offset(),
                            iterations as nat,
                            old(llr)@,
                            cleared(old(edge_r)@, self.edge_entries()),
                            used as nat,
                            final(llr)@,
                            final(edge_r)@,
                        )
                        &&& final(hard_output)@ == hard_bits(final(llr)@)
                        &&& used < iterations ==> self.params().satisfied(final(hard_output)@)
                    },
                    Err(e) => {
                        &&& error == Some(e)
                        &&& final(llr)@ == old(llr)@
                        &&& final(edge_r)@ == old(edge_r)@
                        &&& final(layer_scratch)@ == old(layer_scratch)@
                        &&& final(hard_output)@ == old(hard_output)@
                    },
                }
            }),
    {
        let n: usize = self.variable_node_count();
        if llr.len() != n {
            return Err(FecError::InvalidParam("llr length must equal variable_node_count()"));
        }
        if hard_output.len() != n {
            return Err(
                FecError::InvalidParam("hard_output length must equal variable_node_count()"),
            );
        }
        let edge_count: usize = self.required_edge_buffer();
        if edge_r.len() < edge_count {
            return Err(
                FecError::BufferTooSmall { required: edge_count, provided: edge_r.len() },
            );
        }
        let layer_count: usize = self.required_layer_buffer();
        if layer_scratch.len() < layer_count {
            return Err(
                FecError::BufferTooSmall { required: layer_count, provided: layer_scratch.len() },
            );
        }
        let ghost llr0 = llr@;
        let ghost s0 = layer_scratch@;
        let ghost e0 = edge_r@;
        let ghost r0 = cleared(e0, self.edge_entries());
        let mut i: usize = 0;
        while i < edge_count
            invariant
                i <= edge_count,
                edge_count <= e0.len(),
                edge_r@.len() == e0.len(),
                forall|k: int|
                    0 <= k < e0.len() ==> #[trigger] edge_r@[k] == (if k < i {
                        0
                    } else {
                        e0[k]
                    }),
            decreases edge_count - i,
        {
            edge_r[i] = 0;
            i = i + 1;
        }
        assert(edge_r@ =~= r0);
        let mut used: usize = 0;
        let mut done: bool = false;
        while used < iterations && !done
            invariant
                self.wf(),
                used <= iterations,
                llr0.len() == self.params.num_col_blocks * self.params.z,
                llr@.len() == llr0.len(),
                edge_r@.len() == r0.len(),
                r0.len() >= self.edge_entries(),
                layer_scratch@.len() == s0.len(),
                s0.len() >= self.layer_entries(),
                forall|a: u32, b: u32| call_requires(*plus, (a, b)),
                forall|k: int|
                    self.layer_entries() <= k < s0.len() ==> #[trigger] layer_scratch@[k] == s0[k],
                passes_run(
                    *plus,
                    self.params,
                    self.offset_beta,
                    used as nat,
                    llr0,
                    r0,
                    llr@,
                    edge_r@,
                ),
                used == 0 ==> !done,
                used >= 1 ==> done == self.params.satisfied(hard_bits(llr@)),
            decreases iterations - used,
        {
            let ghost llr1 = llr@;
            let ghost r1 = edge_r@;
            self.pass(llr, edge_r, layer_scratch, plus);
            proof {
                assert(layers_updated(
                    *plus,
                    self.params,
                    self.offset_beta,
                    self.params.num_row_blocks as nat,
                    llr1,
                    r1,
                    llr@,
                    edge_r@,
                ));
                assert(passes_run(
                    *plus,
                    self.params,
                    self.offset_beta,
                    (used + 1) as nat,
                    llr0,
                    r0,
                    llr@,
                    edge_r@,
                ));
            }
            used = used + 1;
            done = self.check_syndrome(llr);
        }
        let bits: Vec<u8> = decide_all(llr);
        crate::slices::copy_into(&bits, 0, hard_output);
        assert(bits@.skip(0) =~= bits@);
        Ok(used)
    }

    /// Decodes after marking filler bits as known and the first two column
    /// blocks, which are never sent, as unknown. Where there are fewer
    /// likelihoods than information bits, nothing is marked.
    pub fn decode_5g<F: Fn(u32, u32) -> u32>(
        &self,
        llr: &mut [u32],
        n_filler: usize,
        edge_r: &mut [u32],
        layer_scratch: &mut [u32],
        hard_output: &mut [u8],
        iterations: usize,
        plus: &F,
    ) -> (r: Result<usize, FecError>)
        requires
            self.wf(),
            forall|a: u32, b: u32| call_requires(*plus, (a, b)),
        ensures
            final(hard_output)@.len() == old(hard_output)@.len(),
            final(llr)@.len() == old(llr)@.len(),
            final(edge_r)@.len() == old(edge_r)@.len(),
            final(layer_scratch)@.len() == old(layer_scratch)@.len(),
            forall|k: int|
                self.layer_entries() <= k < old(layer_scratch)@.len()
                    ==> #[trigger] final(layer_scratch)@[k] == old(layer_scratch)@[k],
            ({
                let error = buffer_error(
                    *self,
                    old(llr)@.len(),
                    old(hard_output)@.len(),
                    old(edge_r)@.len(),
                    old(layer_scratch)@.len(),
                );
                let start = self.start_5g(old(llr)@, n_filler as int);
                match r {
                    Ok(used) => {
                        &&& error is None
                        &&& min_sum_decoded(
                            *plus,
                            self.params(),
                            self.offset(),
                            iterations as nat,
                            start,
                            cleared(old(edge_r)@, self.edge_entries()),
                            used as nat,
                            final(llr)@,
                            final(edge_r)@,
                        )
                        &&& final(hard_output)@ == hard_bits(final(llr)@)
                        &&& used < iterations ==> self.params().satisfied(final(hard_output)@)
                    },
                    Err(e) => {
                        &&& error == Some(e)
                        &&& final(llr)@ == (if old(llr)@.len() < self.info_bits() {
                            old(llr)@
                        } else {
                            start
                        })
                        &&& final(edge_r)@ == old(edge_r)@
                        &&& final(layer_scratch)@ == old(layer_scratch)@
                        &&& final(hard_output)@ == old(hard_output)@
                    },
                }
            }),
    {
        let z: usize = self.params.z;
        let k: usize = self.info_bit_count_5g();
        let ghost before = llr@;
        proof {
            let blocks = self.params.num_col_blocks - self.params.num_row_blocks;
            assert(2 * z <= blocks * z) by (nonlinear_arith)
                requires
                    2 <= blocks,
                    z >= 0,
            ;
            assert(blocks * z <= self.params.num_col_blocks * z) by (nonlinear_arith)
                requires
                    blocks <= self.params.num_col_blocks,
                    z >= 0,
            ;
            self.params.lemma_bounds();
        }
        if llr.len() < k {
            return self.decode_layered_offset_min_sum(
                llr,
                edge_r,
                layer_scratch,
                hard_output,
                iterations,
                plus,
            );
        }
        let k_prime: usize = if n_filler <= k {
            k - n_filler
        } else {
            0
        };
        let mut i: usize = k_prime;
        while i < k
            invariant
                k_prime <= i <= k,
                k <= before.len(),
                llr@.len() == before.len(),
                forall|j: int|
                    0 <= j < before.len() ==> #[trigger] llr@[j] == (if k_prime <= j < i {
                        FILLER
                    } else {
                        before[j]
                    }),
            decreases k - i,
        {
            llr[i] = FILLER;
            i = i + 1;
        }
        let ghost filled = llr@;
        let mut i: usize = 0;
        while i < 2 * z
            invariant
                i <= 2 * z,
                2 * z <= k <= before.len(),
                k <= 8448,
                llr@.len() == before.len(),
                filled.len() == before.len(),
                forall|j: int|
                    0 <= j < before.len() ==> #[trigger] llr@[j] == (if j < i {
                        0
                    } else {
                        filled[j]
                    }),
            decreases 2 * z - i,
        {
            llr[i] = 0;
            i = i + 1;
        }
        proof {
            let start = prepared(before, k as int, n_filler as int, 2 * z);
            assert forall|j: int| 0 <= j < before.len() implies llr@[j] == start[j] by {
                assert(filled[j] == (if k_prime <= j < k {
                    FILLER
                } else {
                    before[j]
                }));
            }
            assert(llr@ =~= start);
        }
        self.decode_layered_offset_min_sum(
            llr,
            edge_r,
            layer_scratch,
            hard_output,
            iterations,
            plus,
        )
    }
}

/// The pattern of a filler's likelihood stands for one million.
pub proof fn lemma_filler()
    ensures
        value(FILLER) == 1_000_000 * pow2(149),
{
    lemma_pow2_adds(145, 4);
    lemma2_to64();
    assert(FILLER as int / 0x80_0000 == 146 && FILLER as int % 0x80_0000 == 0x74_2400);
    assert(16_000_000 * pow2(145) == 1_000_000 * (pow2(145) * 16)) by (nonlinear_arith);
}

/// Where decoding starts, in numbers: nothing is known of the first two
/// column blocks, the fillers at the end of the 22 or 10 information blocks
/// count one million for a zero, and everything else is as received.
pub proof fn lemma_start_5g(d: QcLdpcDecoder, llr: Seq<u32>, n_filler: nat, j: int)
    requires
        d.wf(),
        llr.len() == d.params().num_col_blocks * d.params().z,
        0 <= j < llr.len(),
    ensures
        ({
            let z = d.params().z as int;
            let k = if d.params().bg == BaseGraph::Bg1 {
                22 * z
            } else {
                10 * z
            };
            let start = d.start_5g(llr, n_filler as int);
            &&& start.len() == llr.len()
            &&& j < 2 * z ==> value(start[j]) == 0
            &&& 2 * z <= j && k - n_filler <= j < k ==> value(start[j]) == 1_000_000 * pow2(149)
            &&& 2 * z <= j && !(k - n_filler <= j < k) ==> start[j] == llr[j]
        }),
{
    let p = d.params();
    assert((p.num_col_blocks - p.num_row_blocks) * p.z == (if p.bg == BaseGraph::Bg1 {
        22 * p.z
    } else {
        10 * p.z
    }));
    lemma_filler();
    crate::numbers::lemma_value(0);
}

/// Zero of either sign, or deciding for bit `b`.
pub open spec fn leans(p: u32, b: u8) -> bool {
    p == 0 || p == 0x8000_0000 || decides(p, b)
}

/// What the law below asks of the addition: values that lean one way add up
/// to one that leans the same way, clearly so where the first was clear, and
/// a finite magnitude less the offset is a number.
pub open spec fn adds_up<F: Fn(u32, u32) -> u32>(plus: F, beta: u32) -> bool {
    &&& forall|a: u32, c: u32, s: u32, b: u8|
        #![trigger call_ensures(plus, (a, c), s), leans(c, b)]
        b <= 1 && call_ensures(plus, (a, c), s) && leans(c, b) ==> (decides(a, b) ==> decides(s, b))
            && (leans(a, b) ==> leans(s, b))
    &&& forall|m: u32, raw: u32|
        m <= LARGEST && #[trigger] call_ensures(plus, (m, negated(beta)), raw) ==> magnitude(raw)
            <= 0x7F80_0000
}

/// The messages of the checks are zero from index `at` on.
pub open spec fn unsent_from(p: QcLdpcParams, r: Seq<u32>, at: int) -> bool {
    r.len() >= p.submatrix_cols@.len() * p.z && forall|k: int|
        at <= k < p.submatrix_cols@.len() * p.z ==> #[trigger] r[k] == 0
}

proof fn lemma_sign_facts(x: u32)
    by (bit_vector)
    ensures
        positive(x) ==> x & 0x8000_0000 == 0,
        negative(x) ==> x & 0x8000_0000 == 0x8000_0000,
        0x8000_0000u32 ^ 0x8000_0000 == 0,
        0u32 ^ 0x8000_0000 == 0x8000_0000,
        0x8000_0000u32 ^ 0 == 0x8000_0000,
        0u32 ^ 0u32 == 0,
        magnitude(x) <= 0x7F80_0000 ==> (message(x, 0) == 0 || message(x, 0) == 0x8000_0000
            || positive(message(x, 0))),
        magnitude(x) <= 0x7F80_0000 ==> (message(x, 0x8000_0000) == 0x8000_0000 || negative(
            message(x, 0x8000_0000),
        )),
        negated(0) == 0x8000_0000,
{
}

/// The sign bit that stands for a bit.
spec fn sign_bit(b: u8) -> u32 {
    if b == 1 {
        0x8000_0000
    } else {
        0
    }
}

/// Where every message decides for the word's bit, the signs of a lane add up
/// like the bits of the check.
proof fn lemma_sign_sum(
    p: QcLdpcParams,
    w: Seq<u8>,
    q: Seq<u32>,
    layer: int,
    i: int,
    n: nat,
)
    requires
        p.wf(),
        is_bits(w),
        w.len() == p.num_col_blocks * p.z,
        0 <= layer < p.num_row_blocks,
        0 <= i < p.z,
        n <= degree(p, layer),
        forall|e: int|
            0 <= e < degree(p, layer) ==> decides(
                #[trigger] lane(q, p.z as int, i, e),
                w[p.variable(p.layer_offsets@[layer] + e, i)],
            ),
    ensures
        sign_sum(q, p.z as int, i, n) == sign_bit(
            p.part(
                w,
                i,
                0,
                p.num_col_blocks as int,
                p.layer_offsets@[layer] as int,
                p.layer_offsets@[layer] + n,
            ),
        ),
        p.part(
            w,
            i,
            0,
            p.num_col_blocks as int,
            p.layer_offsets@[layer] as int,
            p.layer_offsets@[layer] + n,
        ) <= 1,
    decreases n,
{
    lemma_sign_facts(0);
    if n > 0 {
        let begin = p.layer_offsets@[layer] as int;
        assert(p.layer_offsets@[layer] <= p.layer_offsets@[layer + 1]);
        let m = (n - 1) as nat;
        lemma_sign_sum(p, w, q, layer, i, m);
        let edge = begin + m;
        p.lemma_variable(edge, i);
        let v = p.variable(edge, i);
        assert(0 <= p.submatrix_cols@[edge] * p.z) by (nonlinear_arith)
            requires
                0 <= p.submatrix_cols@[edge],
                0 <= p.z,
        ;
        assert(w[v] <= 1);
        let x = lane(q, p.z as int, i, m as int);
        assert(decides(x, w[v]));
        lemma_sign_facts(x);
        let before = p.part(w, i, 0, p.num_col_blocks as int, begin, begin + m);
        lemma_xor_bits(before, w[v]);
        assert(p.submatrix_cols@[edge] < p.num_col_blocks);
    }
}

proof fn lemma_excluded_small(q: Seq<u32>, z: int, i: int, e: int, n: nat)
    ensures
        excluded_min(q, z, i, e, n) <= LARGEST,
{
    lemma_min_others_small(q, z, i, e, n);
}

/// One update keeps every likelihood on the side of its bit.
proof fn lemma_lane_keeps<F: Fn(u32, u32) -> u32>(
    plus: F,
    p: QcLdpcParams,
    beta: u32,
    layer: int,
    q: Seq<u32>,
    e: int,
    i: int,
    llr: Seq<u32>,
    r: Seq<u32>,
    llr_after: Seq<u32>,
    r_after: Seq<u32>,
    w: Seq<u8>,
)
    requires
        p.wf(),
        adds_up(plus, beta),
        is_bits(w),
        w.len() == p.num_col_blocks * p.z,
        p.satisfied(w),
        0 <= layer < p.num_row_blocks,
        0 <= e < degree(p, layer),
        0 <= i < p.z,
        forall|f: int|
            0 <= f < degree(p, layer) ==> decides(
                #[trigger] lane(q, p.z as int, i, f),
                w[p.variable(p.layer_offsets@[layer] + f, i)],
            ),
        all_decide(llr, w),
        unsent_from(p, r, (p.layer_offsets@[layer] + e) * p.z + i),
        lane_updated(plus, p, beta, layer, q, e, i, llr, r, llr_after, r_after),
    ensures
        all_decide(llr_after, w),
        unsent_from(p, r_after, (p.layer_offsets@[layer] + e) * p.z + i + 1),
{
    let z = p.z as int;
    let edge = p.layer_offsets@[layer] + e;
    let at = edge * z + i;
    let v = p.variable(edge, i);
    let least = excluded_min(q, z, i, e, degree(p, layer));
    let sign = excluded_sign(q, z, i, e, degree(p, layer));
    let (raw, delta) = choose|raw: u32, delta: u32|
        {
            &&& #[trigger] call_ensures(plus, (least, negated(beta)), raw)
            &&& #[trigger] call_ensures(plus, (message(raw, sign), negated(r[at])), delta)
            &&& call_ensures(plus, (llr[v], delta), llr_after[v])
            &&& llr_after == llr.update(v, llr_after[v])
            &&& r_after == r.update(at, message(raw, sign))
        };
    assert(p.layer_offsets@[layer] <= p.layer_offsets@[layer + 1]);
    lemma_row_bound(edge, p.submatrix_cols@.len() as int, z);
    p.lemma_variable(edge, i);
    assert(0 <= p.submatrix_cols@[edge] * z) by (nonlinear_arith)
        requires
            0 <= p.submatrix_cols@[edge],
            0 <= z,
    ;
    let b = w[v];
    assert(b <= 1);
    lemma_sign_sum(p, w, q, layer, i, degree(p, layer));
    assert(p.check(w, layer, i) == 0);
    let own = lane(q, z, i, e);
    assert(decides(own, b));
    lemma_sign_facts(own);
    lemma_sign_facts(raw);
    assert(sign == sign_bit(b));
    lemma_excluded_small(q, z, i, e, degree(p, layer));
    let sent = message(raw, sign);
    assert(leans(sent, b));
    assert(r[at] == 0);
    assert(leans(negated(r[at]), b));
    assert(leans(delta, b));
    assert(decides(llr[v], b));
    assert(decides(llr_after[v], b));
    assert forall|k: int| 0 <= k < w.len() implies decides(#[trigger] llr_after[k], w[k]) by {
        assert(decides(llr[k], w[k]));
    }
    assert forall|k: int| at + 1 <= k < p.submatrix_cols@.len() * p.z implies #[trigger] r_after[k]
        == 0 by {
        assert(r[k] == 0);
    }
}

proof fn lemma_lanes_keep<F: Fn(u32, u32) -> u32>(
    plus: F,
    p: QcLdpcParams,
    beta: u32,
    layer: int,
    q: Seq<u32>,
    e: int,
    n: nat,
    llr: Seq<u32>,
    r: Seq<u32>,
    llr_after: Seq<u32>,
    r_after: Seq<u32>,
    w: Seq<u8>,
)
    requires
        p.wf(),
        adds_up(plus, beta),
        is_bits(w),
        w.len() == p.num_col_blocks * p.z,
        p.satisfied(w),
        0 <= layer < p.num_row_blocks,
        0 <= e < degree(p, layer),
        n <= p.z,
        messages_decide(p, layer, q, w),
        all_decide(llr, w),
        unsent_from(p, r, (p.layer_offsets@[layer] + e) * p.z),
        lanes_updated(plus, p, beta, layer, q, e, n, llr, r, llr_after, r_after),
    ensures
        all_decide(llr_after, w),
        unsent_from(p, r_after, (p.layer_offsets@[layer] + e) * p.z + n),
    decreases n,
{
    if n > 0 {
        let (llr_mid, r_mid) = choose|llr_mid: Seq<u32>, r_mid: Seq<u32>|
            {
                &&& lanes_updated(
                    plus,
                    p,
                    beta,
                    layer,
                    q,
                    e,
                    (n - 1) as nat,
                    llr,
                    r,
                    llr_mid,
                    r_mid,
                )
                &&& #[trigger] lane_updated(
                    plus,
                    p,
                    beta,
                    layer,
                    q,
                    e,
                    n - 1,
                    llr_mid,
                    r_mid,
                    llr_after,
                    r_after,
                )
            };
        lemma_lanes_keep(
            plus,
            p,
            beta,
            layer,
            q,
            e,
            (n - 1) as nat,
            llr,
            r,
            llr_mid,
            r_mid,
            w,
        );
        assert forall|f: int| 0 <= f < degree(p, layer) implies decides(
            #[trigger] lane(q, p.z as int, n - 1, f),
            w[p.variable(p.layer_offsets@[layer] + f, n - 1)],
        ) by {
            assert(message_decides(p, layer, q, w, f, n - 1));
        }
        lemma_lane_keeps(
            plus,
            p,
            beta,
            layer,
            q,
            e,
            n - 1,
            llr_mid,
            r_mid,
            llr_after,
            r_after,
            w,
        );
    }
}

/// The message on edge `e`, lane `i`, decides for the word's bit.
pub open spec fn message_decides(
    p: QcLdpcParams,
    layer: int,
    q: Seq<u32>,
    w: Seq<u8>,
    e: int,
    i: int,
) -> bool {
    decides(lane(q, p.z as int, i, e), w[p.variable(p.layer_offsets@[layer] + e, i)])
}

/// Every message to the checks of a row block decides for the word's bit.
pub open spec fn messages_decide(p: QcLdpcParams, layer: int, q: Seq<u32>, w: Seq<u8>) -> bool {
    forall|e: int, i: int|
        0 <= e < degree(p, layer) && 0 <= i < p.z ==> #[trigger] message_decides(p, layer, q, w, e, i)
}

proof fn lemma_edges_keep<F: Fn(u32, u32) -> u32>(
    plus: F,
    p: QcLdpcParams,
    beta: u32,
    layer: int,
    q: Seq<u32>,
    n: nat,
    llr: Seq<u32>,
    r: Seq<u32>,
    llr_after: Seq<u32>,
    r_after: Seq<u32>,
    w: Seq<u8>,
)
    requires
        p.wf(),
        adds_up(plus, beta),
        is_bits(w),
        w.len() == p.num_col_blocks * p.z,
        p.satisfied(w),
        0 <= layer < p.num_row_blocks,
        n <= degree(p, layer),
        messages_decide(p, layer, q, w),
        all_decide(llr, w),
        unsent_from(p, r, p.layer_offsets@[layer] * p.z),
        edges_updated(plus, p, beta, layer, q, n, llr, r, llr_after, r_after),
    ensures
        all_decide(llr_after, w),
        unsent_from(p, r_after, (p.layer_offsets@[layer] + n) * p.z),
    decreases n,
{
    if n > 0 {
        let (llr_mid, r_mid) = choose|llr_mid: Seq<u32>, r_mid: Seq<u32>|
            {
                &&& edges_updated(plus, p, beta, layer, q, (n - 1) as nat, llr, r, llr_mid, r_mid)
                &&& #[trigger] lanes_updated(
                    plus,
                    p,
                    beta,
                    layer,
                    q,
                    n - 1,
                    p.z as nat,
                    llr_mid,
                    r_mid,
                    llr_after,
                    r_after,
                )
            };
        lemma_edges_keep(plus, p, beta, layer, q, (n - 1) as nat, llr, r, llr_mid, r_mid, w);
        lemma_lanes_keep(
            plus,
            p,
            beta,
            layer,
            q,
            n - 1,
            p.z as nat,
            llr_mid,
            r_mid,
            llr_after,
            r_after,
            w,
        );
        let edge = p.layer_offsets@[layer] + (n - 1);
        assert((edge + 1) * p.z == edge * p.z + p.z) by (nonlinear_arith);
    }
}

proof fn lemma_layer_keeps<F: Fn(u32, u32) -> u32>(
    plus: F,
    p: QcLdpcParams,
    beta: u32,
    layer: int,
    llr: Seq<u32>,
    r: Seq<u32>,
    llr_after: Seq<u32>,
    r_after: Seq<u32>,
    w: Seq<u8>,
)
    requires
        p.wf(),
        adds_up(plus, beta),
        is_bits(w),
        w.len() == p.num_col_blocks * p.z,
        p.satisfied(w),
        0 <= layer < p.num_row_blocks,
        all_decide(llr, w),
        unsent_from(p, r, p.layer_offsets@[layer] * p.z),
        layer_updated(plus, p, beta, layer, llr, r, llr_after, r_after),
    ensures
        all_decide(llr_after, w),
        unsent_from(p, r_after, p.layer_offsets@[layer + 1] * p.z),
{
    let q = choose|q: Seq<u32>| #[trigger]
        all_to_check(plus, p, layer, llr, r, q) && edges_updated(
            plus,
            p,
            beta,
            layer,
            q,
            degree(p, layer),
            llr,
            r,
            llr_after,
            r_after,
        );
    assert(p.layer_offsets@[layer] <= p.layer_offsets@[layer + 1]);
    lemma_sign_facts(0);
    assert forall|e: int, i: int| 0 <= e < degree(p, layer) && 0 <= i < p.z implies #[trigger]
        message_decides(p, layer, q, w, e, i) by {
        let begin = p.layer_offsets@[layer] as int;
        let edge = begin + e;
        let z = p.z as int;
        assert(to_check(plus, p, layer, llr, r, q, e, i));
        p.lemma_variable(edge, i);
        assert(0 <= p.submatrix_cols@[edge] * z) by (nonlinear_arith)
            requires
                0 <= p.submatrix_cols@[edge],
                0 <= z,
        ;
        let v = p.variable(edge, i);
        lemma_row_bound(edge, p.submatrix_cols@.len() as int, z);
        assert(begin * z <= edge * z) by (nonlinear_arith)
            requires
                begin <= edge,
                0 <= z,
        ;
        assert(r[edge * z + i] == 0);
        assert(w[v] <= 1);
        assert(decides(llr[v], w[v]));
        assert(leans(negated(r[edge * z + i]), w[v]));
    }
    lemma_edges_keep(plus, p, beta, layer, q, degree(p, layer), llr, r, llr_after, r_after, w);
}

proof fn lemma_layers_keep<F: Fn(u32, u32) -> u32>(
    plus: F,
    p: QcLdpcParams,
    beta: u32,
    n: nat,
    llr: Seq<u32>,
    r: Seq<u32>,
    llr_after: Seq<u32>,
    r_after: Seq<u32>,
    w: Seq<u8>,
)
    requires
        p.wf(),
        adds_up(plus, beta),
        is_bits(w),
        w.len() == p.num_col_blocks * p.z,
        p.satisfied(w),
        n <= p.num_row_blocks,
        all_decide(llr, w),
        unsent_from(p, r, 0),
        layers_updated(plus, p, beta, n, llr, r, llr_after, r_after),
    ensures
        all_decide(llr_after, w),
        unsent_from(p, r_after, p.layer_offsets@[n as int] * p.z),
    decreases n,
{
    if n > 0 {
        let (llr_mid, r_mid) = choose|llr_mid: Seq<u32>, r_mid: Seq<u32>|
            {
                &&& layers_updated(plus, p, beta, (n - 1) as nat, llr, r, llr_mid, r_mid)
                &&& #[trigger] layer_updated(
                    plus,
                    p,
                    beta,
                    n - 1,
                    llr_mid,
                    r_mid,
                    llr_after,
                    r_after,
                )
            };
        lemma_layers_keep(plus, p, beta, (n - 1) as nat, llr, r, llr_mid, r_mid, w);
        lemma_layer_keeps(plus, p, beta, n - 1, llr_mid, r_mid, llr_after, r_after, w);
    } else {
        assert(0 * p.z == 0) by (nonlinear_arith);
    }
}

proof fn lemma_decided(llr: Seq<u32>, w: Seq<u8>)
    requires
        is_bits(w),
        all_decide(llr, w),
    ensures
        hard_bits(llr) == w,
{
    assert forall|i: int| 0 <= i < w.len() implies hard_bits(llr)[i] == w[i] by {
        assert(decides(llr[i], w[i]));
        assert(w[i] <= 1);
        lemma_patterns(llr[i], 0);
    }
    assert(hard_bits(llr) =~= w);
}

/// The first pass over clearly received words leaves them clear, and no
/// second pass is run.
proof fn lemma_one_pass<F: Fn(u32, u32) -> u32>(
    plus: F,
    p: QcLdpcParams,
    beta: u32,
    k: nat,
    llr: Seq<u32>,
    r: Seq<u32>,
    llr_after: Seq<u32>,
    r_after: Seq<u32>,
    w: Seq<u8>,
)
    requires
        p.wf(),
        adds_up(plus, beta),
        is_bits(w),
        w.len() == p.num_col_blocks * p.z,
        p.satisfied(w),
        all_decide(llr, w),
        unsent_from(p, r, 0),
        k >= 1,
        passes_run(plus, p, beta, k, llr, r, llr_after, r_after),
    ensures
        k == 1,
        hard_bits(llr_after) == w,
    decreases k,
{
    let (llr_mid, r_mid) = choose|llr_mid: Seq<u32>, r_mid: Seq<u32>|
        {
            &&& passes_run(plus, p, beta, (k - 1) as nat, llr, r, llr_mid, r_mid)
            &&& k > 1 ==> !p.satisfied(hard_bits(llr_mid))
            &&& #[trigger] layers_updated(
                plus,
                p,
                beta,
                p.num_row_blocks as nat,
                llr_mid,
                r_mid,
                llr_after,
                r_after,
            )
        };
    if k > 1 {
        lemma_one_pass(plus, p, beta, (k - 1) as nat, llr, r, llr_mid, r_mid, w);
    } else {
        lemma_layers_keep(
            plus,
            p,
            beta,
            p.num_row_blocks as nat,
            llr,
            r,
            llr_after,
            r_after,
            w,
        );
        lemma_decided(llr_after, w);
    }
}

/// A word that satisfies every check, received so that every likelihood
/// decides for its bit, decodes to itself in one pass.
pub proof fn lemma_clear_word_decodes<F: Fn(u32, u32) -> u32>(
    plus: F,
    p: QcLdpcParams,
    beta: u32,
    iterations: nat,
    llr: Seq<u32>,
    edge_r: Seq<u32>,
    used: nat,
    llr_after: Seq<u32>,
    r_after: Seq<u32>,
    w: Seq<u8>,
)
    requires
        p.wf(),
        adds_up(plus, beta),
        is_bits(w),
        w.len() == p.num_col_blocks * p.z,
        p.satisfied(w),
        all_decide(llr, w),
        edge_r.len() >= p.submatrix_cols@.len() * p.z,
        iterations >= 1,
        min_sum_decoded(
            plus,
            p,
            beta,
            iterations,
            llr,
            cleared(edge_r, p.submatrix_cols@.len() * p.z),
            used,
            llr_after,
            r_after,
        ),
    ensures
        used == 1,
        hard_bits(llr_after) == w,
{
    let r = cleared(edge_r, p.submatrix_cols@.len() * p.z);
    assert(unsent_from(p, r, 0));
    lemma_one_pass(plus, p, beta, used, llr, r, llr_after, r_after, w);
}

} // verus!
