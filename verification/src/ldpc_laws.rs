//! What the LDPC codes promise as a whole: a table defines one code at each
//! lifting size, and a word that was encoded and arrives clear is decoded to
//! itself.

use vstd::prelude::*;

use crate::bits::{is_bits, lemma_low_bits};
use crate::ldpc_decoder::{
    adds_up, cleared, hard_bits, lemma_clear_word_decodes, min_sum_decoded, QcLdpcDecoder,
};
use crate::ldpc_dense::{ambiguous_word, parity_ambiguous};
use crate::polar::all_decide;
use crate::qc_ldpc::{
    in_lifting_set, is_encoding, is_lifting_size, lifted, BaseGraphTable, QcLdpcParams,
};

verus! {

proof fn lemma_rows_same(table: BaseGraphTable, z: usize, p: QcLdpcParams, q: QcLdpcParams, r: int)
    requires
        lifted(table, z, p),
        lifted(table, z, q),
        0 <= r < p.num_row_blocks,
    ensures
        p.edges(r) == q.edges(r),
        p.num_row_blocks == q.num_row_blocks,
        p.num_col_blocks == q.num_col_blocks,
{
    assert(is_lifting_size(z as int));
    let ils = choose|i: int| in_lifting_set(i, z as int);
    assert(in_lifting_set(ils, z as int));
    assert(p.edges(r) == q.edges(r));
}

proof fn lemma_part_same(
    p: QcLdpcParams,
    q: QcLdpcParams,
    w: Seq<u8>,
    r: int,
    i: int,
    hi: int,
    n: int,
)
    requires
        p.z == q.z,
        p.edges(r) == q.edges(r),
        q.layer_offsets@[r] <= q.layer_offsets@[r + 1],
        0 <= n <= p.layer_offsets@[r + 1] - p.layer_offsets@[r],
    ensures
        p.part(w, i, 0, hi, p.layer_offsets@[r] as int, p.layer_offsets@[r] + n) == q.part(
            w,
            i,
            0,
            hi,
            q.layer_offsets@[r] as int,
            q.layer_offsets@[r] + n,
        ),
    decreases n,
{
    if n > 0 {
        lemma_part_same(p, q, w, r, i, hi, n - 1);
        let d = p.layer_offsets@[r] + (n - 1);
        let e = q.layer_offsets@[r] + (n - 1);
        assert(p.edges(r).len() == p.layer_offsets@[r + 1] - p.layer_offsets@[r]);
        assert(q.edges(r).len() == q.layer_offsets@[r + 1] - q.layer_offsets@[r]);
        assert(p.edges(r)[n - 1] == (p.submatrix_cols@[d] as int, p.submatrix_shifts@[d] as int));
        assert(q.edges(r)[n - 1] == (q.submatrix_cols@[e] as int, q.submatrix_shifts@[e] as int));
        assert(p.variable(d, i) == q.variable(e, i));
    }
}

/// A table defines one code at a lifting size: whatever was lifted from it
/// has the same codewords.
pub proof fn lemma_one_code(
    table: BaseGraphTable,
    z: usize,
    p: QcLdpcParams,
    q: QcLdpcParams,
    w: Seq<u8>,
)
    requires
        lifted(table, z, p),
        lifted(table, z, q),
    ensures
        p.satisfied(w) == q.satisfied(w),
{
    assert forall|r: int, i: int|
        0 <= r < p.num_row_blocks && 0 <= i < p.z implies #[trigger] p.check(w, r, i)
        == #[trigger] q.check(w, r, i) by {
        lemma_rows_same(table, z, p, q, r);
        assert(p.layer_offsets@[r] <= p.layer_offsets@[r + 1]);
        assert(q.layer_offsets@[r] <= q.layer_offsets@[r + 1]);
        assert(p.edges(r).len() == q.edges(r).len());
        lemma_part_same(
            p,
            q,
            w,
            r,
            i,
            p.num_col_blocks as int,
            p.layer_offsets@[r + 1] - p.layer_offsets@[r],
        );
    }
    if p.satisfied(w) {
        assert forall|r: int, i: int| 0 <= r < q.num_row_blocks && 0 <= i < q.z implies
            #[trigger] q.check(w, r, i) == 0 by {
            assert(p.check(w, r, i) == 0);
        }
    }
    if q.satisfied(w) {
        assert forall|r: int, i: int| 0 <= r < p.num_row_blocks && 0 <= i < p.z implies
            #[trigger] p.check(w, r, i) == 0 by {
            assert(q.check(w, r, i) == 0);
        }
    }
}

/// Whether the parity is determined depends on the table and the lifting size
/// alone.
pub proof fn lemma_ambiguity_same(
    table: BaseGraphTable,
    z: usize,
    p: QcLdpcParams,
    q: QcLdpcParams,
)
    requires
        lifted(table, z, p),
        lifted(table, z, q),
    ensures
        parity_ambiguous(p) ==> parity_ambiguous(q),
{
    if parity_ambiguous(p) {
        let w = choose|w: Seq<u8>| #[trigger] ambiguous_word(p, w);
        lemma_one_code(table, z, p, q, w);
        assert(ambiguous_word(q, w));
    }
}

/// The decoding of likelihoods, from messages that are cleared first.
pub open spec fn decoded_from<F: Fn(u32, u32) -> u32>(
    plus: F,
    d: QcLdpcDecoder,
    iterations: nat,
    llr: Seq<u32>,
    used: nat,
    hard: Seq<u8>,
) -> bool {
    exists|edge_r: Seq<u32>, llr_after: Seq<u32>, r_after: Seq<u32>|
        {
            &&& edge_r.len() == d.edge_entries()
            &&& #[trigger] min_sum_decoded(
                plus,
                d.params(),
                d.offset(),
                iterations,
                llr,
                cleared(edge_r, d.edge_entries()),
                used,
                llr_after,
                r_after,
            )
            &&& hard == hard_bits(llr_after)
        }
}

/// A word that was encoded and arrives with every likelihood deciding for its
/// bit is decoded to itself in one pass, so the information comes back.
pub proof fn lemma_round_trip<F: Fn(u32, u32) -> u32>(
    plus: F,
    table: BaseGraphTable,
    z: usize,
    p: QcLdpcParams,
    d: QcLdpcDecoder,
    iterations: nat,
    info: Seq<u8>,
    w: Seq<u8>,
    llr: Seq<u32>,
    used: nat,
    hard: Seq<u8>,
)
    requires
        lifted(table, z, p),
        d.wf(),
        lifted(table, z, d.params()),
        adds_up(plus, d.offset()),
        is_encoding(p, info, w),
        is_bits(w),
        all_decide(llr, w),
        iterations >= 1,
        decoded_from(plus, d, iterations, llr, used, hard),
    ensures
        used == 1,
        hard == w,
        hard.take(info.len() as int) == info,
{
    let (edge_r, llr_after, r_after) = choose|
        edge_r: Seq<u32>,
        llr_after: Seq<u32>,
        r_after: Seq<u32>,
    |
        {
            &&& edge_r.len() == d.edge_entries()
            &&& #[trigger] min_sum_decoded(
                plus,
                d.params(),
                d.offset(),
                iterations,
                llr,
                cleared(edge_r, d.edge_entries()),
                used,
                llr_after,
                r_after,
            )
            &&& hard == hard_bits(llr_after)
        };
    lemma_low_bits(w);
    lemma_one_code(table, z, p, d.params(), w);
    lemma_clear_word_decodes(
        plus,
        d.params(),
        d.offset(),
        iterations,
        llr,
        edge_r,
        used,
        llr_after,
        r_after,
        w,
    );
}

} // verus!
