//! What the Reed-Solomon code promises of interleaved blocks: data comes back
//! from decoding, and bursts are spread over the codewords.

use vstd::prelude::*;

use crate::ccsds_rs::{
    is_depth, lemma_rs_corrects, lemma_rs_unique, rs_block_decoded, rs_block_encoded, rs_codeword,
    rs_decodable, rs_fixed, rs_total, stream, stream_corrected,
};
use crate::cyclic::{distance, wxor};
use crate::error::FecError;
use crate::gf256::lemma_xor;
use crate::gfpoly::weight;

verus! {

/// The number of bytes in which the first `n` codewords of two blocks differ.
pub open spec fn block_distance(a: Seq<u8>, b: Seq<u8>, d: nat, n: nat) -> nat
    decreases n,
{
    if n == 0 {
        0
    } else {
        block_distance(a, b, d, (n - 1) as nat) + distance(
            stream(a, d, (n - 1) as nat, 255),
            stream(b, d, (n - 1) as nat, 255),
        )
    }
}

/// Each codeword of a received block differs from the one sent in at most
/// `16` bytes.
pub open spec fn within_capacity(d: nat, sent: Seq<u8>, received: Seq<u8>) -> bool {
    forall|i: nat|
        i < d ==> distance(#[trigger] stream(received, d, i, 255), stream(sent, d, i, 255)) <= 16
}

proof fn lemma_totals(d: nat, data: Seq<u8>, sent: Seq<u8>, received: Seq<u8>, n: nat)
    requires
        rs_block_encoded(d, data, sent),
        within_capacity(d, sent, received),
        n <= d,
    ensures
        rs_total(received, d, n) == block_distance(received, sent, d, n),
    decreases n,
{
    if n > 0 {
        let i = (n - 1) as nat;
        lemma_totals(d, data, sent, received, i);
        assert(rs_codeword(stream(sent, d, i, 255)));
        lemma_rs_corrects(stream(received, d, i, 255), stream(sent, d, i, 255));
    }
}

/// Blocks with the same codewords are equal.
pub proof fn lemma_streams_equal(d: nat, n: nat, a: Seq<u8>, b: Seq<u8>)
    requires
        d > 0,
        a.len() == d * n,
        b.len() == d * n,
        forall|i: nat| i < d ==> #[trigger] stream(a, d, i, n) == stream(b, d, i, n),
    ensures
        a == b,
{
    assert forall|k: int| 0 <= k < a.len() implies a[k] == b[k] by {
        let dd = d as int;
        let nn = n as int;
        vstd::arithmetic::div_mod::lemma_fundamental_div_mod(k, dd);
        vstd::arithmetic::div_mod::lemma_mod_bound(k, dd);
        let i = (k % dd) as nat;
        let j = k / dd;
        vstd::arithmetic::div_mod::lemma_div_pos_is_pos(k, dd);
        assert(j < nn) by (nonlinear_arith)
            requires
                k == dd * j + i,
                0 <= i < dd,
                k < dd * nn,
        ;
        assert(j * d + i == k) by (nonlinear_arith)
            requires
                k == dd * j + i,
                dd == d,
        ;
        assert(stream(a, d, i, n) == stream(b, d, i, n));
        assert(stream(a, d, i, n)[j] == a[k]);
        assert(stream(b, d, i, n)[j] == b[k]);
    }
    assert(a =~= b);
}

/// A block with at most `16` changed bytes in each codeword is decoded to the
/// block that was encoded, and the number of changed bytes comes back.
pub proof fn lemma_round_trip(
    d: nat,
    data: Seq<u8>,
    sent: Seq<u8>,
    received: Seq<u8>,
    after: Seq<u8>,
    r: Result<usize, FecError>,
)
    requires
        is_depth(d),
        sent.len() == d * 255,
        after.len() == d * 255,
        rs_block_encoded(d, data, sent),
        within_capacity(d, sent, received),
        rs_block_decoded(d, received, after, r),
    ensures
        r is Ok,
        r->Ok_0 == block_distance(received, sent, d, d),
        after == sent,
{
    assert forall|i: nat| i < d implies rs_decodable(#[trigger] stream(received, d, i, 255))
        && rs_fixed(stream(received, d, i, 255)) == stream(sent, d, i, 255) by {
        assert(rs_codeword(stream(sent, d, i, 255)));
        lemma_rs_corrects(stream(received, d, i, 255), stream(sent, d, i, 255));
    }
    match r {
        Ok(n) => {
            lemma_totals(d, data, sent, received, d);
            assert forall|i: nat| i < d implies #[trigger] stream(after, d, i, 255) == stream(
                sent,
                d,
                i,
                255,
            ) by {
                assert(stream_corrected(received, after, d, i));
                assert(rs_decodable(stream(received, d, i, 255)));
            }
            lemma_streams_equal(d, 255, after, sent);
        },
        Err(e) => {
            let k = choose|k: nat| k < d && !#[trigger] rs_decodable(stream(received, d, k, 255));
            assert(rs_decodable(stream(received, d, k, 255)));
        },
    }
}

/// An encoded block starts with its data.
pub proof fn lemma_data_first(d: nat, data: Seq<u8>, block: Seq<u8>)
    requires
        d > 0,
        data.len() == d * 223,
        block.len() == d * 255,
        rs_block_encoded(d, data, block),
    ensures
        block.take((d * 223) as int) == data,
{
    let head = block.take((d * 223) as int);
    assert(d * 223 <= d * 255);
    assert forall|i: nat| i < d implies #[trigger] stream(head, d, i, 223) == stream(
        data,
        d,
        i,
        223,
    ) by {
        assert(stream(block, d, i, 255).take(223) == stream(data, d, i, 223));
        assert forall|j: int| 0 <= j < 223 implies stream(head, d, i, 223)[j] == stream(
            block,
            d,
            i,
            255,
        ).take(223)[j] by {
            assert(0 <= j * d + i < d * 223) by (nonlinear_arith)
                requires
                    0 <= j < 223,
                    0 <= i < d,
            ;
        }
        assert(stream(head, d, i, 223) =~= stream(block, d, i, 255).take(223));
    }
    lemma_streams_equal(d, 223, head, data);
}

/// Two blocks with the same data are encoded alike.
pub proof fn lemma_encoding_unique(d: nat, data: Seq<u8>, a: Seq<u8>, b: Seq<u8>)
    requires
        d > 0,
        a.len() == d * 255,
        b.len() == d * 255,
        rs_block_encoded(d, data, a),
        rs_block_encoded(d, data, b),
    ensures
        a == b,
{
    assert forall|i: nat| i < d implies #[trigger] stream(a, d, i, 255) == stream(
        b,
        d,
        i,
        255,
    ) by {
        assert(rs_codeword(stream(b, d, i, 255)));
        lemma_rs_unique(stream(a, d, i, 255), stream(b, d, i, 255));
    }
    lemma_streams_equal(d, 255, a, b);
}

proof fn lemma_window(w: Seq<u8>, lo: int, n: nat)
    requires
        forall|j: int| 0 <= j < w.len() && !(lo <= j < lo + n) ==> w[j] == 0,
    ensures
        weight(w) <= n,
    decreases w.len(),
{
    if w.len() > 0 {
        let v = w.drop_last();
        let last = w.len() - 1;
        if w.last() == 0 {
            lemma_window(v, lo, n);
        } else if n > 0 {
            let m = last - lo;
            assert(0 <= m < n);
            lemma_window(v, lo, m as nat);
        }
    }
}

/// A burst of at most `16d` bytes changes at most `16` bytes of each codeword
/// of a block of depth `d`.
pub proof fn lemma_burst(d: nat, sent: Seq<u8>, received: Seq<u8>, start: int)
    requires
        d > 0,
        sent.len() == d * 255,
        received.len() == d * 255,
        start >= 0,
        forall|k: int|
            0 <= k < d * 255 && !(start <= k < start + 16 * d) ==> received[k] == sent[k],
    ensures
        within_capacity(d, sent, received),
{
    assert forall|i: nat| i < d implies distance(
        #[trigger] stream(received, d, i, 255),
        stream(sent, d, i, 255),
    ) <= 16 by {
        let a = stream(received, d, i, 255);
        let b = stream(sent, d, i, 255);
        let w = wxor(a, b);
        let dd = d as int;
        let lo = if start <= i {
            0
        } else {
            (start - i + dd - 1) / dd
        };
        if start > i {
            vstd::arithmetic::div_mod::lemma_fundamental_div_mod(start - i + dd - 1, dd);
            vstd::arithmetic::div_mod::lemma_mod_bound(start - i + dd - 1, dd);
        }
        let q = (start - i + dd - 1) % dd;
        assert forall|j: int| 0 <= j < w.len() && !(lo <= j < lo + 16) implies w[j] == 0 by {
            let k = j * dd + i;
            assert(0 <= k < dd * 255) by (nonlinear_arith)
                requires
                    0 <= j < 255,
                    0 <= i < dd,
                    k == j * dd + i,
            ;
            if j < lo {
                assert(k < start) by (nonlinear_arith)
                    requires
                        start > i,
                        j + 1 <= lo,
                        start - i + dd - 1 == dd * lo + q,
                        q >= 0,
                        dd > 0,
                        k == j * dd + i,
                ;
            } else if start <= i {
                assert(k >= start + 16 * dd) by (nonlinear_arith)
                    requires
                        j >= 16,
                        start <= i,
                        dd > 0,
                        k == j * dd + i,
                ;
            } else {
                assert(k >= start + 16 * dd) by (nonlinear_arith)
                    requires
                        j >= lo + 16,
                        start - i + dd - 1 == dd * lo + q,
                        q <= dd - 1,
                        dd > 0,
                        k == j * dd + i,
                ;
            }
            assert(a[j] == received[k] && b[j] == sent[k]);
            lemma_xor(a[j], b[j], 0, 0);
        }
        lemma_window(w, lo, 16);
    }
}

} // verus!
