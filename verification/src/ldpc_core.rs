//! The structured parity solve of the 5G NR base graphs.
//!
//! The four core parity blocks `p1..p4` meet the first four row blocks in a
//! double diagonal:
//!
//! - row 0 holds `p1` and `p2`, row 3 holds `p1` (with the shift of row 0)
//!   and `p4`;
//! - row 1 holds `p2` and `p3`, row 2 holds `p3` and `p4`, each with the
//!   shift of the neighbouring row;
//! - exactly one of rows 1 and 2 holds `p1` once more.
//!
//! Summing the four rows leaves that one extra `p1`. Every later row block
//! holds its own parity block unshifted, and otherwise only known blocks.

use crate::gf256::lemma_xor;
use crate::qc_ldpc::{QcLdpcParams, rot};
use crate::slices::to_vector;
use vstd::prelude::*;

verus! {

/// The shifts of the core parity blocks.
#[derive(Clone, Copy, Debug)]
pub struct CoreLayout {
    /// Shift of `p1` in rows 0 and 3.
    pub shift_p1_edge: usize,
    /// Shift of the extra `p1`.
    pub shift_p1_x: usize,
    /// Whether the extra `p1` is in row 1 (otherwise it is in row 2).
    pub row_x_is_1: bool,
    /// Shift of `p2` in rows 0 and 1.
    pub shift_p2: usize,
    /// Shift of `p3` in rows 1 and 2.
    pub shift_p3: usize,
    /// Shift of `p4` in rows 2 and 3.
    pub shift_p4: usize,
}

/// Row `row >= 4` holds its own parity block unshifted and no other parity
/// block but the core ones.
pub open spec fn extension_row(p: QcLdpcParams, kb: int, row: int) -> bool {
    &&& p.none(row, kb + 4, kb + row)
    &&& p.only(row, kb + row, 0)
    &&& p.none(row, kb + row + 1, p.num_col_blocks as int)
}

/// The base graph has the double-diagonal shape with these shifts.
pub open spec fn layout_matches(p: QcLdpcParams, l: CoreLayout) -> bool {
    let kb = p.num_col_blocks - p.num_row_blocks;
    let nb = p.num_col_blocks as int;
    &&& p.only(0, kb, l.shift_p1_edge as int)
    &&& p.only(0, kb + 1, l.shift_p2 as int)
    &&& p.none(0, kb + 2, nb)
    &&& (if l.row_x_is_1 {
        p.only(1, kb, l.shift_p1_x as int)
    } else {
        p.none(1, kb, kb + 1)
    })
    &&& p.only(1, kb + 1, l.shift_p2 as int)
    &&& p.only(1, kb + 2, l.shift_p3 as int)
    &&& p.none(1, kb + 3, nb)
    &&& (if l.row_x_is_1 {
        p.none(2, kb, kb + 1)
    } else {
        p.only(2, kb, l.shift_p1_x as int)
    })
    &&& p.none(2, kb + 1, kb + 2)
    &&& p.only(2, kb + 2, l.shift_p3 as int)
    &&& p.only(2, kb + 3, l.shift_p4 as int)
    &&& p.none(2, kb + 4, nb)
    &&& p.only(3, kb, l.shift_p1_edge as int)
    &&& p.none(3, kb + 1, kb + 3)
    &&& p.only(3, kb + 3, l.shift_p4 as int)
    &&& p.none(3, kb + 4, nb)
    &&& forall|row: int| 4 <= row < p.num_row_blocks ==> #[trigger] extension_row(p, kb, row)
}

/// The shifts are below the lifting size.
pub open spec fn layout_in_range(p: QcLdpcParams, l: CoreLayout) -> bool {
    &&& l.shift_p1_edge < p.z
    &&& l.shift_p1_x < p.z
    &&& l.shift_p2 < p.z
    &&& l.shift_p3 < p.z
    &&& l.shift_p4 < p.z
}

proof fn lemma_none_excludes_only(p: QcLdpcParams, r: int, lo: int, hi: int, col: int, s: int)
    requires
        p.none(r, lo, hi),
        lo <= col < hi,
    ensures
        !p.only(r, col, s),
{
    if p.only(r, col, s) {
        let e = choose|e: int|
            {
                &&& p.layer_offsets@[r] <= e < p.layer_offsets@[r + 1]
                &&& #[trigger] p.submatrix_cols@[e] == col
                &&& p.submatrix_shifts@[e] == s
                &&& p.sole(r, col, e)
            };
        assert(lo <= p.submatrix_cols@[e] < hi);
    }
}

impl CoreLayout {
    /// Finds the double-diagonal shape in the edges, if it is there.
    pub fn derive(p: &QcLdpcParams) -> (r: Option<CoreLayout>)
        requires
            p.wf(),
        ensures
            match r {
                Some(l) => layout_matches(*p, l) && layout_in_range(*p, l),
                None => forall|l: CoreLayout| !#[trigger] layout_matches(*p, l),
            },
    {
        let nb: usize = p.num_col_blocks;
        let kb: usize = p.num_col_blocks - p.num_row_blocks;
        let m_b: usize = p.num_row_blocks;
        let shift_p1_edge: usize = match p.only_edge(0, kb) {
            Some(s) => s,
            None => return None,
        };
        let shift_p2: usize = match p.only_edge(0, kb + 1) {
            Some(s) => s,
            None => return None,
        };
        let shift_p3: usize = match p.only_edge(1, kb + 2) {
            Some(s) => s,
            None => return None,
        };
        let shift_p4: usize = match p.only_edge(2, kb + 3) {
            Some(s) => s,
            None => return None,
        };
        let in_row_1: Option<usize> = p.only_edge(1, kb);
        let in_row_2: Option<usize> = p.only_edge(2, kb);
        let free_row_1: bool = p.range_empty(1, kb, kb + 1);
        let free_row_2: bool = p.range_empty(2, kb, kb + 1);
        let row_x_is_1: bool = in_row_1.is_some() && free_row_2;
        let row_x_is_2: bool = in_row_2.is_some() && free_row_1;
        proof {
            if free_row_1 && in_row_1.is_some() {
                lemma_none_excludes_only(
                    *p,
                    1,
                    kb as int,
                    kb + 1,
                    kb as int,
                    in_row_1.unwrap() as int,
                );
            }
        }
        if !row_x_is_1 && !row_x_is_2 {
            return None;
        }
        let shift_p1_x: usize = if row_x_is_1 {
            in_row_1.unwrap()
        } else {
            in_row_2.unwrap()
        };
        let again_p2: Option<usize> = p.only_edge(1, kb + 1);
        let again_p3: Option<usize> = p.only_edge(2, kb + 2);
        let again_p1: Option<usize> = p.only_edge(3, kb);
        let again_p4: Option<usize> = p.only_edge(3, kb + 3);
        let ok: bool = again_p2.is_some() && again_p2.unwrap() == shift_p2 && again_p3.is_some()
            && again_p3.unwrap() == shift_p3 && again_p1.is_some() && again_p1.unwrap()
            == shift_p1_edge && again_p4.is_some() && again_p4.unwrap() == shift_p4
            && p.range_empty(0, kb + 2, nb) && p.range_empty(1, kb + 3, nb) && p.range_empty(
            2,
            kb + 1,
            kb + 2,
        ) && p.range_empty(2, kb + 4, nb) && p.range_empty(3, kb + 1, kb + 3) && p.range_empty(
            3,
            kb + 4,
            nb,
        );
        if !ok {
            return None;
        }
        let mut row: usize = 4;
        while row < m_b
            invariant
                p.wf(),
                nb == p.num_col_blocks,
                m_b == p.num_row_blocks,
                kb == nb - m_b,
                4 <= row <= m_b,
                forall|q: int| 4 <= q < row ==> #[trigger] extension_row(*p, kb as int, q),
            decreases m_b - row,
        {
            let own: Option<usize> = p.only_edge(row, kb + row);
            let fits: bool = own.is_some() && own.unwrap() == 0 && p.range_empty(
                row,
                kb + 4,
                kb + row,
            ) && p.range_empty(row, kb + row + 1, nb);
            if !fits {
                assert(!extension_row(*p, kb as int, row as int));
                return None;
            }
            row = row + 1;
        }
        Some(
            CoreLayout { shift_p1_edge, shift_p1_x, row_x_is_1, shift_p2, shift_p3, shift_p4 },
        )
    }
}

/// `dst[i] ^= src[base + (i + shift) % z]`.
pub fn rotl_xor_into(dst: &mut Vec<u8>, src: &Vec<u8>, base: usize, shift: usize, z: usize)
    requires
        old(dst)@.len() == z,
        shift < z,
        base + z <= src@.len(),
        z <= 384,
    ensures
        final(dst)@.len() == z,
        forall|i: int|
            0 <= i < z ==> #[trigger] final(dst)@[i] == old(dst)@[i] ^ src@[base + rot(
                i,
                shift as int,
                z as int,
            )],
{
    let total: usize = src.len();
    let ghost before = dst@;
    let mut i: usize = 0;
    while i < z
        invariant
            i <= z,
            dst@.len() == z,
            before.len() == z,
            shift < z,
            z <= 384,
            total == src@.len(),
            base + z <= total,
            forall|j: int|
                0 <= j < i ==> #[trigger] dst@[j] == before[j] ^ src@[base + rot(
                    j,
                    shift as int,
                    z as int,
                )],
            forall|j: int| i <= j < z ==> #[trigger] dst@[j] == before[j],
        decreases z - i,
    {
        let at: usize = if i + shift < z {
            i + shift
        } else {
            i + shift - z
        };
        let v: u8 = dst[i] ^ src[base + at];
        dst.set(i, v);
        i = i + 1;
    }
}

/// The block rotated left: entry `i` is `src[(i + shift) % z]`.
pub fn rotl(src: &Vec<u8>, shift: usize, z: usize) -> (dst: Vec<u8>)
    requires
        src@.len() == z,
        shift < z,
        z <= 384,
    ensures
        dst@.len() == z,
        forall|i: int|
            0 <= i < z ==> #[trigger] dst@[i] == src@[rot(i, shift as int, z as int)],
{
    let mut dst: Vec<u8> = Vec::new();
    let mut i: usize = 0;
    while i < z
        invariant
            i <= z,
            dst@.len() == i,
            src@.len() == z,
            shift < z,
            z <= 384,
            forall|j: int|
                0 <= j < i ==> #[trigger] dst@[j] == src@[rot(j, shift as int, z as int)],
        decreases z - i,
    {
        let at: usize = if i + shift < z {
            i + shift
        } else {
            i + shift - z
        };
        dst.push(src[at]);
        i = i + 1;
    }
    dst
}

/// The rotation that undoes a rotation by `s`.
fn inverse_shift(s: usize, z: usize) -> (t: usize)
    requires
        s < z,
    ensures
        t < z,
        forall|i: int|
            0 <= i < z ==> rot(#[trigger] rot(i, s as int, z as int), t as int, z as int) == i,
{
    if s == 0 {
        0
    } else {
        z - s
    }
}

/// The sums of row block `row` over the column blocks in `0..hi`, one for
/// each check.
pub fn accumulate_lambda(p: &QcLdpcParams, row: usize, hi: usize, w: &Vec<u8>) -> (lambda: Vec<u8>)
    requires
        p.wf(),
        row < p.num_row_blocks,
        hi * p.z <= w@.len(),
    ensures
        lambda@.len() == p.z,
        forall|i: int|
            0 <= i < p.z ==> #[trigger] lambda@[i] == p.row_part(
                w@,
                row as int,
                i,
                0,
                hi as int,
            ),
{
    let z: usize = p.z;
    assert(p.layer_offsets@[row as int] <= p.layer_offsets@[row + 1]);
    let begin: usize = p.layer_offsets[row];
    let end: usize = p.layer_offsets[row + 1];
    let total: usize = w.len();
    let mut lambda: Vec<u8> = vec![0u8; z];
    let mut e: usize = begin;
    while e < end
        invariant
            p.wf(),
            z == p.z,
            begin <= e <= end,
            end <= p.submatrix_cols@.len(),
            total == w@.len(),
            hi * z <= total,
            lambda@.len() == z,
            forall|i: int|
                0 <= i < z ==> #[trigger] lambda@[i] == p.part(
                    w@,
                    i,
                    0,
                    hi as int,
                    begin as int,
                    e as int,
                ),
        decreases end - e,
    {
        let col: usize = p.submatrix_cols[e];
        if col < hi {
            assert(0 <= p.submatrix_shifts@[e as int] < p.z);
            let shift: usize = p.submatrix_shifts[e] as usize;
            assert(col * z + z <= hi * z) by (nonlinear_arith)
                requires
                    col + 1 <= hi,
                    z >= 0,
            ;
            assert(0 <= col * z) by (nonlinear_arith);
            rotl_xor_into(&mut lambda, w, col * z, shift, z);
        }
        e = e + 1;
    }
    lambda
}

fn xor_blocks(a: &Vec<u8>, b: &Vec<u8>) -> (c: Vec<u8>)
    requires
        a@.len() == b@.len(),
    ensures
        c@.len() == a@.len(),
        forall|i: int| 0 <= i < a@.len() ==> #[trigger] c@[i] == a@[i] ^ b@[i],
{
    let mut c: Vec<u8> = Vec::new();
    let mut i: usize = 0;
    while i < a.len()
        invariant
            i <= a@.len(),
            a@.len() == b@.len(),
            c@.len() == i,
            forall|j: int| 0 <= j < i ==> #[trigger] c@[j] == a@[j] ^ b@[j],
        decreases a@.len() - i,
    {
        c.push(a[i] ^ b[i]);
        i = i + 1;
    }
    c
}

fn append(w: &mut Vec<u8>, block: &Vec<u8>)
    ensures
        final(w)@ == old(w)@ + block@,
{
    let ghost before = w@;
    let mut i: usize = 0;
    while i < block.len()
        invariant
            i <= block@.len(),
            w@ == before + block@.take(i as int),
        decreases block@.len() - i,
    {
        w.push(block[i]);
        i = i + 1;
        assert(before + block@.take(i as int) =~= (before + block@.take(i as int - 1)).push(
            block@[i as int - 1],
        ));
    }
    assert(block@.take(i as int) =~= block@);
}

/// The parity blocks satisfy the four core rows.
spec fn core_solved(
    l: CoreLayout,
    z: int,
    l0: Seq<u8>,
    l1: Seq<u8>,
    l2: Seq<u8>,
    l3: Seq<u8>,
    p1: Seq<u8>,
    p2: Seq<u8>,
    p3: Seq<u8>,
    p4: Seq<u8>,
) -> bool {
    forall|i: int|
        0 <= i < z ==> #[trigger] core_solved_at(l, z, l0, l1, l2, l3, p1, p2, p3, p4, i)
}

spec fn core_solved_at(
    l: CoreLayout,
    z: int,
    l0: Seq<u8>,
    l1: Seq<u8>,
    l2: Seq<u8>,
    l3: Seq<u8>,
    p1: Seq<u8>,
    p2: Seq<u8>,
    p3: Seq<u8>,
    p4: Seq<u8>,
    i: int,
) -> bool {
    let a = p1[rot(i, l.shift_p1_edge as int, z)];
    let x = p1[rot(i, l.shift_p1_x as int, z)];
    let b = p2[rot(i, l.shift_p2 as int, z)];
    let c = p3[rot(i, l.shift_p3 as int, z)];
    let d = p4[rot(i, l.shift_p4 as int, z)];
    let x1 = if l.row_x_is_1 {
        x
    } else {
        0
    };
    let x2 = if l.row_x_is_1 {
        0
    } else {
        x
    };
    &&& b == l0[i] ^ a
    &&& c == (l1[i] ^ b) ^ x1
    &&& d == (l2[i] ^ c) ^ x2
    &&& x == ((l0[i] ^ l1[i]) ^ l2[i]) ^ l3[i]
}

proof fn lemma_core_xor(
    l0: u8,
    l1: u8,
    l2: u8,
    l3: u8,
    a: u8,
    x: u8,
    b: u8,
    c: u8,
    d: u8,
    x1: u8,
    x2: u8,
)
    by (bit_vector)
    requires
        b == l0 ^ a,
        c == (l1 ^ b) ^ x1,
        d == (l2 ^ c) ^ x2,
        x == ((l0 ^ l1) ^ l2) ^ l3,
        (x1 == x && x2 == 0) || (x1 == 0 && x2 == x),
    ensures
        (l0 ^ (a ^ (b ^ 0u8))) == 0u8,
        (l1 ^ (x1 ^ (b ^ (c ^ 0u8)))) == 0u8,
        (l2 ^ (x2 ^ (0u8 ^ (c ^ (d ^ 0u8))))) == 0u8,
        (l3 ^ (a ^ (0u8 ^ (d ^ 0u8)))) == 0u8,
{
}

/// Solves for the four core parity blocks.
fn solve_core(
    l: &CoreLayout,
    z: usize,
    l0: &Vec<u8>,
    l1: &Vec<u8>,
    l2: &Vec<u8>,
    l3: &Vec<u8>,
) -> (r: (Vec<u8>, Vec<u8>, Vec<u8>, Vec<u8>))
    requires
        2 <= z <= 384,
        l0@.len() == z,
        l1@.len() == z,
        l2@.len() == z,
        l3@.len() == z,
        l.shift_p1_edge < z,
        l.shift_p1_x < z,
        l.shift_p2 < z,
        l.shift_p3 < z,
        l.shift_p4 < z,
    ensures
        r.0@.len() == z,
        r.1@.len() == z,
        r.2@.len() == z,
        r.3@.len() == z,
        core_solved(*l, z as int, l0@, l1@, l2@, l3@, r.0@, r.1@, r.2@, r.3@),
{
    let s01: Vec<u8> = xor_blocks(l0, l1);
    let s012: Vec<u8> = xor_blocks(&s01, l2);
    let sum: Vec<u8> = xor_blocks(&s012, l3);
    let i1: usize = inverse_shift(l.shift_p1_x, z);
    let p1: Vec<u8> = rotl(&sum, i1, z);
    let mut t2: Vec<u8> = to_vector(l0.as_slice());
    rotl_xor_into(&mut t2, &p1, 0, l.shift_p1_edge, z);
    let i2: usize = inverse_shift(l.shift_p2, z);
    let p2: Vec<u8> = rotl(&t2, i2, z);
    let mut t3: Vec<u8> = to_vector(l1.as_slice());
    rotl_xor_into(&mut t3, &p2, 0, l.shift_p2, z);
    let ghost t3a = t3@;
    if l.row_x_is_1 {
        rotl_xor_into(&mut t3, &p1, 0, l.shift_p1_x, z);
    }
    let i3: usize = inverse_shift(l.shift_p3, z);
    let p3: Vec<u8> = rotl(&t3, i3, z);
    let mut t4: Vec<u8> = to_vector(l2.as_slice());
    rotl_xor_into(&mut t4, &p3, 0, l.shift_p3, z);
    let ghost t4a = t4@;
    if !l.row_x_is_1 {
        rotl_xor_into(&mut t4, &p1, 0, l.shift_p1_x, z);
    }
    let i4: usize = inverse_shift(l.shift_p4, z);
    let p4: Vec<u8> = rotl(&t4, i4, z);
    proof {
        let zi = z as int;
        assert forall|i: int| 0 <= i < z implies #[trigger] core_solved_at(
            *l,
            zi,
            l0@,
            l1@,
            l2@,
            l3@,
            p1@,
            p2@,
            p3@,
            p4@,
            i,
        ) by {
            let rx = rot(i, l.shift_p1_x as int, zi);
            let r2 = rot(i, l.shift_p2 as int, zi);
            let r3 = rot(i, l.shift_p3 as int, zi);
            let r4 = rot(i, l.shift_p4 as int, zi);
            assert(p1@[rx] == sum@[i]);
            assert(p2@[r2] == t2@[i]);
            assert(p3@[r3] == t3@[i]);
            assert(p4@[r4] == t4@[i]);
            assert(s01@[i] == l0@[i] ^ l1@[i]);
            assert(s012@[i] == s01@[i] ^ l2@[i]);
            assert(t3a[i] == l1@[i] ^ p2@[r2]);
            assert(t4a[i] == l2@[i] ^ p3@[r3]);
            lemma_xor(t3a[i], 0, 0, 0);
            lemma_xor(t4a[i], 0, 0, 0);
        }
    }
    (p1, p2, p3, p4)
}

/// Extends the information bits to a word that satisfies every check.
pub fn encode_sparse(p: &QcLdpcParams, l: &CoreLayout, info: &[u8]) -> (w: Vec<u8>)
    requires
        p.wf(),
        layout_matches(*p, *l),
        layout_in_range(*p, *l),
        info@.len() == (p.num_col_blocks - p.num_row_blocks) * p.z,
    ensures
        w@.len() == p.num_col_blocks * p.z,
        w@.take(info@.len() as int) == info@,
        p.satisfied(w@),
{
    let z: usize = p.z;
    let kb: usize = p.num_col_blocks - p.num_row_blocks;
    let m_b: usize = p.num_row_blocks;
    let ghost zi = z as int;
    let ghost k = info@.len() as int;
    let mut w: Vec<u8> = to_vector(info);
    let l0: Vec<u8> = accumulate_lambda(p, 0, kb, &w);
    let l1: Vec<u8> = accumulate_lambda(p, 1, kb, &w);
    let l2: Vec<u8> = accumulate_lambda(p, 2, kb, &w);
    let l3: Vec<u8> = accumulate_lambda(p, 3, kb, &w);
    let (p1, p2, p3, p4): (Vec<u8>, Vec<u8>, Vec<u8>, Vec<u8>) = solve_core(
        l,
        z,
        &l0,
        &l1,
        &l2,
        &l3,
    );
    append(&mut w, &p1);
    append(&mut w, &p2);
    append(&mut w, &p3);
    append(&mut w, &p4);
    let ghost core = w@;
    proof {
        assert((kb + 4) * zi == kb * zi + 4 * zi) by (nonlinear_arith);
        assert(core.len() == (kb + 4) * zi);
    }
    let mut row: usize = 4;
    while row < m_b
        invariant
            p.wf(),
            z == p.z,
            zi == z,
            kb == p.num_col_blocks - p.num_row_blocks,
            m_b == p.num_row_blocks,
            4 <= row <= m_b,
            core.len() == (kb + 4) * zi,
            w@.len() == (kb + row) * zi,
            w@.take(core.len() as int) == core,
            forall|q: int, i: int|
                4 <= q < row && 0 <= i < z ==> w@[(kb + q) * zi + i] == #[trigger] p.row_part(
                    core,
                    q,
                    i,
                    0,
                    kb + 4,
                ),
        decreases m_b - row,
    {
        let ghost before = w@;
        assert((kb + 4) * zi <= (kb + row) * zi) by (nonlinear_arith)
            requires
                4 <= row,
                zi >= 0,
        ;
        let v: Vec<u8> = accumulate_lambda(p, row, kb + 4, &w);
        append(&mut w, &v);
        proof {
            assert((kb + row + 1) * zi == (kb + row) * zi + zi) by (nonlinear_arith);
            assert(w@.take(core.len() as int) =~= before.take(core.len() as int));
            assert forall|q: int, i: int| 4 <= q < row + 1 && 0 <= i < z implies w@[(kb + q) * zi
                + i] == #[trigger] p.row_part(core, q, i, 0, kb + 4) by {
                if q < row {
                    assert((kb + q) * zi + i < (kb + row) * zi) by (nonlinear_arith)
                        requires
                            q < row,
                            0 <= i < zi,
                    ;
                    assert(0 <= (kb + q) * zi) by (nonlinear_arith)
                        requires
                            q >= 0,
                            zi >= 0,
                            kb >= 0,
                    ;
                    assert(before[(kb + q) * zi + i] == p.row_part(core, q, i, 0, kb + 4));
                } else {
                    assert(v@[i] == p.row_part(before, q, i, 0, kb + 4));
                    assert forall|t: int| 0 * p.z <= t < (kb + 4) * p.z implies before[t]
                        == core[t] by {
                        assert(before.take(core.len() as int)[t] == before[t]);
                    }
                    p.lemma_frame(before, core, q, i, 0, kb + 4);
                }
            }
        }
        row = row + 1;
    }
    proof {
        assert((kb + 4) * zi <= (kb + m_b) * zi) by (nonlinear_arith)
            requires
                4 <= m_b,
                zi >= 0,
        ;
        assert(w@.take(k) =~= info@) by {
            assert forall|t: int| 0 <= t < k implies w@[t] == info@[t] by {
                assert(w@.take(core.len() as int)[t] == w@[t]);
            }
        }
        lemma_sparse_satisfied(*p, *l, info@, core, w@, p1@, p2@, p3@, p4@, l0@, l1@, l2@, l3@);
    }
    w
}

proof fn lemma_sparse_satisfied(
    p: QcLdpcParams,
    l: CoreLayout,
    info: Seq<u8>,
    core: Seq<u8>,
    w: Seq<u8>,
    p1: Seq<u8>,
    p2: Seq<u8>,
    p3: Seq<u8>,
    p4: Seq<u8>,
    l0: Seq<u8>,
    l1: Seq<u8>,
    l2: Seq<u8>,
    l3: Seq<u8>,
)
    requires
        p.wf(),
        layout_matches(p, l),
        layout_in_range(p, l),
        info.len() == (p.num_col_blocks - p.num_row_blocks) * p.z,
        p1.len() == p.z,
        p2.len() == p.z,
        p3.len() == p.z,
        p4.len() == p.z,
        core == info + p1 + p2 + p3 + p4,
        w.len() == p.num_col_blocks * p.z,
        w.take(core.len() as int) == core,
        core.len() <= w.len(),
        core_solved(l, p.z as int, l0, l1, l2, l3, p1, p2, p3, p4),
        ({
            let kb = p.num_col_blocks - p.num_row_blocks;
            &&& forall|i: int|
                0 <= i < p.z ==> #[trigger] l0[i] == p.row_part(info, 0, i, 0, kb)
            &&& forall|i: int|
                0 <= i < p.z ==> #[trigger] l1[i] == p.row_part(info, 1, i, 0, kb)
            &&& forall|i: int|
                0 <= i < p.z ==> #[trigger] l2[i] == p.row_part(info, 2, i, 0, kb)
            &&& forall|i: int|
                0 <= i < p.z ==> #[trigger] l3[i] == p.row_part(info, 3, i, 0, kb)
            &&& forall|q: int, i: int|
                4 <= q < p.num_row_blocks && 0 <= i < p.z ==> w[(kb + q) * p.z + i]
                    == #[trigger] p.row_part(core, q, i, 0, kb + 4)
        }),
    ensures
        p.satisfied(w),
{
    let kb = p.num_col_blocks - p.num_row_blocks;
    let nb = p.num_col_blocks as int;
    let z = p.z as int;
    assert((kb + 4) * z == kb * z + 4 * z) by (nonlinear_arith);
    assert((kb + 3) * z == kb * z + 3 * z) by (nonlinear_arith);
    assert((kb + 2) * z == kb * z + 2 * z) by (nonlinear_arith);
    assert((kb + 1) * z == kb * z + z) by (nonlinear_arith);
    assert(0 <= kb * z) by (nonlinear_arith)
        requires
            kb >= 0,
            z >= 0,
    ;
    assert forall|t: int| 0 <= t < core.len() implies w[t] == core[t] by {
        assert(w.take(core.len() as int)[t] == w[t]);
    }
    assert forall|r: int, i: int|
        0 <= r < p.num_row_blocks && 0 <= i < p.z implies #[trigger] p.check(w, r, i) == 0 by {
        p.lemma_split(w, r, i, 0, kb, nb);
        p.lemma_frame(w, info, r, i, 0, kb);
        if r < 4 {
            assert(core_solved_at(l, z, l0, l1, l2, l3, p1, p2, p3, p4, i));
            p.lemma_split(w, r, i, kb, kb + 1, nb);
            p.lemma_split(w, r, i, kb + 1, kb + 2, nb);
            p.lemma_split(w, r, i, kb + 2, kb + 3, nb);
            p.lemma_split(w, r, i, kb + 3, kb + 4, nb);
            p.lemma_split(w, r, i, kb + 1, kb + 3, nb);
            let ra = rot(i, l.shift_p1_edge as int, z);
            let rx = rot(i, l.shift_p1_x as int, z);
            let rb = rot(i, l.shift_p2 as int, z);
            let rc = rot(i, l.shift_p3 as int, z);
            let rd = rot(i, l.shift_p4 as int, z);
            assert(w[kb * z + ra] == p1[ra]);
            assert(w[kb * z + rx] == p1[rx]);
            assert(w[(kb + 1) * z + rb] == p2[rb]);
            assert(w[(kb + 2) * z + rc] == p3[rc]);
            assert(w[(kb + 3) * z + rd] == p4[rd]);
            let x = p1[rx];
            let x1 = if l.row_x_is_1 {
                x
            } else {
                0
            };
            let x2 = if l.row_x_is_1 {
                0
            } else {
                x
            };
            lemma_core_xor(
                l0[i],
                l1[i],
                l2[i],
                l3[i],
                p1[ra],
                x,
                p2[rb],
                p3[rc],
                p4[rd],
                x1,
                x2,
            );
            if r == 0 {
                p.lemma_only(w, 0, i, kb, l.shift_p1_edge as int);
                p.lemma_only(w, 0, i, kb + 1, l.shift_p2 as int);
                p.lemma_none(w, 0, i, kb + 2, nb);
            } else if r == 1 {
                if l.row_x_is_1 {
                    p.lemma_only(w, 1, i, kb, l.shift_p1_x as int);
                } else {
                    p.lemma_none(w, 1, i, kb, kb + 1);
                }
                p.lemma_only(w, 1, i, kb + 1, l.shift_p2 as int);
                p.lemma_only(w, 1, i, kb + 2, l.shift_p3 as int);
                p.lemma_none(w, 1, i, kb + 3, nb);
            } else if r == 2 {
                if l.row_x_is_1 {
                    p.lemma_none(w, 2, i, kb, kb + 1);
                } else {
                    p.lemma_only(w, 2, i, kb, l.shift_p1_x as int);
                }
                p.lemma_none(w, 2, i, kb + 1, kb + 2);
                p.lemma_only(w, 2, i, kb + 2, l.shift_p3 as int);
                p.lemma_only(w, 2, i, kb + 3, l.shift_p4 as int);
                p.lemma_none(w, 2, i, kb + 4, nb);
            } else {
                p.lemma_only(w, 3, i, kb, l.shift_p1_edge as int);
                p.lemma_none(w, 3, i, kb + 1, kb + 3);
                p.lemma_only(w, 3, i, kb + 3, l.shift_p4 as int);
                p.lemma_none(w, 3, i, kb + 4, nb);
            }
        } else {
            assert(extension_row(p, kb, r));
            p.lemma_split(w, r, i, 0, kb + 4, nb);
            p.lemma_split(w, r, i, kb + 4, kb + r, nb);
            p.lemma_split(w, r, i, kb + r, kb + r + 1, nb);
            p.lemma_none(w, r, i, kb + 4, kb + r);
            p.lemma_only(w, r, i, kb + r, 0);
            p.lemma_none(w, r, i, kb + r + 1, nb);
            p.lemma_frame(w, core, r, i, 0, kb + 4);
            let v = p.row_part(core, r, i, 0, kb + 4);
            lemma_xor(v, v, 0, 0);
            lemma_xor(v, 0, 0, 0);
        }
    }
}

proof fn lemma_core_values_xor(
    l0: u8,
    l1: u8,
    l2: u8,
    l3: u8,
    a: u8,
    x: u8,
    b: u8,
    c: u8,
    d: u8,
    x1: u8,
    x2: u8,
)
    by (bit_vector)
    requires
        (l0 ^ (a ^ (b ^ 0u8))) == 0u8,
        (l1 ^ (x1 ^ (b ^ (c ^ 0u8)))) == 0u8,
        (l2 ^ (x2 ^ (0u8 ^ (c ^ (d ^ 0u8))))) == 0u8,
        (l3 ^ (a ^ (0u8 ^ (d ^ 0u8)))) == 0u8,
        (x1 == x && x2 == 0) || (x1 == 0 && x2 == x),
    ensures
        x == ((l0 ^ l1) ^ l2) ^ l3,
        b == l0 ^ a,
        c == (l1 ^ b) ^ x1,
        d == (l2 ^ c) ^ x2,
{
}

/// In a word that satisfies every check, the core parity bits met by check
/// `i` follow from the information bits.
proof fn lemma_core_values(p: QcLdpcParams, l: CoreLayout, w: Seq<u8>, i: int)
    requires
        p.wf(),
        layout_matches(p, l),
        p.satisfied(w),
        0 <= i < p.z,
    ensures
        ({
            let kb = p.num_col_blocks - p.num_row_blocks;
            let z = p.z as int;
            let l0 = p.row_part(w, 0, i, 0, kb);
            let l1 = p.row_part(w, 1, i, 0, kb);
            let l2 = p.row_part(w, 2, i, 0, kb);
            let l3 = p.row_part(w, 3, i, 0, kb);
            let a = w[kb * z + rot(i, l.shift_p1_edge as int, z)];
            let x = w[kb * z + rot(i, l.shift_p1_x as int, z)];
            let b = w[(kb + 1) * z + rot(i, l.shift_p2 as int, z)];
            let c = w[(kb + 2) * z + rot(i, l.shift_p3 as int, z)];
            let d = w[(kb + 3) * z + rot(i, l.shift_p4 as int, z)];
            let x1 = if l.row_x_is_1 {
                x
            } else {
                0
            };
            let x2 = if l.row_x_is_1 {
                0
            } else {
                x
            };
            &&& x == ((l0 ^ l1) ^ l2) ^ l3
            &&& b == l0 ^ a
            &&& c == (l1 ^ b) ^ x1
            &&& d == (l2 ^ c) ^ x2
        }),
{
    let kb = p.num_col_blocks - p.num_row_blocks;
    let nb = p.num_col_blocks as int;
    let z = p.z as int;
    let l0 = p.row_part(w, 0, i, 0, kb);
    let l1 = p.row_part(w, 1, i, 0, kb);
    let l2 = p.row_part(w, 2, i, 0, kb);
    let l3 = p.row_part(w, 3, i, 0, kb);
    let a = w[kb * z + rot(i, l.shift_p1_edge as int, z)];
    let x = w[kb * z + rot(i, l.shift_p1_x as int, z)];
    let b = w[(kb + 1) * z + rot(i, l.shift_p2 as int, z)];
    let c = w[(kb + 2) * z + rot(i, l.shift_p3 as int, z)];
    let d = w[(kb + 3) * z + rot(i, l.shift_p4 as int, z)];
    let x1 = if l.row_x_is_1 {
        x
    } else {
        0
    };
    let x2 = if l.row_x_is_1 {
        0
    } else {
        x
    };
    assert(l0 ^ (a ^ (b ^ 0u8)) == 0) by {
        p.lemma_split(w, 0, i, 0, kb, nb);
        p.lemma_split(w, 0, i, kb, kb + 1, nb);
        p.lemma_split(w, 0, i, kb + 1, kb + 2, nb);
        p.lemma_only(w, 0, i, kb, l.shift_p1_edge as int);
        p.lemma_only(w, 0, i, kb + 1, l.shift_p2 as int);
        p.lemma_none(w, 0, i, kb + 2, nb);
        assert(p.check(w, 0, i) == 0);
    }
    assert(l1 ^ (x1 ^ (b ^ (c ^ 0u8))) == 0) by {
        p.lemma_split(w, 1, i, 0, kb, nb);
        p.lemma_split(w, 1, i, kb, kb + 1, nb);
        p.lemma_split(w, 1, i, kb + 1, kb + 2, nb);
        p.lemma_split(w, 1, i, kb + 2, kb + 3, nb);
        if l.row_x_is_1 {
            p.lemma_only(w, 1, i, kb, l.shift_p1_x as int);
        } else {
            p.lemma_none(w, 1, i, kb, kb + 1);
        }
        p.lemma_only(w, 1, i, kb + 1, l.shift_p2 as int);
        p.lemma_only(w, 1, i, kb + 2, l.shift_p3 as int);
        p.lemma_none(w, 1, i, kb + 3, nb);
        assert(p.check(w, 1, i) == 0);
    }
    assert(l2 ^ (x2 ^ (0u8 ^ (c ^ (d ^ 0u8)))) == 0) by {
        p.lemma_split(w, 2, i, 0, kb, nb);
        p.lemma_split(w, 2, i, kb, kb + 1, nb);
        p.lemma_split(w, 2, i, kb + 1, kb + 2, nb);
        p.lemma_split(w, 2, i, kb + 2, kb + 3, nb);
        p.lemma_split(w, 2, i, kb + 3, kb + 4, nb);
        if l.row_x_is_1 {
            p.lemma_none(w, 2, i, kb, kb + 1);
        } else {
            p.lemma_only(w, 2, i, kb, l.shift_p1_x as int);
        }
        p.lemma_none(w, 2, i, kb + 1, kb + 2);
        p.lemma_only(w, 2, i, kb + 2, l.shift_p3 as int);
        p.lemma_only(w, 2, i, kb + 3, l.shift_p4 as int);
        p.lemma_none(w, 2, i, kb + 4, nb);
        assert(p.check(w, 2, i) == 0);
    }
    assert(l3 ^ (a ^ (0u8 ^ (d ^ 0u8))) == 0) by {
        p.lemma_split(w, 3, i, 0, kb, nb);
        p.lemma_split(w, 3, i, kb, kb + 1, nb);
        p.lemma_split(w, 3, i, kb + 1, kb + 3, nb);
        p.lemma_split(w, 3, i, kb + 3, kb + 4, nb);
        p.lemma_only(w, 3, i, kb, l.shift_p1_edge as int);
        p.lemma_none(w, 3, i, kb + 1, kb + 3);
        p.lemma_only(w, 3, i, kb + 3, l.shift_p4 as int);
        p.lemma_none(w, 3, i, kb + 4, nb);
        assert(p.check(w, 3, i) == 0);
    }
    lemma_core_values_xor(l0, l1, l2, l3, a, x, b, c, d, x1, x2);
}

/// The position that a rotation by `s` sends to `j`.
spec fn unrot(j: int, s: int, z: int) -> int {
    if j >= s {
        j - s
    } else {
        j - s + z
    }
}

/// In the double-diagonal shape, the checks determine the parity from the
/// information.
pub proof fn lemma_sparse_unique(p: QcLdpcParams, l: CoreLayout, v: Seq<u8>, w: Seq<u8>)
    requires
        p.wf(),
        layout_matches(p, l),
        layout_in_range(p, l),
        v.len() == p.num_col_blocks * p.z,
        w.len() == p.num_col_blocks * p.z,
        p.satisfied(v),
        p.satisfied(w),
        forall|t: int| 0 <= t < (p.num_col_blocks - p.num_row_blocks) * p.z ==> v[t] == w[t],
    ensures
        v == w,
{
    let kb = p.num_col_blocks - p.num_row_blocks;
    let nb = p.num_col_blocks as int;
    let z = p.z as int;
    let k = kb * z;
    assert((kb + 4) * z == k + 4 * z) by (nonlinear_arith)
        requires
            k == kb * z,
    ;
    assert((kb + 3) * z == k + 3 * z) by (nonlinear_arith)
        requires
            k == kb * z,
    ;
    assert((kb + 2) * z == k + 2 * z) by (nonlinear_arith)
        requires
            k == kb * z,
    ;
    assert((kb + 1) * z == k + z) by (nonlinear_arith)
        requires
            k == kb * z,
    ;
    assert(0 <= k) by (nonlinear_arith)
        requires
            k == kb * z,
            kb >= 0,
            z >= 0,
    ;
    assert forall|r: int, i: int| 0 <= r < p.num_row_blocks && 0 <= i < z implies
        #[trigger] p.row_part(v, r, i, 0, kb) == p.row_part(w, r, i, 0, kb) by {
        p.lemma_frame(v, w, r, i, 0, kb);
    }
    assert forall|j: int| 0 <= j < z implies #[trigger] v[k + j] == w[k + j] by {
        let i = unrot(j, l.shift_p1_x as int, z);
        lemma_core_values(p, l, v, i);
        lemma_core_values(p, l, w, i);
        assert(p.row_part(v, 0, i, 0, kb) == p.row_part(w, 0, i, 0, kb));
        assert(p.row_part(v, 1, i, 0, kb) == p.row_part(w, 1, i, 0, kb));
        assert(p.row_part(v, 2, i, 0, kb) == p.row_part(w, 2, i, 0, kb));
        assert(p.row_part(v, 3, i, 0, kb) == p.row_part(w, 3, i, 0, kb));
    }
    assert forall|j: int| 0 <= j < z implies #[trigger] v[k + z + j] == w[k + z + j] by {
        let i = unrot(j, l.shift_p2 as int, z);
        lemma_core_values(p, l, v, i);
        lemma_core_values(p, l, w, i);
        assert(p.row_part(v, 0, i, 0, kb) == p.row_part(w, 0, i, 0, kb));
        let q = rot(i, l.shift_p1_edge as int, z);
        assert(v[k + q] == w[k + q]);
    }
    assert forall|j: int| 0 <= j < z implies #[trigger] v[k + 2 * z + j] == w[k + 2 * z + j] by {
        let i = unrot(j, l.shift_p3 as int, z);
        lemma_core_values(p, l, v, i);
        lemma_core_values(p, l, w, i);
        assert(p.row_part(v, 1, i, 0, kb) == p.row_part(w, 1, i, 0, kb));
        let q = rot(i, l.shift_p2 as int, z);
        assert(v[k + z + q] == w[k + z + q]);
        let t = rot(i, l.shift_p1_x as int, z);
        assert(v[k + t] == w[k + t]);
    }
    assert forall|j: int| 0 <= j < z implies #[trigger] v[k + 3 * z + j] == w[k + 3 * z + j] by {
        let i = unrot(j, l.shift_p4 as int, z);
        lemma_core_values(p, l, v, i);
        lemma_core_values(p, l, w, i);
        assert(p.row_part(v, 2, i, 0, kb) == p.row_part(w, 2, i, 0, kb));
        let q = rot(i, l.shift_p3 as int, z);
        assert(v[k + 2 * z + q] == w[k + 2 * z + q]);
        let t = rot(i, l.shift_p1_x as int, z);
        assert(v[k + t] == w[k + t]);
    }
    assert forall|t: int| 0 <= t < (kb + 4) * z implies v[t] == w[t] by {
        if t >= k + 3 * z {
            assert(v[k + 3 * z + (t - k - 3 * z)] == w[k + 3 * z + (t - k - 3 * z)]);
        } else if t >= k + 2 * z {
            assert(v[k + 2 * z + (t - k - 2 * z)] == w[k + 2 * z + (t - k - 2 * z)]);
        } else if t >= k + z {
            assert(v[k + z + (t - k - z)] == w[k + z + (t - k - z)]);
        } else if t >= k {
            assert(v[k + (t - k)] == w[k + (t - k)]);
        }
    }
    assert forall|t: int| 0 <= t < v.len() implies v[t] == w[t] by {
        if t >= (kb + 4) * z {
            let c = t / z;
            let i = t % z;
            vstd::arithmetic::div_mod::lemma_fundamental_div_mod(t, z);
            assert(kb + 4 <= c < nb) by (nonlinear_arith)
                requires
                    t == z * c + i,
                    0 <= i < z,
                    (kb + 4) * z <= t < nb * z,
            ;
            assert(c * z + i == t) by (nonlinear_arith)
                requires
                    t == z * c + i,
            ;
            let r = c - kb;
            lemma_extension_value(p, l, v, r, i);
            lemma_extension_value(p, l, w, r, i);
            p.lemma_frame(v, w, r, i, 0, kb + 4);
        }
    }
    assert(v =~= w);
}

proof fn lemma_extension_value(p: QcLdpcParams, l: CoreLayout, w: Seq<u8>, r: int, i: int)
    requires
        p.wf(),
        layout_matches(p, l),
        p.satisfied(w),
        4 <= r < p.num_row_blocks,
        0 <= i < p.z,
    ensures
        w[(p.num_col_blocks - p.num_row_blocks + r) * p.z + i] == p.row_part(
            w,
            r,
            i,
            0,
            p.num_col_blocks - p.num_row_blocks + 4,
        ),
{
    let kb = p.num_col_blocks - p.num_row_blocks;
    let nb = p.num_col_blocks as int;
    assert(extension_row(p, kb, r));
    p.lemma_split(w, r, i, 0, kb + 4, nb);
    p.lemma_split(w, r, i, kb + 4, kb + r, nb);
    p.lemma_split(w, r, i, kb + r, kb + r + 1, nb);
    p.lemma_none(w, r, i, kb + 4, kb + r);
    p.lemma_only(w, r, i, kb + r, 0);
    p.lemma_none(w, r, i, kb + r + 1, nb);
    assert(p.check(w, r, i) == 0);
    let v = p.row_part(w, r, i, 0, kb + 4);
    let y = w[(kb + r) * p.z + i];
    lemma_xor(y, 0, 0, 0);
    lemma_xor(v, y, 0, 0);
}

} // verus!
