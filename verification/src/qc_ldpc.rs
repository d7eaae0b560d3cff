//! Quasi-cyclic LDPC codes of 5G NR: lifting, parity checks and systematic
//! encoding.
//!
//! A base graph lists, for each of its row blocks, the column blocks it
//! touches with a cyclic shift for each of eight lifting-size sets. Lifting
//! by `z` replaces each entry by a shifted `z x z` identity: check `i` of row
//! block `r` sums, over the entries of that row, bit
//! `col * z + (i + shift) % z` of the word.

use crate::bits::{is_bits, lemma_low_bit, lemma_low_bits, low_bits};
use crate::error::FecError;
use crate::gf256::lemma_xor;
use crate::ldpc_core::{
    CoreLayout, encode_sparse, layout_in_range, layout_matches, lemma_sparse_unique,
};
use crate::ldpc_dense::{ParityGenerator, ambiguous_word, parity_ambiguous};
use crate::slices::copy_into;
use vstd::arithmetic::power2::{lemma2_to64, lemma_pow2_strictly_increases, pow2};
use vstd::prelude::*;

verus! {

/// The two base graphs of TS 38.212.
#[derive(Clone, Copy, Debug, PartialEq, Eq, Structural)]
pub enum BaseGraph {
    Bg1,
    Bg2,
}

/// Row blocks of a base graph.
pub open spec fn row_blocks(bg: BaseGraph) -> nat {
    match bg {
        BaseGraph::Bg1 => 46,
        BaseGraph::Bg2 => 42,
    }
}

/// Column blocks of a base graph.
pub open spec fn col_blocks(bg: BaseGraph) -> nat {
    match bg {
        BaseGraph::Bg1 => 68,
        BaseGraph::Bg2 => 52,
    }
}

/// Systematic column blocks of a base graph.
pub open spec fn info_blocks(bg: BaseGraph) -> nat {
    (col_blocks(bg) - row_blocks(bg)) as nat
}

/// Membership of `z` in lifting-size set `i` (TS 38.212 Table 5.3.2-1).
pub open spec fn in_lifting_set(i: int, z: int) -> bool {
    if i == 0 {
        z == 2 || z == 4 || z == 8 || z == 16 || z == 32 || z == 64 || z == 128 || z == 256
    } else if i == 1 {
        z == 3 || z == 6 || z == 12 || z == 24 || z == 48 || z == 96 || z == 192 || z == 384
    } else if i == 2 {
        z == 5 || z == 10 || z == 20 || z == 40 || z == 80 || z == 160 || z == 320
    } else if i == 3 {
        z == 7 || z == 14 || z == 28 || z == 56 || z == 112 || z == 224
    } else if i == 4 {
        z == 9 || z == 18 || z == 36 || z == 72 || z == 144 || z == 288
    } else if i == 5 {
        z == 11 || z == 22 || z == 44 || z == 88 || z == 176 || z == 352
    } else if i == 6 {
        z == 13 || z == 26 || z == 52 || z == 104 || z == 208
    } else if i == 7 {
        z == 15 || z == 30 || z == 60 || z == 120 || z == 240
    } else {
        false
    }
}

/// Whether `z` is a lifting size at all.
pub open spec fn is_lifting_size(z: int) -> bool {
    exists|i: int| in_lifting_set(i, z)
}

/// The smallest size of lifting-size set `i`: two, and then the odd numbers
/// from three on.
pub open spec fn smallest_size(i: int) -> int {
    if i == 0 {
        2
    } else {
        2 * i + 1
    }
}

/// A number doubled some number of times.
pub open spec fn is_doubling(a: int, z: int) -> bool {
    exists|j: nat| z == a * #[trigger] pow2(j)
}

proof fn lemma_doublings(a: int, z: int)
    requires
        2 <= a,
        z <= 384,
    ensures
        is_doubling(a, z) <==> z == a || z == 2 * a || z == 4 * a || z == 8 * a || z == 16 * a || z
            == 32 * a || z == 64 * a || z == 128 * a,
{
    lemma2_to64();
    assert(a * pow2(0) == a && a * pow2(1) == 2 * a && a * pow2(2) == 4 * a && a * pow2(3) == 8 * a
        && a * pow2(4) == 16 * a && a * pow2(5) == 32 * a && a * pow2(6) == 64 * a && a * pow2(7)
        == 128 * a) by (nonlinear_arith)
        requires
            pow2(0) == 1,
            pow2(1) == 2,
            pow2(2) == 4,
            pow2(3) == 8,
            pow2(4) == 16,
            pow2(5) == 32,
            pow2(6) == 64,
            pow2(7) == 128,
    ;
    if is_doubling(a, z) {
        let j = choose|j: nat| z == a * #[trigger] pow2(j);
        if j >= 8 {
            if j > 8 {
                lemma_pow2_strictly_increases(8, j);
            }
            assert(a * pow2(j) >= 2 * 256) by (nonlinear_arith)
                requires
                    a >= 2,
                    pow2(j) >= 256,
            ;
        } else {
            assert(j == 0 || j == 1 || j == 2 || j == 3 || j == 4 || j == 5 || j == 6 || j == 7);
        }
    }
}

/// The sets by arithmetic: set `i` holds the doublings of its smallest size
/// up to 384.
pub proof fn lemma_lifting_set(i: int, z: int)
    ensures
        in_lifting_set(i, z) <==> 0 <= i < 8 && z <= 384 && is_doubling(smallest_size(i), z),
{
    if 0 <= i < 8 && z <= 384 {
        lemma_doublings(smallest_size(i), z);
        assert(i == 0 || i == 1 || i == 2 || i == 3 || i == 4 || i == 5 || i == 6 || i == 7);
    }
}

/// A size is in one set only.
pub proof fn lemma_one_lifting_set(i: int, j: int, z: int)
    requires
        in_lifting_set(i, z),
        in_lifting_set(j, z),
    ensures
        i == j,
{
}

/// The index of the lifting-size set that holds `z`.
pub fn ils_for_z(z: usize) -> (r: Option<usize>)
    ensures
        match r {
            Some(i) => i < 8 && in_lifting_set(i as int, z as int),
            None => !is_lifting_size(z as int),
        },
        forall|i: int| #[trigger] in_lifting_set(i, z as int) ==> r == Some(i as usize),
        match r {
            Some(i) => i < 8 && z <= 384 && is_doubling(smallest_size(i as int), z as int),
            None => forall|i: int|
                0 <= i < 8 && z <= 384 ==> !#[trigger] is_doubling(smallest_size(i), z as int),
        },
{
    proof {
        lemma_lifting_set(0, z as int);
        lemma_lifting_set(1, z as int);
        lemma_lifting_set(2, z as int);
        lemma_lifting_set(3, z as int);
        lemma_lifting_set(4, z as int);
        lemma_lifting_set(5, z as int);
        lemma_lifting_set(6, z as int);
        lemma_lifting_set(7, z as int);
        assert forall|i: int|
            0 <= i < 8 && z <= 384 && #[trigger] is_doubling(smallest_size(i), z as int) implies
            in_lifting_set(i, z as int) by {
            lemma_lifting_set(i, z as int);
        }
    }
    if z == 2 || z == 4 || z == 8 || z == 16 || z == 32 || z == 64 || z == 128 || z == 256 {
        Some(0)
    } else if z == 3 || z == 6 || z == 12 || z == 24 || z == 48 || z == 96 || z == 192 || z
        == 384 {
        Some(1)
    } else if z == 5 || z == 10 || z == 20 || z == 40 || z == 80 || z == 160 || z == 320 {
        Some(2)
    } else if z == 7 || z == 14 || z == 28 || z == 56 || z == 112 || z == 224 {
        Some(3)
    } else if z == 9 || z == 18 || z == 36 || z == 72 || z == 144 || z == 288 {
        Some(4)
    } else if z == 11 || z == 22 || z == 44 || z == 88 || z == 176 || z == 352 {
        Some(5)
    } else if z == 13 || z == 26 || z == 52 || z == 104 || z == 208 {
        Some(6)
    } else if z == 15 || z == 30 || z == 60 || z == 120 || z == 240 {
        Some(7)
    } else {
        None
    }
}

/// One entry of a base graph: a row block, a column block, and the shift for
/// each lifting-size set.
pub struct BaseGraphEntry {
    pub row: u8,
    pub col: u8,
    pub shifts: Vec<i16>,
}

/// An entry within the bounds of its base graph.
pub open spec fn entry_valid(bg: BaseGraph, e: BaseGraphEntry) -> bool {
    &&& e.row < row_blocks(bg)
    &&& e.col < col_blocks(bg)
    &&& e.shifts@.len() == 8
    &&& forall|i: int| 0 <= i < 8 ==> #[trigger] e.shifts@[i] >= 0
}

/// The entries of a base graph.
pub struct BaseGraphTable {
    bg: BaseGraph,
    entries: Vec<BaseGraphEntry>,
}

impl BaseGraphTable {
    /// The base graph the table is of.
    pub closed spec fn graph(&self) -> BaseGraph {
        self.bg
    }

    /// The entries in table order.
    pub closed spec fn entries(&self) -> Seq<BaseGraphEntry> {
        self.entries@
    }

    /// Every entry is within bounds.
    pub open spec fn wf(&self) -> bool {
        forall|j: int|
            0 <= j < self.entries().len() ==> entry_valid(self.graph(), #[trigger] self.entries()[j])
    }

    /// Checks the entries read for a base graph.
    pub fn new(
        bg: BaseGraph,
        rows: usize,
        cols: usize,
        entries: Vec<BaseGraphEntry>,
    ) -> (r: Result<BaseGraphTable, FecError>)
        ensures
            match r {
                Ok(t) => {
                    &&& t.wf()
                    &&& t.graph() == bg
                    &&& t.entries() == entries@
                    &&& rows == row_blocks(bg)
                    &&& cols == col_blocks(bg)
                },
                Err(e) => {
                    &&& e == FecError::InvalidParam("base graph table does not fit its base graph")
                    &&& rows != row_blocks(bg) || cols != col_blocks(bg) || exists|j: int|
                        0 <= j < entries@.len() && !#[trigger] entry_valid(bg, entries@[j])
                },
            },
    {
        let (want_rows, want_cols): (usize, usize) = match bg {
            BaseGraph::Bg1 => (46, 68),
            BaseGraph::Bg2 => (42, 52),
        };
        if rows != want_rows || cols != want_cols {
            return Err(FecError::InvalidParam("base graph table does not fit its base graph"));
        }
        let mut j: usize = 0;
        while j < entries.len()
            invariant
                j <= entries@.len(),
                rows == row_blocks(bg),
                cols == col_blocks(bg),
                forall|i: int| 0 <= i < j ==> entry_valid(bg, #[trigger] entries@[i]),
            decreases entries@.len() - j,
        {
            let e: &BaseGraphEntry = &entries[j];
            let mut ok: bool = (e.row as usize) < rows && (e.col as usize) < cols && e.shifts.len()
                == 8;
            if ok {
                let mut i: usize = 0;
                while i < 8
                    invariant
                        i <= 8,
                        e.shifts@.len() == 8,
                        ok <==> forall|q: int| 0 <= q < i ==> #[trigger] e.shifts@[q] >= 0,
                    decreases 8 - i,
                {
                    if e.shifts[i] < 0 {
                        ok = false;
                    }
                    i = i + 1;
                }
            }
            if !ok {
                assert(!entry_valid(bg, entries@[j as int]));
                return Err(FecError::InvalidParam("base graph table does not fit its base graph"));
            }
            j = j + 1;
        }
        Ok(BaseGraphTable { bg, entries })
    }

    /// The base graph of the table.
    pub fn base_graph(&self) -> (bg: BaseGraph)
        ensures
            bg == self.graph(),
    {
        self.bg
    }
}

/// A base graph lifted to one size.
#[derive(Clone)]
pub struct QcLdpcParams {
    /// Base graph these parameters were expanded from.
    pub bg: BaseGraph,
    /// Lifting size.
    pub z: usize,
    /// Number of check-node row blocks.
    pub num_row_blocks: usize,
    /// Number of variable-node column blocks.
    pub num_col_blocks: usize,
    /// The edges of row block `r` are those from `layer_offsets[r]` up to
    /// `layer_offsets[r + 1]`.
    pub layer_offsets: Vec<usize>,
    /// Column block of each edge.
    pub submatrix_cols: Vec<usize>,
    /// Cyclic shift of each edge, below the lifting size.
    pub submatrix_shifts: Vec<i16>,
    /// The largest number of edges in one row block.
    pub max_layer_degree: usize,
}

/// The edges of row block `row` among the first `n` entries, in table order:
/// column block and shift modulo `z`.
pub open spec fn row_edges(t: Seq<BaseGraphEntry>, ils: int, z: int, row: int, n: nat) -> Seq<
    (int, int),
>
    decreases n,
{
    if n == 0 {
        Seq::empty()
    } else {
        let before = row_edges(t, ils, z, row, (n - 1) as nat);
        let e = t[n - 1];
        if e.row == row {
            before.push((e.col as int, e.shifts@[ils] as int % z))
        } else {
            before
        }
    }
}

/// Position `i` of a block of length `z` rotated left by `s`.
pub open spec fn rot(i: int, s: int, z: int) -> int {
    if i + s < z {
        i + s
    } else {
        i + s - z
    }
}

impl QcLdpcParams {
    /// The edges of row block `r`.
    pub open spec fn edges(&self, r: int) -> Seq<(int, int)> {
        Seq::new(
            (self.layer_offsets@[r + 1] - self.layer_offsets@[r]) as nat,
            |j: int|
                (
                    self.submatrix_cols@[self.layer_offsets@[r] + j] as int,
                    self.submatrix_shifts@[self.layer_offsets@[r] + j] as int,
                ),
        )
    }

    /// The offsets partition the edges, and every edge is within bounds.
    pub open spec fn wf(&self) -> bool {
        &&& 2 <= self.z <= 384
        &&& is_lifting_size(self.z as int)
        &&& self.num_row_blocks == row_blocks(self.bg)
        &&& self.num_col_blocks == col_blocks(self.bg)
        &&& self.layer_offsets@.len() == self.num_row_blocks + 1
        &&& self.layer_offsets@[0] == 0
        &&& forall|r: int|
            0 <= r < self.num_row_blocks ==> #[trigger] self.layer_offsets@[r]
                <= self.layer_offsets@[r + 1] && self.layer_offsets@[r + 1]
                <= self.submatrix_cols@.len() && self.layer_offsets@[r + 1] - self.layer_offsets@[r]
                <= self.max_layer_degree
        &&& self.layer_offsets@[self.num_row_blocks as int] == self.submatrix_cols@.len()
        &&& self.submatrix_shifts@.len() == self.submatrix_cols@.len()
        &&& forall|e: int|
            0 <= e < self.submatrix_cols@.len() ==> #[trigger] self.submatrix_cols@[e]
                < self.num_col_blocks
        &&& forall|e: int|
            0 <= e < self.submatrix_shifts@.len() ==> 0 <= #[trigger] self.submatrix_shifts@[e]
                < self.z
    }

    /// The bit that edge `e` brings to check `i` of its row.
    pub open spec fn variable(&self, e: int, i: int) -> int {
        self.submatrix_cols@[e] * self.z + rot(i, self.submatrix_shifts@[e] as int, self.z as int)
    }

    /// The sum, for check `i`, over the edges from `begin` up to `end` whose
    /// column block lies in `lo..hi`.
    pub open spec fn part(
        &self,
        w: Seq<u8>,
        i: int,
        lo: int,
        hi: int,
        begin: int,
        end: int,
    ) -> u8
        decreases end - begin,
    {
        if end <= begin {
            0
        } else {
            let before = self.part(w, i, lo, hi, begin, end - 1);
            if lo <= self.submatrix_cols@[end - 1] < hi {
                before ^ w[self.variable(end - 1, i)]
            } else {
                before
            }
        }
    }

    /// The sum of row block `r`, check `i`, over the columns in `lo..hi`.
    pub open spec fn row_part(&self, w: Seq<u8>, r: int, i: int, lo: int, hi: int) -> u8 {
        self.part(w, i, lo, hi, self.layer_offsets@[r] as int, self.layer_offsets@[r + 1] as int)
    }

    /// The value of check `i` of row block `r` on the word `w`.
    pub open spec fn check(&self, w: Seq<u8>, r: int, i: int) -> u8 {
        self.row_part(w, r, i, 0, self.num_col_blocks as int)
    }

    /// Every parity check is satisfied.
    pub open spec fn satisfied(&self, w: Seq<u8>) -> bool {
        forall|r: int, i: int|
            0 <= r < self.num_row_blocks && 0 <= i < self.z ==> #[trigger] self.check(w, r, i) == 0
    }

    /// The degree of the fullest row among the first `n`.
    pub open spec fn max_degree(&self, n: nat) -> nat
        decreases n,
    {
        if n == 0 {
            0
        } else {
            let d = (self.layer_offsets@[n as int] - self.layer_offsets@[n - 1]) as nat;
            let before = self.max_degree((n - 1) as nat);
            if d > before {
                d
            } else {
                before
            }
        }
    }
}

/// The edges that the three vectors give to row block `r`.
spec fn raw_edges(offs: Seq<usize>, cols: Seq<usize>, shifts: Seq<i16>, r: int) -> Seq<(int, int)> {
    Seq::new(
        (offs[r + 1] - offs[r]) as nat,
        |j: int| (cols[offs[r] + j] as int, shifts[offs[r] + j] as int),
    )
}

/// A row block has at most as many edges as the table has entries.
pub proof fn lemma_row_edges_len(t: Seq<BaseGraphEntry>, ils: int, z: int, row: int, n: nat)
    ensures
        row_edges(t, ils, z, row, n).len() <= n,
    decreases n,
{
    if n > 0 {
        lemma_row_edges_len(t, ils, z, row, (n - 1) as nat);
    }
}

/// Appends the edges of one row block to the edge vectors.
fn push_row(
    table: &BaseGraphTable,
    ils: usize,
    z: usize,
    row: usize,
    cols: &mut Vec<usize>,
    shifts: &mut Vec<i16>,
)
    requires
        table.wf(),
        ils < 8,
        2 <= z <= 384,
        old(cols)@.len() == old(shifts)@.len(),
    ensures
        final(cols)@.len() == final(shifts)@.len(),
        final(cols)@.len() == old(cols)@.len() + row_edges(
            table.entries(),
            ils as int,
            z as int,
            row as int,
            table.entries().len(),
        ).len(),
        old(cols)@ == final(cols)@.take(old(cols)@.len() as int),
        old(shifts)@ == final(shifts)@.take(old(shifts)@.len() as int),
        forall|k: int|
            old(cols)@.len() <= k < final(cols)@.len() ==> #[trigger] final(cols)@[k] < col_blocks(
                table.graph(),
            ),
        forall|k: int|
            old(cols)@.len() <= k < final(cols)@.len() ==> 0 <= #[trigger] final(shifts)@[k] < z,
        forall|k: int|
            0 <= k < final(cols)@.len() - old(cols)@.len() ==> #[trigger] row_edges(
                table.entries(),
                ils as int,
                z as int,
                row as int,
                table.entries().len(),
            )[k] == (
                final(cols)@[old(cols)@.len() + k] as int,
                final(shifts)@[old(cols)@.len() + k] as int,
            ),
{
    let ghost c0 = cols@;
    let ghost s0 = shifts@;
    let ghost t = table.entries();
    let mut j: usize = 0;
    while j < table.entries.len()
        invariant
            table.wf(),
            t == table.entries(),
            t == table.entries@,
            ils < 8,
            2 <= z <= 384,
            j <= t.len(),
            c0.len() == s0.len(),
            cols@.len() == shifts@.len(),
            cols@.len() == c0.len() + row_edges(t, ils as int, z as int, row as int, j as nat).len(),
            c0 == cols@.take(c0.len() as int),
            s0 == shifts@.take(s0.len() as int),
            forall|k: int|
                c0.len() <= k < cols@.len() ==> #[trigger] cols@[k] < col_blocks(table.graph()),
            forall|k: int| c0.len() <= k < cols@.len() ==> 0 <= #[trigger] shifts@[k] < z,
            forall|k: int|
                0 <= k < cols@.len() - c0.len() ==> #[trigger] row_edges(
                    t,
                    ils as int,
                    z as int,
                    row as int,
                    j as nat,
                )[k] == (cols@[c0.len() + k] as int, shifts@[c0.len() + k] as int),
        decreases t.len() - j,
    {
        let e: &BaseGraphEntry = &table.entries[j];
        assert(entry_valid(table.graph(), t[j as int]));
        let ghost before = row_edges(t, ils as int, z as int, row as int, j as nat);
        let ghost c1 = cols@;
        let ghost s1 = shifts@;
        if e.row as usize == row {
            let raw: i16 = e.shifts[ils];
            let shift: usize = (raw as usize) % z;
            cols.push(e.col as usize);
            shifts.push(shift as i16);
            proof {
                let after = row_edges(t, ils as int, z as int, row as int, (j + 1) as nat);
                assert(after == before.push((e.col as int, raw as int % (z as int))));
                assert forall|k: int| 0 <= k < cols@.len() - c0.len() implies #[trigger] after[k]
                    == (cols@[c0.len() + k] as int, shifts@[c0.len() + k] as int) by {
                    if k < before.len() {
                        assert(after[k] == before[k]);
                        assert(cols@[c0.len() + k] == c1[c0.len() + k]);
                        assert(shifts@[c0.len() + k] == s1[c0.len() + k]);
                    }
                }
                assert(cols@.take(c0.len() as int) =~= c1.take(c0.len() as int));
                assert(shifts@.take(s0.len() as int) =~= s1.take(s0.len() as int));
            }
        }
        j = j + 1;
    }
}

impl QcLdpcParams {
    /// Lifts a base graph to size `z`.
    pub fn new(table: &BaseGraphTable, z: usize) -> (r: Result<QcLdpcParams, FecError>)
        requires
            table.wf(),
        ensures
            match r {
                Ok(p) => {
                    &&& is_lifting_size(z as int)
                    &&& p.wf()
                    &&& p.bg == table.graph()
                    &&& p.z == z
                    &&& p.max_layer_degree == p.max_degree(p.num_row_blocks as nat)
                    &&& forall|ils: int, row: int|
                        #![trigger in_lifting_set(ils, z as int), p.edges(row)]
                        in_lifting_set(ils, z as int) && 0 <= row < p.num_row_blocks ==> p.edges(
                            row,
                        ) == row_edges(
                            table.entries(),
                            ils,
                            z as int,
                            row,
                            table.entries().len(),
                        )
                },
                Err(e) => !is_lifting_size(z as int) && e == FecError::InvalidParam(
                    "z is not a valid 3GPP lifting size",
                ),
            },
    {
        let ils: usize = match ils_for_z(z) {
            Some(i) => i,
            None => {
                return Err(FecError::InvalidParam("z is not a valid 3GPP lifting size"));
            },
        };
        assert(2 <= z <= 384);
        let bg: BaseGraph = table.bg;
        let (rows, num_col_blocks): (usize, usize) = match bg {
            BaseGraph::Bg1 => (46, 68),
            BaseGraph::Bg2 => (42, 52),
        };
        let ghost t = table.entries();
        let mut offs: Vec<usize> = Vec::new();
        let mut cols: Vec<usize> = Vec::new();
        let mut shifts: Vec<i16> = Vec::new();
        let mut max_layer_degree: usize = 0;
        offs.push(0);
        let mut row: usize = 0;
        while row < rows
            invariant
                table.wf(),
                t == table.entries(),
                bg == table.graph(),
                rows == row_blocks(bg),
                num_col_blocks == col_blocks(bg),
                ils < 8,
                2 <= z <= 384,
                row <= rows,
                offs@.len() == row + 1,
                offs@[0] == 0,
                offs@[row as int] == cols@.len(),
                cols@.len() == shifts@.len(),
                forall|q: int|
                    0 <= q < row ==> #[trigger] offs@[q] <= offs@[q + 1] && offs@[q + 1]
                        <= cols@.len() && offs@[q + 1] - offs@[q] <= max_layer_degree,
                forall|k: int| 0 <= k < cols@.len() ==> #[trigger] cols@[k] < num_col_blocks,
                forall|k: int| 0 <= k < shifts@.len() ==> 0 <= #[trigger] shifts@[k] < z,
                forall|q: int|
                    0 <= q < row ==> #[trigger] raw_edges(offs@, cols@, shifts@, q) == row_edges(
                        t,
                        ils as int,
                        z as int,
                        q,
                        t.len(),
                    ),
                max_layer_degree == raw_max(offs@, row as nat),
            decreases rows - row,
        {
            let begin: usize = cols.len();
            let ghost o0 = offs@;
            let ghost c0 = cols@;
            let ghost s0 = shifts@;
            push_row(table, ils, z, row, &mut cols, &mut shifts);
            let end: usize = cols.len();
            proof {
                assert forall|k: int| 0 <= k < cols@.len() implies #[trigger] cols@[k]
                    < num_col_blocks by {
                    if k < c0.len() {
                        assert(cols@.take(c0.len() as int)[k] == cols@[k]);
                    }
                }
                assert forall|k: int| 0 <= k < shifts@.len() implies 0 <= #[trigger] shifts@[k]
                    < z by {
                    if k < s0.len() {
                        assert(shifts@.take(s0.len() as int)[k] == shifts@[k]);
                    }
                }
            }
            offs.push(end);
            if end - begin > max_layer_degree {
                max_layer_degree = end - begin;
            }
            proof {
                assert forall|q: int| 0 <= q < row + 1 implies #[trigger] raw_edges(
                    offs@,
                    cols@,
                    shifts@,
                    q,
                ) == row_edges(t, ils as int, z as int, q, t.len()) by {
                    let a = raw_edges(offs@, cols@, shifts@, q);
                    if q < row {
                        let b = raw_edges(o0, c0, s0, q);
                        assert(o0[q] <= o0[q + 1] && o0[q + 1] <= c0.len());
                        assert forall|j: int| 0 <= j < b.len() implies a[j] == b[j] by {
                            let k = o0[q] + j;
                            assert(cols@.take(c0.len() as int)[k] == cols@[k]);
                            assert(shifts@.take(s0.len() as int)[k] == shifts@[k]);
                        }
                        assert(a =~= b);
                    } else {
                        let b = row_edges(t, ils as int, z as int, q, t.len());
                        assert forall|j: int| 0 <= j < b.len() implies a[j] == b[j] by {
                            assert(b[j] == (
                                cols@[c0.len() + j] as int,
                                shifts@[c0.len() + j] as int,
                            ));
                        }
                        assert(a =~= b);
                    }
                }
                lemma_raw_max(o0, offs@, row as nat);
                assert forall|q: int| 0 <= q < row + 1 implies #[trigger] offs@[q] <= offs@[q + 1]
                    && offs@[q + 1] <= cols@.len() && offs@[q + 1] - offs@[q]
                    <= max_layer_degree by {
                    if q < row {
                        assert(o0[q] <= o0[q + 1]);
                    }
                }
            }
            row = row + 1;
        }
        let p: QcLdpcParams = QcLdpcParams {
            bg,
            z,
            num_row_blocks: rows,
            num_col_blocks,
            layer_offsets: offs,
            submatrix_cols: cols,
            submatrix_shifts: shifts,
            max_layer_degree,
        };
        proof {
            lemma_max_degree(p, rows as nat);
            assert forall|i: int, q: int|
                #![trigger in_lifting_set(i, z as int), p.edges(q)]
                in_lifting_set(i, z as int) && 0 <= q < p.num_row_blocks implies p.edges(q)
                == row_edges(t, i, z as int, q, t.len()) by {
                assert(p.edges(q) =~= raw_edges(offs@, cols@, shifts@, q));
            }
        }
        Ok(p)
    }
}

spec fn raw_max(offs: Seq<usize>, n: nat) -> nat
    decreases n,
{
    if n == 0 {
        0
    } else {
        let d = (offs[n as int] - offs[n - 1]) as nat;
        let before = raw_max(offs, (n - 1) as nat);
        if d > before {
            d
        } else {
            before
        }
    }
}

proof fn lemma_raw_max(a: Seq<usize>, b: Seq<usize>, n: nat)
    requires
        n < a.len() <= b.len(),
        forall|i: int| 0 <= i < a.len() ==> a[i] == b[i],
    ensures
        raw_max(a, n) == raw_max(b, n),
    decreases n,
{
    if n > 0 {
        lemma_raw_max(a, b, (n - 1) as nat);
    }
}

proof fn lemma_max_degree(p: QcLdpcParams, n: nat)
    ensures
        p.max_degree(n) == raw_max(p.layer_offsets@, n),
    decreases n,
{
    if n > 0 {
        lemma_max_degree(p, (n - 1) as nat);
    }
}

impl QcLdpcParams {
    /// Row block `r` has no edge into the column blocks `lo..hi`.
    pub open spec fn none(&self, r: int, lo: int, hi: int) -> bool {
        forall|e: int|
            self.layer_offsets@[r] <= e < self.layer_offsets@[r + 1] ==> !(lo
                <= #[trigger] self.submatrix_cols@[e] < hi)
    }

    /// Row block `r` has exactly one edge into column block `col`, with shift
    /// `s`.
    pub open spec fn only(&self, r: int, col: int, s: int) -> bool {
        exists|e: int|
            {
                &&& self.layer_offsets@[r] <= e < self.layer_offsets@[r + 1]
                &&& #[trigger] self.submatrix_cols@[e] == col
                &&& self.submatrix_shifts@[e] == s
                &&& self.sole(r, col, e)
            }
    }

    /// No edge of row block `r` but `e` goes into column block `col`.
    pub open spec fn sole(&self, r: int, col: int, e: int) -> bool {
        forall|f: int|
            self.layer_offsets@[r] <= f < self.layer_offsets@[r + 1] && f != e
                ==> #[trigger] self.submatrix_cols@[f] != col
    }

    /// The variable of an edge lies in its column block.
    pub proof fn lemma_variable(&self, e: int, i: int)
        requires
            self.wf(),
            0 <= e < self.submatrix_cols@.len(),
            0 <= i < self.z,
        ensures
            self.submatrix_cols@[e] * self.z <= self.variable(e, i) < (self.submatrix_cols@[e] + 1)
                * self.z,
            self.variable(e, i) < self.num_col_blocks * self.z,
    {
        let c = self.submatrix_cols@[e] as int;
        let z = self.z as int;
        assert(0 <= self.submatrix_shifts@[e] < self.z);
        assert((c + 1) * z == c * z + z) by (nonlinear_arith);
        assert((c + 1) * z <= self.num_col_blocks * z) by (nonlinear_arith)
            requires
                c + 1 <= self.num_col_blocks,
                z >= 0,
        ;
    }

    proof fn lemma_part_split(
        &self,
        w: Seq<u8>,
        i: int,
        lo: int,
        mid: int,
        hi: int,
        begin: int,
        end: int,
    )
        requires
            lo <= mid <= hi,
        ensures
            self.part(w, i, lo, hi, begin, end) == self.part(w, i, lo, mid, begin, end) ^ self.part(
                w,
                i,
                mid,
                hi,
                begin,
                end,
            ),
        decreases end - begin,
    {
        if end <= begin {
            lemma_xor(0, 0, 0, 0);
        } else {
            self.lemma_part_split(w, i, lo, mid, hi, begin, end - 1);
            let a = self.part(w, i, lo, mid, begin, end - 1);
            let b = self.part(w, i, mid, hi, begin, end - 1);
            let x = w[self.variable(end - 1, i)];
            lemma_xor(a, b, x, 0);
            lemma_xor(a, x, b, 0);
            lemma_xor(b, x, 0, 0);
        }
    }

    proof fn lemma_part_frame(
        &self,
        v: Seq<u8>,
        w: Seq<u8>,
        i: int,
        lo: int,
        hi: int,
        begin: int,
        end: int,
    )
        requires
            self.wf(),
            0 <= i < self.z,
            0 <= begin,
            end <= self.submatrix_cols@.len(),
            forall|q: int| lo * self.z <= q < hi * self.z ==> v[q] == w[q],
        ensures
            self.part(v, i, lo, hi, begin, end) == self.part(w, i, lo, hi, begin, end),
        decreases end - begin,
    {
        if begin < end {
            self.lemma_part_frame(v, w, i, lo, hi, begin, end - 1);
            let c = self.submatrix_cols@[end - 1] as int;
            if lo <= c < hi {
                self.lemma_variable(end - 1, i);
                let z = self.z as int;
                assert(lo * z <= c * z && (c + 1) * z <= hi * z) by (nonlinear_arith)
                    requires
                        lo <= c < hi,
                        z >= 0,
                ;
            }
        }
    }

    proof fn lemma_part_none(
        &self,
        w: Seq<u8>,
        i: int,
        lo: int,
        hi: int,
        begin: int,
        end: int,
    )
        requires
            forall|e: int|
                begin <= e < end ==> !(lo <= #[trigger] self.submatrix_cols@[e] < hi),
        ensures
            self.part(w, i, lo, hi, begin, end) == 0,
        decreases end - begin,
    {
        if begin < end {
            self.lemma_part_none(w, i, lo, hi, begin, end - 1);
        }
    }

    proof fn lemma_part_only(
        &self,
        w: Seq<u8>,
        i: int,
        col: int,
        e: int,
        begin: int,
        end: int,
    )
        requires
            begin <= e < end,
            self.submatrix_cols@[e] == col,
            forall|f: int|
                begin <= f < end && f != e ==> #[trigger] self.submatrix_cols@[f] != col,
        ensures
            self.part(w, i, col, col + 1, begin, end) == w[self.variable(e, i)],
        decreases end - begin,
    {
        let x = w[self.variable(e, i)];
        lemma_xor(x, 0, 0, 0);
        if e == end - 1 {
            self.lemma_part_none(w, i, col, col + 1, begin, end - 1);
        } else {
            self.lemma_part_only(w, i, col, e, begin, end - 1);
        }
    }

    /// A row without edges into `lo..hi` sums to zero there.
    pub proof fn lemma_none(&self, w: Seq<u8>, r: int, i: int, lo: int, hi: int)
        requires
            self.none(r, lo, hi),
        ensures
            self.row_part(w, r, i, lo, hi) == 0,
    {
        self.lemma_part_none(
            w,
            i,
            lo,
            hi,
            self.layer_offsets@[r] as int,
            self.layer_offsets@[r + 1] as int,
        );
    }

    /// A row with one edge into a column block sums to that edge's bit there.
    pub proof fn lemma_only(&self, w: Seq<u8>, r: int, i: int, col: int, s: int)
        requires
            self.only(r, col, s),
        ensures
            self.row_part(w, r, i, col, col + 1) == w[col * self.z + rot(i, s, self.z as int)],
    {
        let e = choose|e: int|
            {
                &&& self.layer_offsets@[r] <= e < self.layer_offsets@[r + 1]
                &&& #[trigger] self.submatrix_cols@[e] == col
                &&& self.submatrix_shifts@[e] == s
                &&& self.sole(r, col, e)
            };
        self.lemma_part_only(
            w,
            i,
            col,
            e,
            self.layer_offsets@[r] as int,
            self.layer_offsets@[r + 1] as int,
        );
    }

    /// Two words that agree on the columns in `lo..hi` have the same sums
    /// there.
    pub proof fn lemma_frame(&self, v: Seq<u8>, w: Seq<u8>, r: int, i: int, lo: int, hi: int)
        requires
            self.wf(),
            0 <= r < self.num_row_blocks,
            0 <= i < self.z,
            forall|q: int| lo * self.z <= q < hi * self.z ==> v[q] == w[q],
        ensures
            self.row_part(v, r, i, lo, hi) == self.row_part(w, r, i, lo, hi),
    {
        assert(self.layer_offsets@[r] <= self.layer_offsets@[r + 1]);
        self.lemma_part_frame(
            v,
            w,
            i,
            lo,
            hi,
            self.layer_offsets@[r] as int,
            self.layer_offsets@[r + 1] as int,
        );
    }

    /// A row's sum splits at any column.
    pub proof fn lemma_split(&self, w: Seq<u8>, r: int, i: int, lo: int, mid: int, hi: int)
        requires
            lo <= mid <= hi,
        ensures
            self.row_part(w, r, i, lo, hi) == self.row_part(w, r, i, lo, mid) ^ self.row_part(
                w,
                r,
                i,
                mid,
                hi,
            ),
    {
        self.lemma_part_split(
            w,
            i,
            lo,
            mid,
            hi,
            self.layer_offsets@[r] as int,
            self.layer_offsets@[r + 1] as int,
        );
    }

    /// Whether row block `row` has no edge into the column blocks `lo..hi`.
    pub fn range_empty(&self, row: usize, lo: usize, hi: usize) -> (b: bool)
        requires
            self.wf(),
            row < self.num_row_blocks,
        ensures
            b == self.none(row as int, lo as int, hi as int),
    {
        assert(self.layer_offsets@[row as int] <= self.layer_offsets@[row + 1]);
        let end: usize = self.layer_offsets[row + 1];
        let begin: usize = self.layer_offsets[row];
        let mut e: usize = begin;
        while e < end
            invariant
                end <= self.submatrix_cols@.len(),
                begin <= e,
                begin == self.layer_offsets@[row as int],
                end == self.layer_offsets@[row + 1],
                forall|f: int|
                    begin <= f < e ==> !(lo <= #[trigger] self.submatrix_cols@[f] < hi),
            decreases end - e,
        {
            let c: usize = self.submatrix_cols[e];
            if lo <= c && c < hi {
                assert(lo <= self.submatrix_cols@[e as int] < hi);
                return false;
            }
            e = e + 1;
        }
        true
    }

    /// The shift of the one edge of row block `row` into column block `col`,
    /// if there is exactly one.
    pub fn only_edge(&self, row: usize, col: usize) -> (r: Option<usize>)
        requires
            self.wf(),
            row < self.num_row_blocks,
        ensures
            match r {
                Some(s) => s < self.z && self.only(row as int, col as int, s as int),
                None => forall|s: int| !#[trigger] self.only(row as int, col as int, s),
            },
            r is Some ==> forall|s: int|
                #[trigger] self.only(row as int, col as int, s) ==> s == r.unwrap(),
    {
        assert(self.layer_offsets@[row as int] <= self.layer_offsets@[row + 1]);
        let end: usize = self.layer_offsets[row + 1];
        let begin: usize = self.layer_offsets[row];
        let mut e: usize = begin;
        let mut found: Option<usize> = None;
        while e < end
            invariant
                self.wf(),
                end <= self.submatrix_cols@.len(),
                row < self.num_row_blocks,
                begin <= e <= end,
                begin == self.layer_offsets@[row as int],
                end == self.layer_offsets@[row + 1],
                match found {
                    Some(g) => begin <= g < e && self.submatrix_cols@[g as int] == col && forall|
                        f: int,
                    |
                        begin <= f < e && f != g ==> #[trigger] self.submatrix_cols@[f] != col,
                    None => forall|f: int|
                        begin <= f < e ==> #[trigger] self.submatrix_cols@[f] != col,
                },
            decreases end - e,
        {
            if self.submatrix_cols[e] == col {
                if found.is_some() {
                    proof {
                        let a = found.unwrap() as int;
                        let b = e as int;
                        assert forall|s: int| !#[trigger] self.only(
                            row as int,
                            col as int,
                            s,
                        ) by {
                            if self.only(row as int, col as int, s) {
                                let h = choose|h: int|
                                    {
                                        &&& self.layer_offsets@[row as int] <= h
                                            < self.layer_offsets@[row + 1]
                                        &&& #[trigger] self.submatrix_cols@[h] == col
                                        &&& self.submatrix_shifts@[h] == s
                                        &&& self.sole(row as int, col as int, h)
                                    };
                                assert(self.submatrix_cols@[a] == col);
                                assert(self.submatrix_cols@[b] == col);
                                assert(h == a || h == b);
                            }
                        }
                    }
                    return None;
                }
                found = Some(e);
                assert(forall|f: int|
                    begin <= f < e ==> #[trigger] self.submatrix_cols@[f] != col);
            }
            e = e + 1;
        }
        match found {
            Some(g) => {
                assert(0 <= self.submatrix_shifts@[g as int] < self.z);
                let s: usize = self.submatrix_shifts[g] as usize;
                assert(self.sole(row as int, col as int, g as int));
                assert(self.submatrix_cols@[g as int] == col);
                Some(s)
            },
            None => None,
        }
    }
}

impl QcLdpcParams {
    /// Number of variable nodes, the length of a codeword.
    pub fn variable_node_count(&self) -> (n: usize)
        requires
            self.wf(),
        ensures
            n == self.num_col_blocks * self.z,
    {
        proof {
            self.lemma_bounds();
        }
        self.num_col_blocks * self.z
    }

    /// Number of check nodes.
    pub fn check_node_count(&self) -> (n: usize)
        requires
            self.wf(),
        ensures
            n == self.num_row_blocks * self.z,
    {
        proof {
            self.lemma_bounds();
        }
        self.num_row_blocks * self.z
    }

    /// Number of systematic column blocks times the lifting size.
    pub fn info_bit_count_5g(&self) -> (n: usize)
        requires
            self.wf(),
        ensures
            n == (self.num_col_blocks - self.num_row_blocks) * self.z,
    {
        proof {
            self.lemma_bounds();
        }
        (self.num_col_blocks - self.num_row_blocks) * self.z
    }

    /// The sizes of a lifted base graph.
    pub proof fn lemma_bounds(&self)
        requires
            self.wf(),
        ensures
            0 < self.num_col_blocks * self.z <= 26112,
            0 < self.num_row_blocks * self.z <= 17664,
            0 < (self.num_col_blocks - self.num_row_blocks) * self.z <= 8448,
            (self.num_col_blocks - self.num_row_blocks) * self.z + self.num_row_blocks * self.z
                == self.num_col_blocks * self.z,
    {
        let z = self.z as int;
        let r = self.num_row_blocks as int;
        let c = self.num_col_blocks as int;
        assert(0 < (c - r) * z <= 22 * 384) by (nonlinear_arith)
            requires
                0 < c - r <= 22,
                0 < z <= 384,
        ;
        assert(0 < r * z <= 46 * 384) by (nonlinear_arith)
            requires
                0 < r <= 46,
                0 < z <= 384,
        ;
        assert((c - r) * z + r * z == c * z) by (nonlinear_arith);
    }

    /// Whether the low bits of the word satisfy every parity check.
    pub fn check_syndrome(&self, hard: &[u8]) -> (b: bool)
        requires
            self.wf(),
            hard@.len() == self.num_col_blocks * self.z,
        ensures
            b == self.satisfied(low_bits(hard@)),
    {
        let z: usize = self.z;
        let ghost w = low_bits(hard@);
        let ghost nb = self.num_col_blocks as int;
        proof {
            self.lemma_bounds();
        }
        let mut layer: usize = 0;
        while layer < self.num_row_blocks
            invariant
                self.wf(),
                z == self.z,
                w == low_bits(hard@),
                nb == self.num_col_blocks,
                hard@.len() == self.num_col_blocks * z,
                hard@.len() <= 26112,
                layer <= self.num_row_blocks,
                forall|r: int, i: int|
                    0 <= r < layer && 0 <= i < z ==> #[trigger] self.check(w, r, i) == 0,
            decreases self.num_row_blocks - layer,
        {
            assert(self.layer_offsets@[layer as int] <= self.layer_offsets@[layer + 1]);
            let begin: usize = self.layer_offsets[layer];
            let end: usize = self.layer_offsets[layer + 1];
            let mut i: usize = 0;
            while i < z
                invariant
                    self.wf(),
                    z == self.z,
                    w == low_bits(hard@),
                    nb == self.num_col_blocks,
                    hard@.len() == self.num_col_blocks * z,
                    hard@.len() <= 26112,
                    layer < self.num_row_blocks,
                    begin == self.layer_offsets@[layer as int],
                    end == self.layer_offsets@[layer + 1],
                    begin <= end <= self.submatrix_cols@.len(),
                    i <= z,
                    forall|r: int, j: int|
                        0 <= r < layer && 0 <= j < z ==> #[trigger] self.check(w, r, j) == 0,
                    forall|j: int| 0 <= j < i ==> #[trigger] self.check(w, layer as int, j) == 0,
                decreases z - i,
            {
                let mut parity: u8 = 0;
                let mut e: usize = begin;
                while e < end
                    invariant
                        self.wf(),
                        z == self.z,
                        w == low_bits(hard@),
                        nb == self.num_col_blocks,
                        hard@.len() == self.num_col_blocks * z,
                        hard@.len() <= 26112,
                        i < z,
                        begin <= e <= end,
                        end <= self.submatrix_cols@.len(),
                        parity == self.part(w, i as int, 0, nb, begin as int, e as int),
                    decreases end - e,
                {
                    let v: usize = self.variable_index(e, i);
                    assert(self.submatrix_cols@[e as int] < self.num_col_blocks);
                    parity = parity ^ (hard[v] & 1);
                    e = e + 1;
                }
                if parity != 0 {
                    assert(self.check(w, layer as int, i as int) != 0);
                    return false;
                }
                i = i + 1;
            }
            layer = layer + 1;
        }
        true
    }

    /// The variable that edge `e` brings to check `i` of its row.
    pub fn variable_index(&self, e: usize, i: usize) -> (v: usize)
        requires
            self.wf(),
            e < self.submatrix_cols@.len(),
            i < self.z,
        ensures
            v == self.variable(e as int, i as int),
            v < self.num_col_blocks * self.z,
    {
        proof {
            self.lemma_bounds();
            self.lemma_variable(e as int, i as int);
        }
        let z: usize = self.z;
        assert(0 <= self.submatrix_shifts@[e as int] < self.z);
        let shift: usize = self.submatrix_shifts[e] as usize;
        let at: usize = if i + shift < z {
            i + shift
        } else {
            i + shift - z
        };
        let col: usize = self.submatrix_cols[e];
        assert(col * z <= self.num_col_blocks * z) by (nonlinear_arith)
            requires
                col <= self.num_col_blocks,
                z >= 0,
        ;
        assert(0 <= col * z) by (nonlinear_arith);
        col * z + at
    }

    /// Sums are additive in the word.
    proof fn lemma_part_xor(
        &self,
        v: Seq<u8>,
        w: Seq<u8>,
        i: int,
        lo: int,
        hi: int,
        begin: int,
        end: int,
    )
        requires
            self.wf(),
            v.len() == w.len(),
            w.len() == self.num_col_blocks * self.z,
            0 <= i < self.z,
            0 <= begin,
            end <= self.submatrix_cols@.len(),
        ensures
            self.part(Seq::new(w.len(), |t: int| v[t] ^ w[t]), i, lo, hi, begin, end) == self.part(
                v,
                i,
                lo,
                hi,
                begin,
                end,
            ) ^ self.part(w, i, lo, hi, begin, end),
        decreases end - begin,
    {
        if end <= begin {
            lemma_xor(0, 0, 0, 0);
        } else {
            self.lemma_part_xor(v, w, i, lo, hi, begin, end - 1);
            self.lemma_variable(end - 1, i);
            assert(0 <= self.submatrix_cols@[end - 1] * self.z) by (nonlinear_arith)
                requires
                    self.submatrix_cols@[end - 1] >= 0,
                    self.z >= 0,
            ;
            let t = self.variable(end - 1, i);
            lemma_xor(
                self.part(v, i, lo, hi, begin, end - 1),
                self.part(w, i, lo, hi, begin, end - 1),
                v[t],
                w[t],
            );
        }
    }

    /// The sum of the low bits is the low bit of the sum.
    proof fn lemma_part_low(
        &self,
        w: Seq<u8>,
        i: int,
        lo: int,
        hi: int,
        begin: int,
        end: int,
    )
        requires
            self.wf(),
            w.len() == self.num_col_blocks * self.z,
            0 <= i < self.z,
            0 <= begin,
            end <= self.submatrix_cols@.len(),
        ensures
            self.part(low_bits(w), i, lo, hi, begin, end) == self.part(w, i, lo, hi, begin, end)
                & 1,
        decreases end - begin,
    {
        if end <= begin {
            lemma_low_bit(0);
        } else {
            self.lemma_part_low(w, i, lo, hi, begin, end - 1);
            self.lemma_variable(end - 1, i);
            assert(0 <= self.submatrix_cols@[end - 1] * self.z) by (nonlinear_arith)
                requires
                    self.submatrix_cols@[end - 1] >= 0,
                    self.z >= 0,
            ;
            lemma_low_xor(
                self.part(w, i, lo, hi, begin, end - 1),
                w[self.variable(end - 1, i)],
            );
        }
    }

    /// If a word satisfies every check, so do its low bits.
    pub proof fn lemma_satisfied_low(&self, w: Seq<u8>)
        requires
            self.wf(),
            w.len() == self.num_col_blocks * self.z,
            self.satisfied(w),
        ensures
            self.satisfied(low_bits(w)),
    {
        assert forall|r: int, i: int|
            0 <= r < self.num_row_blocks && 0 <= i < self.z implies #[trigger] self.check(
            low_bits(w),
            r,
            i,
        ) == 0 by {
            assert(self.layer_offsets@[r] <= self.layer_offsets@[r + 1]);
            self.lemma_part_low(
                w,
                i,
                0,
                self.num_col_blocks as int,
                self.layer_offsets@[r] as int,
                self.layer_offsets@[r + 1] as int,
            );
            assert(self.check(w, r, i) == 0);
            lemma_low_bit(0);
        }
    }

    /// The sum of two words that satisfy every check satisfies every check.
    pub proof fn lemma_satisfied_sum(&self, v: Seq<u8>, w: Seq<u8>)
        requires
            self.wf(),
            v.len() == self.num_col_blocks * self.z,
            w.len() == self.num_col_blocks * self.z,
            self.satisfied(v),
            self.satisfied(w),
        ensures
            self.satisfied(Seq::new(w.len(), |t: int| v[t] ^ w[t])),
    {
        let d = Seq::new(w.len(), |t: int| v[t] ^ w[t]);
        assert forall|r: int, i: int|
            0 <= r < self.num_row_blocks && 0 <= i < self.z implies #[trigger] self.check(d, r, i)
            == 0 by {
            assert(self.layer_offsets@[r] <= self.layer_offsets@[r + 1]);
            self.lemma_part_xor(
                v,
                w,
                i,
                0,
                self.num_col_blocks as int,
                self.layer_offsets@[r] as int,
                self.layer_offsets@[r + 1] as int,
            );
            assert(self.check(v, r, i) == 0);
            assert(self.check(w, r, i) == 0);
            lemma_xor(0, 0, 0, 0);
        }
    }

    /// The all-zero word satisfies every check.
    pub proof fn lemma_satisfied_zero(&self, w: Seq<u8>)
        requires
            self.wf(),
            w.len() == self.num_col_blocks * self.z,
            forall|t: int| 0 <= t < w.len() ==> w[t] == 0,
        ensures
            self.satisfied(w),
    {
        assert forall|r: int, i: int|
            0 <= r < self.num_row_blocks && 0 <= i < self.z implies #[trigger] self.check(w, r, i)
            == 0 by {
            assert(self.layer_offsets@[r] <= self.layer_offsets@[r + 1]);
            self.lemma_part_zero(
                w,
                i,
                self.layer_offsets@[r] as int,
                self.layer_offsets@[r + 1] as int,
            );
        }
    }

    proof fn lemma_part_zero(&self, w: Seq<u8>, i: int, begin: int, end: int)
        requires
            self.wf(),
            w.len() == self.num_col_blocks * self.z,
            forall|t: int| 0 <= t < w.len() ==> w[t] == 0,
            0 <= i < self.z,
            0 <= begin,
            end <= self.submatrix_cols@.len(),
        ensures
            self.part(w, i, 0, self.num_col_blocks as int, begin, end) == 0,
        decreases end - begin,
    {
        if begin < end {
            self.lemma_part_zero(w, i, begin, end - 1);
            self.lemma_variable(end - 1, i);
            assert(0 <= self.submatrix_cols@[end - 1] * self.z) by (nonlinear_arith)
                requires
                    self.submatrix_cols@[end - 1] >= 0,
                    self.z >= 0,
            ;
            lemma_xor(0, 0, 0, 0);
        }
    }
}

proof fn lemma_low_xor(a: u8, b: u8)
    by (bit_vector)
    ensures
        (a & 1) ^ (b & 1) == (a ^ b) & 1,
{
}

/// The number of leading information bits that two words share determines
/// the words, when the parity is not ambiguous: words of bits that satisfy
/// every check and agree on the information are equal.
pub proof fn lemma_encoding_unique(p: QcLdpcParams, v: Seq<u8>, w: Seq<u8>)
    requires
        p.wf(),
        !parity_ambiguous(p),
        v.len() == p.num_col_blocks * p.z,
        w.len() == p.num_col_blocks * p.z,
        is_bits(v),
        is_bits(w),
        p.satisfied(v),
        p.satisfied(w),
        forall|t: int| 0 <= t < (p.num_col_blocks - p.num_row_blocks) * p.z ==> v[t] == w[t],
    ensures
        v == w,
{
    let d = Seq::new(w.len(), |t: int| v[t] ^ w[t]);
    p.lemma_satisfied_sum(v, w);
    assert forall|t: int| 0 <= t < d.len() implies #[trigger] d[t] <= 1 by {
        assert(v[t] <= 1 && w[t] <= 1);
        crate::bits::lemma_xor_bits(v[t], w[t]);
    }
    assert forall|t: int|
        0 <= t < (p.num_col_blocks - p.num_row_blocks) * p.z implies d[t] == 0 by {
        p.lemma_bounds();
        lemma_xor(v[t], w[t], 0, 0);
    }
    if v != w {
        assert(exists|t: int| 0 <= t < w.len() && v[t] != w[t]) by {
            if forall|t: int| 0 <= t < w.len() ==> v[t] == w[t] {
                assert(v =~= w);
            }
        }
        let t = choose|t: int| 0 <= t < w.len() && v[t] != w[t];
        lemma_xor(v[t], w[t], 0, 0);
        assert(d[t] != 0);
        assert(ambiguous_word(p, d));
    }
}

/// In the double-diagonal shape the parity is not ambiguous.
pub proof fn lemma_layout_unambiguous(p: QcLdpcParams, l: CoreLayout)
    requires
        p.wf(),
        layout_matches(p, l),
        layout_in_range(p, l),
    ensures
        !parity_ambiguous(p),
{
    if parity_ambiguous(p) {
        let w = choose|w: Seq<u8>| #[trigger] ambiguous_word(p, w);
        let zero = Seq::new(w.len(), |t: int| 0u8);
        p.lemma_satisfied_zero(zero);
        p.lemma_bounds();
        lemma_sparse_unique(p, l, zero, w);
    }
}

/// How an encoder finds the parity bits.
enum EncodeStrategy {
    Sparse(CoreLayout),
    Dense(ParityGenerator),
}

/// A systematic encoder for one base graph and lifting size.
pub struct QcLdpcEncoder {
    params: QcLdpcParams,
    strategy: EncodeStrategy,
    k_bits: usize,
}

/// `w` is an encoding of `info`: it starts with the information and its low
/// bits satisfy every check.
pub open spec fn is_encoding(p: QcLdpcParams, info: Seq<u8>, w: Seq<u8>) -> bool {
    &&& w.len() == p.num_col_blocks * p.z
    &&& w.take(info.len() as int) == info
    &&& p.satisfied(low_bits(w))
}

impl QcLdpcEncoder {
    /// The lifted base graph.
    pub closed spec fn params(&self) -> QcLdpcParams {
        self.params
    }

    /// Whether the structured solve is in use.
    pub closed spec fn sparse(&self) -> bool {
        self.strategy is Sparse
    }

    /// The encoder's strategy fits its base graph.
    pub closed spec fn wf(&self) -> bool {
        &&& self.params.wf()
        &&& self.k_bits == (self.params.num_col_blocks - self.params.num_row_blocks)
            * self.params.z
        &&& match self.strategy {
            EncodeStrategy::Sparse(l) => layout_matches(self.params, l) && layout_in_range(
                self.params,
                l,
            ),
            EncodeStrategy::Dense(g) => g.wf(self.params) && !parity_ambiguous(self.params)
                && forall|l: CoreLayout| !#[trigger] layout_matches(self.params, l),
        }
    }

    /// What every well-formed encoder satisfies.
    pub proof fn lemma_wf(&self)
        requires
            self.wf(),
        ensures
            self.params().wf(),
            !parity_ambiguous(self.params()),
            self.sparse() <==> exists|l: CoreLayout| #[trigger] layout_matches(self.params(), l),
    {
        match self.strategy {
            EncodeStrategy::Sparse(l) => {
                lemma_layout_unambiguous(self.params, l);
                assert(layout_matches(self.params(), l));
            },
            EncodeStrategy::Dense(g) => {},
        }
    }

    /// Creates an encoder: by the structured solve when the base graph has
    /// the double-diagonal shape, otherwise by elimination, which fails when
    /// the parity is ambiguous.
    pub fn new(table: &BaseGraphTable, z: usize) -> (r: Result<QcLdpcEncoder, FecError>)
        requires
            table.wf(),
        ensures
            !is_lifting_size(z as int) ==> r == Err::<QcLdpcEncoder, _>(
                FecError::InvalidParam("z is not a valid 3GPP lifting size"),
            ),
            match r {
                Ok(enc) => {
                    &&& is_lifting_size(z as int)
                    &&& enc.wf()
                    &&& lifted(*table, z, enc.params())
                },
                Err(e) => is_lifting_size(z as int) ==> {
                    &&& e == FecError::InvalidParam("parity matrix is singular — cannot encode")
                    &&& exists|p: QcLdpcParams| #[trigger]
                        lifted(*table, z, p) && parity_ambiguous(p)
                },
            },
    {
        let params: QcLdpcParams = match QcLdpcParams::new(table, z) {
            Ok(p) => p,
            Err(e) => {
                return Err(e);
            },
        };
        assert(lifted(*table, z, params));
        let k_bits: usize = params.info_bit_count_5g();
        let strategy: EncodeStrategy = match CoreLayout::derive(&params) {
            Some(l) => EncodeStrategy::Sparse(l),
            None => match ParityGenerator::build(&params) {
                Ok(g) => EncodeStrategy::Dense(g),
                Err(e) => {
                    return Err(e);
                },
            },
        };
        Ok(QcLdpcEncoder { params, strategy, k_bits })
    }

    /// Whether the structured solve is in use.
    pub fn is_sparse(&self) -> (b: bool)
        ensures
            b == self.sparse(),
    {
        match &self.strategy {
            EncodeStrategy::Sparse(_) => true,
            EncodeStrategy::Dense(_) => false,
        }
    }

    /// Number of information bits.
    pub fn info_bit_count(&self) -> (n: usize)
        requires
            self.wf(),
        ensures
            n == info_blocks(self.params().bg) * self.params().z,
    {
        self.k_bits
    }

    /// Length of a codeword.
    pub fn codeword_bit_count(&self) -> (n: usize)
        requires
            self.wf(),
        ensures
            n == col_blocks(self.params().bg) * self.params().z,
    {
        self.params.variable_node_count()
    }

    /// Base graph of the encoder.
    pub fn base_graph(&self) -> (bg: BaseGraph)
        ensures
            bg == self.params().bg,
    {
        self.params.bg
    }

    /// Lifting size of the encoder.
    pub fn lifting_size(&self) -> (z: usize)
        ensures
            z == self.params().z,
    {
        self.params.z
    }

    /// The lifted base graph of the encoder.
    pub fn parameters(&self) -> (p: &QcLdpcParams)
        requires
            self.wf(),
        ensures
            *p == self.params(),
            p.wf(),
    {
        &self.params
    }

    /// Encodes `info_bits` followed by `n_filler` zero bits.
    pub fn encode_5g(&self, info_bits: &[u8], n_filler: usize, codeword: &mut [u8]) -> (r: Result<
        (),
        FecError,
    >)
        requires
            self.wf(),
        ensures
            final(codeword)@.len() == old(codeword)@.len(),
            ({
                let k = info_blocks(self.params().bg) * self.params().z;
                let n = col_blocks(self.params().bg) * self.params().z;
                let full = info_bits@ + Seq::new(n_filler as nat, |i: int| 0u8);
                &&& n_filler > k ==> r == Err::<(), _>(
                    FecError::InvalidParam("n_filler exceeds k_bits"),
                )
                &&& n_filler <= k && info_bits@.len() != k - n_filler ==> r == Err::<(), _>(
                    FecError::BufferTooSmall {
                        required: (k - n_filler) as usize,
                        provided: info_bits@.len() as usize,
                    },
                )
                &&& n_filler <= k && info_bits@.len() == k - n_filler && old(codeword)@.len() != n
                    ==> r == Err::<(), _>(
                    FecError::BufferTooSmall {
                        required: n as usize,
                        provided: old(codeword)@.len() as usize,
                    },
                )
                &&& n_filler <= k && info_bits@.len() == k - n_filler && old(codeword)@.len() == n
                    ==> r is Ok
                &&& r is Err ==> final(codeword)@ == old(codeword)@
                &&& r is Ok ==> encoded(*self, full, final(codeword)@)
            }),
    {
        let k: usize = self.k_bits;
        if n_filler > k {
            return Err(FecError::InvalidParam("n_filler exceeds k_bits"));
        }
        let k_prime: usize = k - n_filler;
        if info_bits.len() != k_prime {
            return Err(
                FecError::BufferTooSmall { required: k_prime, provided: info_bits.len() },
            );
        }
        let mut full: Vec<u8> = Vec::new();
        let mut i: usize = 0;
        while i < k_prime
            invariant
                i <= k_prime,
                k_prime == info_bits@.len(),
                full@ == info_bits@.take(i as int),
            decreases k_prime - i,
        {
            full.push(info_bits[i]);
            i = i + 1;
            assert(info_bits@.take(i as int) =~= info_bits@.take(i as int - 1).push(
                info_bits@[i as int - 1],
            ));
        }
        assert(info_bits@.take(i as int) =~= info_bits@);
        let mut j: usize = 0;
        assert(full@ =~= info_bits@ + Seq::new(0, |q: int| 0u8));
        while j < n_filler
            invariant
                j <= n_filler,
                full@ == info_bits@ + Seq::new(j as nat, |q: int| 0u8),
            decreases n_filler - j,
        {
            full.push(0);
            j = j + 1;
            assert(full@ =~= info_bits@ + Seq::new(j as nat, |q: int| 0u8));
        }
        self.encode(full.as_slice(), codeword)
    }

    /// Encodes the information into a codeword that starts with it.
    pub fn encode(&self, info_bits: &[u8], codeword: &mut [u8]) -> (r: Result<(), FecError>)
        requires
            self.wf(),
        ensures
            final(codeword)@.len() == old(codeword)@.len(),
            ({
                let k = info_blocks(self.params().bg) * self.params().z;
                let n = col_blocks(self.params().bg) * self.params().z;
                &&& info_bits@.len() != k ==> r == Err::<(), _>(
                    FecError::BufferTooSmall {
                        required: k as usize,
                        provided: info_bits@.len() as usize,
                    },
                )
                &&& info_bits@.len() == k && old(codeword)@.len() != n ==> r == Err::<(), _>(
                    FecError::BufferTooSmall {
                        required: n as usize,
                        provided: old(codeword)@.len() as usize,
                    },
                )
                &&& info_bits@.len() == k && old(codeword)@.len() == n ==> r is Ok
                &&& r is Err ==> final(codeword)@ == old(codeword)@
                &&& r is Ok ==> encoded(*self, info_bits@, final(codeword)@)
            }),
    {
        let k: usize = self.k_bits;
        let n: usize = self.codeword_bit_count();
        if info_bits.len() != k {
            return Err(FecError::BufferTooSmall { required: k, provided: info_bits.len() });
        }
        if codeword.len() != n {
            return Err(FecError::BufferTooSmall { required: n, provided: codeword.len() });
        }
        match &self.strategy {
            EncodeStrategy::Sparse(l) => {
                let w: Vec<u8> = encode_sparse(&self.params, l, info_bits);
                copy_into(&w, 0, codeword);
                proof {
                    assert(w@.skip(0) =~= w@);
                    self.params.lemma_satisfied_low(w@);
                    if is_bits(info_bits@) {
                        lemma_low_bits(w@);
                        self.params.lemma_bounds();
                        let v = low_bits(w@);
                        assert forall|t: int|
                            0 <= t < (self.params.num_col_blocks - self.params.num_row_blocks)
                                * self.params.z implies v[t] == w@[t] by {
                            assert(w@.take(k as int)[t] == info_bits@[t]);
                            assert(info_bits@[t] <= 1);
                            lemma_low_bit(w@[t]);
                        }
                        lemma_sparse_unique(self.params, *l, v, w@);
                    }
                }
            },
            EncodeStrategy::Dense(g) => {
                self.write_dense(g, info_bits, codeword);
            },
        }
        Ok(())
    }

    fn write_dense(&self, g: &ParityGenerator, info_bits: &[u8], codeword: &mut [u8])
        requires
            g.wf(self.params),
            self.params.wf(),
            info_bits@.len() == (self.params.num_col_blocks - self.params.num_row_blocks)
                * self.params.z,
            old(codeword)@.len() == self.params.num_col_blocks * self.params.z,
        ensures
            is_encoding(self.params, info_bits@, final(codeword)@),
            is_bits(final(codeword)@.skip(info_bits@.len() as int)),
            is_bits(info_bits@) ==> is_bits(final(codeword)@),
    {
        proof {
            self.params.lemma_bounds();
        }
        let k: usize = info_bits.len();
        let parity: Vec<u8> = g.apply(Ghost(self.params), info_bits);
        let ghost target = info_bits@ + parity@;
        let total: usize = codeword.len();
        let mut i: usize = 0;
        while i < total
            invariant
                i <= total,
                total == codeword@.len(),
                k == info_bits@.len(),
                total == k + parity@.len(),
                target == info_bits@ + parity@,
                forall|j: int| 0 <= j < i ==> #[trigger] codeword@[j] == target[j],
            decreases total - i,
        {
            codeword[i] = if i < k {
                info_bits[i]
            } else {
                parity[i - k]
            };
            i = i + 1;
        }
        proof {
            assert(codeword@ =~= target);
            assert(target.take(k as int) =~= info_bits@);
            assert(target.skip(k as int) =~= parity@);
            if is_bits(info_bits@) {
                assert forall|j: int| 0 <= j < target.len() implies #[trigger] target[j] <= 1 by {
                    if j < k {
                        assert(info_bits@[j] <= 1);
                    } else {
                        assert(parity@[j - k] <= 1);
                    }
                }
            }
        }
    }

    /// Encodes by elimination, whatever the encoder's own strategy.
    pub fn encode_dense_reference(&self, info_bits: &[u8], codeword: &mut [u8]) -> (r: Result<
        (),
        FecError,
    >)
        requires
            self.wf(),
        ensures
            final(codeword)@.len() == old(codeword)@.len(),
            ({
                let k = info_blocks(self.params().bg) * self.params().z;
                let n = col_blocks(self.params().bg) * self.params().z;
                &&& info_bits@.len() != k ==> r == Err::<(), _>(
                    FecError::BufferTooSmall {
                        required: k as usize,
                        provided: info_bits@.len() as usize,
                    },
                )
                &&& info_bits@.len() == k && old(codeword)@.len() != n ==> r == Err::<(), _>(
                    FecError::BufferTooSmall {
                        required: n as usize,
                        provided: old(codeword)@.len() as usize,
                    },
                )
                &&& info_bits@.len() == k && old(codeword)@.len() == n ==> r is Ok
                &&& r is Err ==> final(codeword)@ == old(codeword)@
                &&& r is Ok ==> is_encoding(self.params(), info_bits@, final(codeword)@)
                    && is_bits(final(codeword)@.skip(k as int))
            }),
    {
        proof {
            self.lemma_wf();
        }
        let k: usize = self.k_bits;
        let n: usize = self.codeword_bit_count();
        if info_bits.len() != k {
            return Err(FecError::BufferTooSmall { required: k, provided: info_bits.len() });
        }
        if codeword.len() != n {
            return Err(FecError::BufferTooSmall { required: n, provided: codeword.len() });
        }
        match ParityGenerator::build(&self.params) {
            Ok(g) => {
                self.write_dense(&g, info_bits, codeword);
                Ok(())
            },
            Err(e) => Err(e),
        }
    }
}

/// What an encoder writes for `info`: an encoding of it, whose parity entries
/// are bits under elimination and sums of whole entries under the structured
/// solve.
pub open spec fn encoded(enc: QcLdpcEncoder, info: Seq<u8>, w: Seq<u8>) -> bool {
    &&& is_encoding(enc.params(), info, w)
    &&& is_bits(info) ==> is_bits(w)
    &&& enc.sparse() ==> enc.params().satisfied(w)
    &&& !enc.sparse() ==> is_bits(w.skip(info.len() as int))
}

/// `p` is the base graph of the table lifted to size `z`.
pub open spec fn lifted(table: BaseGraphTable, z: usize, p: QcLdpcParams) -> bool {
    &&& p.wf()
    &&& p.bg == table.graph()
    &&& p.z == z
    &&& forall|ils: int, row: int|
        #![trigger in_lifting_set(ils, z as int), p.edges(row)]
        in_lifting_set(ils, z as int) && 0 <= row < p.num_row_blocks ==> p.edges(row) == row_edges(
            table.entries(),
            ils,
            z as int,
            row,
            table.entries().len(),
        )
}

/// Both ways of encoding a word of bits give the same codeword.
pub proof fn lemma_strategies_agree(enc: QcLdpcEncoder, info: Seq<u8>, v: Seq<u8>, w: Seq<u8>)
    requires
        enc.wf(),
        is_bits(info),
        info.len() == info_blocks(enc.params().bg) * enc.params().z,
        encoded(enc, info, v),
        is_encoding(enc.params(), info, w),
        is_bits(w.skip(info.len() as int)),
    ensures
        v == w,
{
    let p = enc.params();
    enc.lemma_wf();
    p.lemma_bounds();
    assert(is_bits(w)) by {
        assert forall|t: int| 0 <= t < w.len() implies #[trigger] w[t] <= 1 by {
            if t < info.len() {
                assert(w.take(info.len() as int)[t] == w[t]);
                assert(info[t] <= 1);
            } else {
                assert(w.skip(info.len() as int)[t - info.len()] == w[t]);
            }
        }
    }
    lemma_low_bits(v);
    lemma_low_bits(w);
    assert forall|t: int| 0 <= t < (p.num_col_blocks - p.num_row_blocks) * p.z implies v[t]
        == w[t] by {
        assert(v.take(info.len() as int)[t] == v[t]);
        assert(w.take(info.len() as int)[t] == w[t]);
    }
    lemma_encoding_unique(p, v, w);
}

/// Of the first `n` entries of a table, those of a row block that bring a one
/// of the word to check `i`: an entry brings the bit that stands its shift
/// after `i`, around, in its column block.
pub open spec fn ones_met(
    t: Seq<BaseGraphEntry>,
    set: int,
    z: int,
    row: int,
    i: int,
    w: Seq<u8>,
    n: nat,
) -> nat
    decreases n,
{
    if n == 0 {
        0
    } else {
        let e = t[n - 1];
        ones_met(t, set, z, row, i, w, (n - 1) as nat) + if e.row == row && w[e.col * z + (i
            + e.shifts@[set]) % z] == 1 {
            1nat
        } else {
            0nat
        }
    }
}

proof fn lemma_rot(i: int, s: int, z: int)
    requires
        0 <= i < z,
        0 <= s,
    ensures
        rot(i, s % z, z) == (i + s) % z,
        0 <= (i + s) % z < z,
{
    let m = s % z;
    vstd::arithmetic::div_mod::lemma_mod_bound(s, z);
    vstd::arithmetic::div_mod::lemma_fundamental_div_mod(s, z);
    let q = s / z;
    if i + m < z {
        assert(i + s == q * z + (i + m)) by (nonlinear_arith)
            requires
                s == z * q + m,
        ;
        vstd::arithmetic::div_mod::lemma_fundamental_div_mod_converse(i + s, z, q, i + m);
    } else {
        assert(i + s == (q + 1) * z + (i + m - z)) by (nonlinear_arith)
            requires
                s == z * q + m,
        ;
        vstd::arithmetic::div_mod::lemma_fundamental_div_mod_converse(i + s, z, q + 1, i + m - z);
    }
}

/// The sum of the bits that the first `n` edges of a list bring to check `i`.
spec fn edge_sum(edges: Seq<(int, int)>, z: int, i: int, w: Seq<u8>, n: nat) -> u8
    decreases n,
{
    if n == 0 {
        0
    } else {
        edge_sum(edges, z, i, w, (n - 1) as nat) ^ w[edges[n - 1].0 * z + rot(
            i,
            edges[n - 1].1,
            z,
        )]
    }
}

proof fn lemma_edge_sum_push(a: Seq<(int, int)>, x: (int, int), z: int, i: int, w: Seq<u8>, n: nat)
    requires
        n <= a.len(),
    ensures
        edge_sum(a.push(x), z, i, w, n) == edge_sum(a, z, i, w, n),
    decreases n,
{
    if n > 0 {
        lemma_edge_sum_push(a, x, z, i, w, (n - 1) as nat);
    }
}

proof fn lemma_edge_sum_counts(
    bg: BaseGraph,
    t: Seq<BaseGraphEntry>,
    set: int,
    z: int,
    row: int,
    i: int,
    w: Seq<u8>,
    n: nat,
)
    requires
        n <= t.len(),
        0 <= set < 8,
        0 <= i < z,
        forall|k: int| 0 <= k < t.len() ==> entry_valid(bg, #[trigger] t[k]),
        is_bits(w),
        w.len() == col_blocks(bg) * z,
    ensures
        ({
            let edges = row_edges(t, set, z, row, n);
            edge_sum(edges, z, i, w, edges.len()) as int == ones_met(t, set, z, row, i, w, n) as int
                % 2
        }),
    decreases n,
{
    if n > 0 {
        lemma_edge_sum_counts(bg, t, set, z, row, i, w, (n - 1) as nat);
        let e = t[n - 1];
        assert(entry_valid(bg, e));
        let before = row_edges(t, set, z, row, (n - 1) as nat);
        if e.row == row {
            let s = e.shifts@[set] as int;
            let x = (e.col as int, s % z);
            lemma_edge_sum_push(before, x, z, i, w, before.len());
            lemma_rot(i, s, z);
            let at = e.col * z + (i + s) % z;
            assert(0 <= at < w.len()) by {
                assert(0 <= e.col * z && e.col * z + z <= col_blocks(bg) * z) by (nonlinear_arith)
                    requires
                        0 <= e.col < col_blocks(bg),
                        0 <= z,
                ;
            }
            assert(w[at] <= 1);
            let a = edge_sum(before, z, i, w, before.len());
            assert(a <= 1);
            crate::bits::lemma_xor_bits(a, w[at]);
            let after = before.push(x);
            assert(row_edges(t, set, z, row, n) == after);
            assert(after[after.len() - 1] == x);
        }
    }
}

/// What a check sums, from the table: check `i` of a row block is the parity
/// of the ones that the entries of the block bring, shifted by their shifts
/// for the set that the lifting size doubles out of.
pub proof fn lemma_check_from_table(
    table: BaseGraphTable,
    z: usize,
    p: QcLdpcParams,
    set: int,
    w: Seq<u8>,
    row: int,
    i: int,
)
    requires
        table.wf(),
        lifted(table, z, p),
        0 <= set < 8,
        z <= 384,
        is_doubling(smallest_size(set), z as int),
        is_bits(w),
        w.len() == col_blocks(table.graph()) * z,
        0 <= row < row_blocks(table.graph()),
        0 <= i < z,
    ensures
        p.check(w, row, i) as int == ones_met(
            table.entries(),
            set,
            z as int,
            row,
            i,
            w,
            table.entries().len(),
        ) as int % 2,
{
    lemma_lifting_set(set, z as int);
    assert(in_lifting_set(set, z as int));
    let edges = p.edges(row);
    assert(edges == row_edges(table.entries(), set, z as int, row, table.entries().len()));
    assert(p.layer_offsets@[row] <= p.layer_offsets@[row + 1]);
    lemma_part_is_sum(p, w, row, i, edges.len());
    lemma_edge_sum_counts(
        table.graph(),
        table.entries(),
        set,
        z as int,
        row,
        i,
        w,
        table.entries().len(),
    );
}

proof fn lemma_part_is_sum(p: QcLdpcParams, w: Seq<u8>, row: int, i: int, k: nat)
    requires
        p.wf(),
        0 <= row < p.num_row_blocks,
        k <= p.edges(row).len(),
    ensures
        p.part(
            w,
            i,
            0,
            p.num_col_blocks as int,
            p.layer_offsets@[row] as int,
            p.layer_offsets@[row] + k,
        ) == edge_sum(p.edges(row), p.z as int, i, w, k),
    decreases k,
{
    if k > 0 {
        lemma_part_is_sum(p, w, row, i, (k - 1) as nat);
        assert(p.layer_offsets@[row] <= p.layer_offsets@[row + 1]);
        let e = p.layer_offsets@[row] + k - 1;
        assert(e < p.submatrix_cols@.len());
        assert(p.submatrix_cols@[e] < p.num_col_blocks);
        assert(p.edges(row)[k - 1] == (p.submatrix_cols@[e] as int, p.submatrix_shifts@[e] as int));
    }
}

} // verus!
