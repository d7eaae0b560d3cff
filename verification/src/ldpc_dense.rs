//! Parity by Gaussian elimination over `GF(2)`, for base graphs without the
//! double-diagonal shape.
//!
//! Rows are packed sixty-four bits to a word. The augmented matrix holds the
//! parity columns first and the information columns after them; once the
//! parity columns are reduced to the identity, the information columns of a
//! row give its parity bit.

use crate::bits::{is_bits, lemma_low_bit, lemma_low_bits, lemma_xor_bits, low_bits};
use crate::error::FecError;

use crate::qc_ldpc::QcLdpcParams;
use vstd::prelude::*;

verus! {

/// Bit `b` of a packed row.
pub open spec fn bit(row: Seq<u64>, b: int) -> bool {
    (row[b / 64] >> ((b % 64) as u64)) & 1 == 1
}

/// The sum over the first `n` columns of row times vector.
pub open spec fn dot(row: Seq<u64>, x: Seq<bool>, n: nat) -> bool
    decreases n,
{
    if n == 0 {
        false
    } else {
        dot(row, x, (n - 1) as nat) != (bit(row, n - 1) && x[n - 1])
    }
}

/// The vector is orthogonal to every row.
pub open spec fn solves(rows: Seq<Vec<u64>>, x: Seq<bool>, n: nat) -> bool {
    forall|r: int| 0 <= r < rows.len() ==> !dot(#[trigger] rows[r]@, x, n)
}

proof fn lemma_words(x: u64, y: u64, s: u64, t: u64)
    by (bit_vector)
    requires
        s < 64,
        t < 64,
    ensures
        (((x ^ y) >> s) & 1 == 1) == (((x >> s) & 1 == 1) != ((y >> s) & 1 == 1)),
        (((x ^ (1u64 << t)) >> s) & 1 == 1) == (((x >> s) & 1 == 1) != (s == t)),
        (0u64 >> s) & 1 == 0,
{
}

/// Whether bit `b` is set.
fn gf_bit_get(row: &Vec<u64>, b: usize) -> (r: bool)
    requires
        b < row@.len() * 64,
    ensures
        r == bit(row@, b as int),
{
    (row[b / 64] >> ((b % 64) as u64)) & 1 == 1
}

/// Toggles bit `b`.
fn gf_bit_set(row: &mut Vec<u64>, b: usize)
    requires
        b < old(row)@.len() * 64,
    ensures
        final(row)@.len() == old(row)@.len(),
        forall|c: int|
            0 <= c < old(row)@.len() * 64 ==> #[trigger] bit(final(row)@, c) == (bit(old(row)@, c)
                != (c == b)),
{
    let ghost before = row@;
    let t: u64 = (b % 64) as u64;
    let v: u64 = row[b / 64] ^ (1u64 << t);
    row.set(b / 64, v);
    proof {
        assert forall|c: int| 0 <= c < before.len() * 64 implies #[trigger] bit(row@, c) == (bit(
            before,
            c,
        ) != (c == b)) by {
            lemma_words(before[c / 64], 0, (c % 64) as u64, t);
        }
    }
}

/// The sum of two rows.
fn gf_row_xor(a: &Vec<u64>, b: &Vec<u64>) -> (c: Vec<u64>)
    requires
        a@.len() == b@.len(),
    ensures
        c@.len() == a@.len(),
        forall|q: int|
            0 <= q < a@.len() * 64 ==> #[trigger] bit(c@, q) == (bit(a@, q) != bit(b@, q)),
{
    let mut c: Vec<u64> = Vec::new();
    let mut i: usize = 0;
    while i < a.len()
        invariant
            i <= a@.len(),
            a@.len() == b@.len(),
            c@.len() == i,
            forall|j: int| 0 <= j < i ==> #[trigger] c@[j] == a@[j] ^ b@[j],
        decreases a@.len() - i,
    {
        c.push(a[i] ^ b[i]);
        i = i + 1;
    }
    proof {
        assert forall|q: int| 0 <= q < a@.len() * 64 implies #[trigger] bit(c@, q) == (bit(a@, q)
            != bit(b@, q)) by {
            lemma_words(a@[q / 64], b@[q / 64], (q % 64) as u64, 0);
        }
    }
    c
}

fn copy_row(a: &Vec<u64>) -> (c: Vec<u64>)
    ensures
        c@ == a@,
{
    let mut c: Vec<u64> = Vec::new();
    let mut i: usize = 0;
    while i < a.len()
        invariant
            i <= a@.len(),
            c@ == a@.take(i as int),
        decreases a@.len() - i,
    {
        c.push(a[i]);
        i = i + 1;
        assert(a@.take(i as int) =~= a@.take(i as int - 1).push(a@[i as int - 1]));
    }
    assert(a@.take(i as int) =~= a@);
    c
}

proof fn lemma_dot_toggle(a: Seq<u64>, c: Seq<u64>, x: Seq<bool>, b: int, n: nat)
    requires
        forall|q: int| 0 <= q < n ==> #[trigger] bit(c, q) == (bit(a, q) != (q == b)),
    ensures
        dot(c, x, n) == (dot(a, x, n) != (0 <= b < n && x[b])),
    decreases n,
{
    if n > 0 {
        lemma_dot_toggle(a, c, x, b, (n - 1) as nat);
        assert(bit(c, n - 1) == (bit(a, n - 1) != (n - 1 == b)));
    }
}

proof fn lemma_dot_xor(a: Seq<u64>, b: Seq<u64>, c: Seq<u64>, x: Seq<bool>, n: nat)
    requires
        forall|q: int| 0 <= q < n ==> #[trigger] bit(c, q) == (bit(a, q) != bit(b, q)),
    ensures
        dot(c, x, n) == (dot(a, x, n) != dot(b, x, n)),
    decreases n,
{
    if n > 0 {
        lemma_dot_xor(a, b, c, x, (n - 1) as nat);
        assert(bit(c, n - 1) == (bit(a, n - 1) != bit(b, n - 1)));
    }
}

proof fn lemma_dot_zero(a: Seq<u64>, x: Seq<bool>, n: nat)
    requires
        forall|q: int| 0 <= q < n ==> !#[trigger] bit(a, q) || !x[q],
    ensures
        !dot(a, x, n),
    decreases n,
{
    if n > 0 {
        lemma_dot_zero(a, x, (n - 1) as nat);
        assert(!bit(a, n - 1) || !x[n - 1]);
    }
}

/// A row whose first `n` bits are those of a unit vector picks one entry.
proof fn lemma_dot_unit(a: Seq<u64>, x: Seq<bool>, i: int, n: nat)
    requires
        forall|q: int| 0 <= q < n ==> #[trigger] bit(a, q) == (q == i),
    ensures
        dot(a, x, n) == (0 <= i < n && x[i]),
    decreases n,
{
    if n > 0 {
        lemma_dot_unit(a, x, i, (n - 1) as nat);
        assert(bit(a, n - 1) == (n - 1 == i));
    }
}

/// The column of the augmented matrix that stands for variable `v`.
pub open spec fn column(p: QcLdpcParams, v: int) -> int {
    let k = (p.num_col_blocks - p.num_row_blocks) * p.z;
    let m = p.num_row_blocks * p.z;
    if v < k {
        m + v
    } else {
        v - k
    }
}

/// The sum over the edges from `begin` up to `end` of the columns they meet
/// in check `i`.
pub open spec fn edge_sum(p: QcLdpcParams, x: Seq<bool>, i: int, begin: int, end: int) -> bool
    decreases end - begin,
{
    if end <= begin {
        false
    } else {
        edge_sum(p, x, i, begin, end - 1) != x[column(p, p.variable(end - 1, i))]
    }
}

/// A row of the parity-check matrix: check `q % z` of row block `q / z`.
pub open spec fn is_check_row(p: QcLdpcParams, row: Seq<u64>, q: int) -> bool {
    let n = (p.num_col_blocks * p.z) as nat;
    forall|x: Seq<bool>|
        x.len() == n ==> #[trigger] dot(row, x, n) == edge_sum(
            p,
            x,
            q % (p.z as int),
            p.layer_offsets@[q / (p.z as int)] as int,
            p.layer_offsets@[q / (p.z as int) + 1] as int,
        )
}

proof fn lemma_sizes(p: QcLdpcParams)
    requires
        p.wf(),
    ensures
        ({
            let k = (p.num_col_blocks - p.num_row_blocks) * p.z;
            let m = p.num_row_blocks * p.z;
            &&& 0 < k <= 8448
            &&& 0 < m <= 17664
            &&& k + m == p.num_col_blocks * p.z
        }),
{
    let z = p.z as int;
    let r = p.num_row_blocks as int;
    let c = p.num_col_blocks as int;
    assert(0 < (c - r) * z <= 22 * 384) by (nonlinear_arith)
        requires
            0 < c - r <= 22,
            0 < z <= 384,
    ;
    assert(0 < r * z <= 46 * 384) by (nonlinear_arith)
        requires
            0 < r <= 46,
            0 < z <= 384,
    ;
    assert((c - r) * z + r * z == c * z) by (nonlinear_arith);
}

proof fn lemma_zero_row(row: Seq<u64>, x: Seq<bool>, n: nat)
    requires
        forall|j: int| 0 <= j < row.len() ==> row[j] == 0,
        n <= row.len() * 64,
    ensures
        !dot(row, x, n),
{
    assert forall|q: int| 0 <= q < n implies !#[trigger] bit(row, q) || !x[q] by {
        lemma_words(0, 0, (q % 64) as u64, 0);
    }
    lemma_dot_zero(row, x, n);
}

/// Builds one row of the parity-check matrix.
fn check_row(p: &QcLdpcParams, q: usize, words: usize) -> (row: Vec<u64>)
    requires
        p.wf(),
        q < p.num_row_blocks * p.z,
        p.num_col_blocks * p.z <= words * 64,
        words <= 1000,
    ensures
        row@.len() == words,
        is_check_row(*p, row@, q as int),
{
    proof {
        lemma_sizes(*p);
        vstd::arithmetic::div_mod::lemma_fundamental_div_mod(q as int, p.z as int);
        assert(0 <= q / p.z < p.num_row_blocks) by (nonlinear_arith)
            requires
                q < p.num_row_blocks * p.z,
                p.z > 0,
        ;
    }
    let z: usize = p.z;
    let k: usize = (p.num_col_blocks - p.num_row_blocks) * z;
    let m: usize = p.num_row_blocks * z;
    let ghost n = (p.num_col_blocks * p.z) as nat;
    let layer: usize = q / z;
    let i: usize = q % z;
    assert(p.layer_offsets@[layer as int] <= p.layer_offsets@[layer + 1]);
    let begin: usize = p.layer_offsets[layer];
    let end: usize = p.layer_offsets[layer + 1];
    let mut row: Vec<u64> = vec![0u64; words];
    proof {
        assert forall|x: Seq<bool>| x.len() == n implies #[trigger] dot(row@, x, n) == edge_sum(
            *p,
            x,
            i as int,
            begin as int,
            begin as int,
        ) by {
            lemma_zero_row(row@, x, n);
        }
    }
    let mut e: usize = begin;
    while e < end
        invariant
            p.wf(),
            z == p.z,
            k == (p.num_col_blocks - p.num_row_blocks) * z,
            m == p.num_row_blocks * z,
            n == p.num_col_blocks * z,
            k + m == n,
            n <= 26112,
            n <= words * 64,
            i < z,
            begin <= e <= end,
            end <= p.submatrix_cols@.len(),
            row@.len() == words,
            forall|x: Seq<bool>|
                x.len() == n ==> #[trigger] dot(row@, x, n) == edge_sum(
                    *p,
                    x,
                    i as int,
                    begin as int,
                    e as int,
                ),
        decreases end - e,
    {
        assert(p.submatrix_cols@[e as int] < p.num_col_blocks);
        assert(0 <= p.submatrix_shifts@[e as int] < p.z);
        let col: usize = p.submatrix_cols[e];
        let shift: usize = p.submatrix_shifts[e] as usize;
        let at: usize = if i + shift < z {
            i + shift
        } else {
            i + shift - z
        };
        proof {
            p.lemma_variable(e as int, i as int);
            assert(0 <= col * z) by (nonlinear_arith);
        }
        let v: usize = col * z + at;
        let b: usize = if v < k {
            m + v
        } else {
            v - k
        };
        let ghost before = row@;
        gf_bit_set(&mut row, b);
        proof {
            assert forall|x: Seq<bool>| x.len() == n implies #[trigger] dot(row@, x, n)
                == edge_sum(*p, x, i as int, begin as int, e + 1) by {
                assert(dot(before, x, n) == edge_sum(*p, x, i as int, begin as int, e as int));
                lemma_dot_toggle(before, row@, x, b as int, n);
            }
        }
        e = e + 1;
    }
    row
}

/// The first `c` columns are those of the identity.
spec fn reduced(rows: Seq<Vec<u64>>, c: int) -> bool {
    forall|r: int, q: int|
        0 <= r < rows.len() && 0 <= q < c ==> #[trigger] bit(rows[r]@, q) == (r == q)
}

proof fn lemma_add_row(
    a: Seq<Vec<u64>>,
    b: Seq<Vec<u64>>,
    r: int,
    c: int,
    x: Seq<bool>,
    n: nat,
)
    requires
        0 <= r < a.len(),
        0 <= c < a.len(),
        r != c,
        b.len() == a.len(),
        forall|q: int| 0 <= q < a.len() && q != r ==> b[q] == a[q],
        forall|q: int| 0 <= q < n ==> #[trigger] bit(b[r]@, q) == (bit(a[r]@, q) != bit(a[c]@, q)),
    ensures
        solves(b, x, n) == solves(a, x, n),
{
    lemma_dot_xor(a[r]@, a[c]@, b[r]@, x, n);
    assert(b[c] == a[c]);
    if solves(a, x, n) {
        assert forall|q: int| 0 <= q < b.len() implies !dot(#[trigger] b[q]@, x, n) by {
            assert(!dot(a[q]@, x, n));
            assert(!dot(a[c]@, x, n));
        }
    }
    if solves(b, x, n) {
        assert forall|q: int| 0 <= q < a.len() implies !dot(#[trigger] a[q]@, x, n) by {
            assert(!dot(b[q]@, x, n));
            assert(!dot(b[c]@, x, n));
        }
    }
}

proof fn lemma_swap_rows(a: Seq<Vec<u64>>, b: Seq<Vec<u64>>, r: int, c: int, x: Seq<bool>, n: nat)
    requires
        0 <= r < a.len(),
        0 <= c < a.len(),
        b.len() == a.len(),
        b[r]@ == a[c]@,
        b[c]@ == a[r]@,
        forall|q: int| 0 <= q < a.len() && q != r && q != c ==> b[q] == a[q],
    ensures
        solves(b, x, n) == solves(a, x, n),
{
    if solves(a, x, n) {
        assert forall|q: int| 0 <= q < b.len() implies !dot(#[trigger] b[q]@, x, n) by {
            assert(!dot(a[q]@, x, n));
            assert(!dot(a[c]@, x, n));
            assert(!dot(a[r]@, x, n));
        }
    }
    if solves(b, x, n) {
        assert forall|q: int| 0 <= q < a.len() implies !dot(#[trigger] a[q]@, x, n) by {
            assert(!dot(b[q]@, x, n));
            assert(!dot(b[c]@, x, n));
            assert(!dot(b[r]@, x, n));
        }
    }
}

/// Two systems of packed rows have the same solutions.
spec fn equivalent(a: Seq<Vec<u64>>, b: Seq<Vec<u64>>, n: nat) -> bool {
    forall|x: Seq<bool>| x.len() == n ==> #[trigger] solves(a, x, n) == solves(b, x, n)
}

spec fn shaped(rows: Seq<Vec<u64>>, words: nat) -> bool {
    forall|r: int| 0 <= r < rows.len() ==> #[trigger] rows[r]@.len() == words
}

/// A nonzero combination of the first `m` columns that every row maps to
/// zero.
pub open spec fn dependent(rows: Seq<Vec<u64>>, x: Seq<bool>, m: int, n: nat) -> bool {
    &&& x.len() == n
    &&& solves(rows, x, n)
    &&& exists|j: int| 0 <= j < m && x[j]
    &&& forall|j: int| m <= j < n ==> !x[j]
}

/// A column that has no pivot is a combination of the reduced ones.
proof fn lemma_no_pivot(rows: Seq<Vec<u64>>, c: int, m: int, n: nat) -> (x: Seq<bool>)
    requires
        0 <= c < m <= n,
        rows.len() == m,
        reduced(rows, c),
        forall|r: int| c <= r < m ==> !bit(#[trigger] rows[r]@, c),
    ensures
        dependent(rows, x, m, n),
{
    let x = Seq::new(
        n,
        |j: int| if j < c {
            bit(rows[j]@, c)
        } else {
            j == c
        },
    );
    assert(x[c]);
    assert forall|r: int| 0 <= r < rows.len() implies !dot(#[trigger] rows[r]@, x, n) by {
        lemma_no_pivot_row(rows, x, c, r, n, n);
    }
    x
}

proof fn lemma_no_pivot_row(
    rows: Seq<Vec<u64>>,
    x: Seq<bool>,
    c: int,
    r: int,
    n: nat,
    k: nat,
)
    requires
        0 <= c < rows.len() <= n,
        k <= n,
        0 <= r < rows.len(),
        reduced(rows, c),
        forall|q: int| c <= q < rows.len() ==> !bit(#[trigger] rows[q]@, c),
        x.len() == n,
        forall|j: int| 0 <= j < c ==> x[j] == bit(rows[j]@, c),
        x[c],
        forall|j: int| c < j < n ==> !x[j],
    ensures
        dot(rows[r]@, x, k) == (if k <= c {
            r < k && x[r]
        } else {
            false
        }),
    decreases k,
{
    if k > 0 {
        let j = k - 1;
        lemma_no_pivot_row(rows, x, c, r, n, j as nat);
        if j < c {
            assert(bit(rows[r]@, j) == (r == j));
        } else if j == c {
            if r < c {
                assert(x[r] == bit(rows[r]@, c));
            } else {
                assert(!bit(rows[r]@, c));
            }
        }
    }
}

/// Reduces the first `m` columns to the identity, or finds that they are
/// dependent.
fn eliminate(rows: &mut Vec<Vec<u64>>, m: usize, words: usize, n: usize) -> (ok: bool)
    requires
        old(rows)@.len() == m,
        shaped(old(rows)@, words as nat),
        m <= n <= words * 64,
        words <= 1000,
    ensures
        final(rows)@.len() == m,
        shaped(final(rows)@, words as nat),
        equivalent(final(rows)@, old(rows)@, n as nat),
        ok ==> reduced(final(rows)@, m as int),
        !ok ==> exists|x: Seq<bool>| #[trigger] dependent(old(rows)@, x, m as int, n as nat),
{
    let ghost start = rows@;
    let mut col: usize = 0;
    while col < m
        invariant
            col <= m,
            m <= n <= words * 64,
            words <= 1000,
            start == old(rows)@,
            rows@.len() == m,
            start.len() == m,
            shaped(rows@, words as nat),
            equivalent(rows@, start, n as nat),
            reduced(rows@, col as int),
        decreases m - col,
    {
        let mut pivot: usize = col;
        while pivot < m && !gf_bit_get(&rows[pivot], col)
            invariant
                col < m,
                col <= pivot <= m,
                m <= n <= words * 64,
                rows@.len() == m,
                shaped(rows@, words as nat),
                forall|r: int| col <= r < pivot ==> !bit(#[trigger] rows@[r]@, col as int),
            decreases m - pivot,
        {
            pivot = pivot + 1;
        }
        if pivot == m {
            proof {
                let x = lemma_no_pivot(rows@, col as int, m as int, n as nat);
                assert(solves(rows@, x, n as nat) == solves(start, x, n as nat));
                assert(dependent(start, x, m as int, n as nat));
            }
            return false;
        }
        assert(bit(rows@[pivot as int]@, col as int));
        if pivot != col {
            let a: Vec<u64> = copy_row(&rows[col]);
            let b: Vec<u64> = copy_row(&rows[pivot]);
            let ghost before = rows@;
            rows.set(col, b);
            rows.set(pivot, a);
            proof {
                assert forall|x: Seq<bool>| x.len() == n implies #[trigger] solves(
                    rows@,
                    x,
                    n as nat,
                ) == solves(start, x, n as nat) by {
                    lemma_swap_rows(before, rows@, col as int, pivot as int, x, n as nat);
                    assert(solves(before, x, n as nat) == solves(start, x, n as nat));
                }
                assert forall|r: int, q: int| 0 <= r < rows@.len() && 0 <= q < col implies
                    #[trigger] bit(rows@[r]@, q) == (r == q) by {
                    assert(bit(before[col as int]@, q) == (col == q));
                    assert(bit(before[pivot as int]@, q) == (pivot == q));
                    if r != col && r != pivot {
                        assert(bit(before[r]@, q) == (r == q));
                    }
                }
            }
        }
        let head: Vec<u64> = copy_row(&rows[col]);
        let mut row: usize = 0;
        while row < m
            invariant
                row <= m,
                col < m,
                m <= n <= words * 64,
                words <= 1000,
                rows@.len() == m,
                start.len() == m,
                shaped(rows@, words as nat),
                head@ == rows@[col as int]@,
                equivalent(rows@, start, n as nat),
                reduced(rows@, col as int),
                bit(rows@[col as int]@, col as int),
                forall|r: int|
                    0 <= r < row && r != col ==> !bit(#[trigger] rows@[r]@, col as int),
            decreases m - row,
        {
            if row != col && gf_bit_get(&rows[row], col) {
                let ghost before = rows@;
                let sum: Vec<u64> = gf_row_xor(&rows[row], &head);
                rows.set(row, sum);
                proof {
                    assert forall|x: Seq<bool>| x.len() == n implies #[trigger] solves(
                        rows@,
                        x,
                        n as nat,
                    ) == solves(start, x, n as nat) by {
                        lemma_add_row(before, rows@, row as int, col as int, x, n as nat);
                        assert(solves(before, x, n as nat) == solves(start, x, n as nat));
                    }
                    assert forall|r: int, q: int| 0 <= r < rows@.len() && 0 <= q < col implies
                        #[trigger] bit(rows@[r]@, q) == (r == q) by {
                        assert(bit(before[r]@, q) == (r == q));
                        assert(bit(before[col as int]@, q) == (col == q));
                    }
                }
            }
            row = row + 1;
        }
        proof {
            assert forall|r: int, q: int| 0 <= r < rows@.len() && 0 <= q < col + 1 implies
                #[trigger] bit(rows@[r]@, q) == (r == q) by {
                if q == col && r != col {
                    assert(!bit(rows@[r]@, col as int));
                }
            }
        }
        col = col + 1;
    }
    true
}

/// The entries of a word in the column order of the augmented matrix.
pub open spec fn vector_of(p: QcLdpcParams, w: Seq<u8>) -> Seq<bool> {
    let k = (p.num_col_blocks - p.num_row_blocks) * p.z;
    let m = p.num_row_blocks * p.z;
    Seq::new(
        w.len(),
        |b: int| if b < m {
            w[k + b] & 1 == 1
        } else {
            w[b - m] & 1 == 1
        },
    )
}

/// The word with the given entries in column order.
pub open spec fn word_of(p: QcLdpcParams, x: Seq<bool>) -> Seq<u8> {
    let k = (p.num_col_blocks - p.num_row_blocks) * p.z;
    let m = p.num_row_blocks * p.z;
    Seq::new(
        x.len(),
        |v: int| if x[column(p, v)] {
            1u8
        } else {
            0u8
        },
    )
}

/// Every check sums to zero on the vector.
pub open spec fn checks_vanish(p: QcLdpcParams, x: Seq<bool>) -> bool {
    forall|r: int, i: int|
        0 <= r < p.num_row_blocks && 0 <= i < p.z ==> !#[trigger] edge_sum(
            p,
            x,
            i,
            p.layer_offsets@[r] as int,
            p.layer_offsets@[r + 1] as int,
        )
}

proof fn lemma_edge_sum_part(
    p: QcLdpcParams,
    w: Seq<u8>,
    i: int,
    begin: int,
    end: int,
)
    requires
        p.wf(),
        w.len() == p.num_col_blocks * p.z,
        0 <= i < p.z,
        0 <= begin,
        end <= p.submatrix_cols@.len(),
    ensures
        p.part(low_bits(w), i, 0, p.num_col_blocks as int, begin, end) <= 1,
        edge_sum(p, vector_of(p, w), i, begin, end) == (p.part(
            low_bits(w),
            i,
            0,
            p.num_col_blocks as int,
            begin,
            end,
        ) == 1),
    decreases end - begin,
{
    if begin < end {
        lemma_edge_sum_part(p, w, i, begin, end - 1);
        lemma_sizes(p);
        p.lemma_variable(end - 1, i);
        assert(p.submatrix_cols@[end - 1] < p.num_col_blocks);
        let v = p.variable(end - 1, i);
        assert(0 <= p.submatrix_cols@[end - 1] * p.z) by (nonlinear_arith)
            requires
                p.submatrix_cols@[end - 1] >= 0,
                p.z >= 0,
        ;
        lemma_low_bit(w[v]);
        assert(vector_of(p, w)[column(p, v)] == (w[v] & 1 == 1));
        lemma_xor_bits(
            p.part(low_bits(w), i, 0, p.num_col_blocks as int, begin, end - 1),
            low_bits(w)[v],
        );
    }
}

/// A word's low bits satisfy the checks exactly when its vector does.
pub proof fn lemma_checks_vanish(p: QcLdpcParams, w: Seq<u8>)
    requires
        p.wf(),
        w.len() == p.num_col_blocks * p.z,
    ensures
        checks_vanish(p, vector_of(p, w)) == p.satisfied(low_bits(w)),
{
    let x = vector_of(p, w);
    assert forall|r: int, i: int| 0 <= r < p.num_row_blocks && 0 <= i < p.z implies (
    !#[trigger] edge_sum(p, x, i, p.layer_offsets@[r] as int, p.layer_offsets@[r + 1] as int)
        <==> #[trigger] p.check(low_bits(w), r, i) == 0) by {
        assert(p.layer_offsets@[r] <= p.layer_offsets@[r + 1]);
        lemma_edge_sum_part(
            p,
            w,
            i,
            p.layer_offsets@[r] as int,
            p.layer_offsets@[r + 1] as int,
        );
    }
    if checks_vanish(p, x) {
        assert forall|r: int, i: int|
            0 <= r < p.num_row_blocks && 0 <= i < p.z implies #[trigger] p.check(
            low_bits(w),
            r,
            i,
        ) == 0 by {
            assert(!edge_sum(
                p,
                x,
                i,
                p.layer_offsets@[r] as int,
                p.layer_offsets@[r + 1] as int,
            ));
        }
    }
    if p.satisfied(low_bits(w)) {
        assert forall|r: int, i: int|
            0 <= r < p.num_row_blocks && 0 <= i < p.z implies !#[trigger] edge_sum(
            p,
            x,
            i,
            p.layer_offsets@[r] as int,
            p.layer_offsets@[r + 1] as int,
        ) by {
            assert(p.check(low_bits(w), r, i) == 0);
        }
    }
}

proof fn lemma_word_of(p: QcLdpcParams, x: Seq<bool>)
    requires
        p.wf(),
        x.len() == p.num_col_blocks * p.z,
    ensures
        is_bits(word_of(p, x)),
        vector_of(p, word_of(p, x)) == x,
{
    lemma_sizes(p);
    let w = word_of(p, x);
    let k = (p.num_col_blocks - p.num_row_blocks) * p.z;
    let m = p.num_row_blocks * p.z;
    assert forall|b: int| 0 <= b < x.len() implies vector_of(p, w)[b] == x[b] by {
        if b < m {
            lemma_low_bit(w[k + b]);
            assert(column(p, k + b) == b);
        } else {
            lemma_low_bit(w[b - m]);
            assert(column(p, b - m) == b);
        }
    }
    assert(vector_of(p, w) =~= x);
}

/// Some nonzero choice of parity bits satisfies every check together with
/// zero information bits, so that the parity bits are not determined.
pub open spec fn parity_ambiguous(p: QcLdpcParams) -> bool {
    exists|w: Seq<u8>| #[trigger] ambiguous_word(p, w)
}

/// A nonzero word of bits with zero information bits that satisfies every
/// check.
pub open spec fn ambiguous_word(p: QcLdpcParams, w: Seq<u8>) -> bool {
    let k = (p.num_col_blocks - p.num_row_blocks) * p.z;
    &&& w.len() == p.num_col_blocks * p.z
    &&& is_bits(w)
    &&& p.satisfied(w)
    &&& forall|i: int| 0 <= i < k ==> w[i] == 0
    &&& exists|i: int| k <= i < w.len() && w[i] != 0
}

/// The sum over the information columns.
pub open spec fn info_dot(row: Seq<u64>, s: Seq<bool>, m: int, k: nat) -> bool
    decreases k,
{
    if k == 0 {
        false
    } else {
        info_dot(row, s, m, (k - 1) as nat) != (bit(row, m + k - 1) && s[k - 1])
    }
}

proof fn lemma_dot_split(row: Seq<u64>, x: Seq<bool>, s: Seq<bool>, m: nat, k: nat)
    requires
        x.len() >= m + k,
        forall|j: int| 0 <= j < k ==> #[trigger] s[j] == x[m + j],
    ensures
        dot(row, x, m + k) == (dot(row, x, m) != info_dot(row, s, m as int, k)),
    decreases k,
{
    if k > 0 {
        lemma_dot_split(row, x, s, m, (k - 1) as nat);
        assert(s[k - 1] == x[m + (k - 1)]);
        assert((m + k - 1) as nat == m + (k - 1) as nat);
    }
}

/// The reduced augmented matrix of a lifted base graph.
pub struct ParityGenerator {
    m: usize,
    k: usize,
    rows: Vec<Vec<u64>>,
}

impl ParityGenerator {
    /// The generator belongs to the lifted base graph.
    pub closed spec fn wf(&self, p: QcLdpcParams) -> bool {
        let n = (p.num_col_blocks * p.z) as nat;
        &&& p.wf()
        &&& self.m == p.num_row_blocks * p.z
        &&& self.k == (p.num_col_blocks - p.num_row_blocks) * p.z
        &&& self.rows@.len() == self.m
        &&& forall|r: int| 0 <= r < self.m ==> n <= #[trigger] self.rows@[r]@.len() * 64
        &&& reduced(self.rows@, self.m as int)
        &&& forall|x: Seq<bool>|
            x.len() == n ==> #[trigger] solves(self.rows@, x, n) == checks_vanish(p, x)
    }

    /// Builds the augmented matrix and reduces its parity columns; fails when
    /// they are dependent.
    pub fn build(p: &QcLdpcParams) -> (r: Result<ParityGenerator, FecError>)
        requires
            p.wf(),
        ensures
            match r {
                Ok(g) => g.wf(*p) && !parity_ambiguous(*p),
                Err(e) => parity_ambiguous(*p) && e == FecError::InvalidParam(
                    "parity matrix is singular — cannot encode",
                ),
            },
    {
        proof {
            lemma_sizes(*p);
        }
        let z: usize = p.z;
        let k: usize = (p.num_col_blocks - p.num_row_blocks) * z;
        let m: usize = p.num_row_blocks * z;
        let n: usize = m + k;
        let words: usize = (n + 63) / 64;
        let mut rows: Vec<Vec<u64>> = Vec::new();
        let mut q: usize = 0;
        while q < m
            invariant
                p.wf(),
                m == p.num_row_blocks * p.z,
                n == p.num_col_blocks * p.z,
                n <= words * 64,
                words <= 1000,
                q <= m,
                rows@.len() == q,
                shaped(rows@, words as nat),
                forall|r: int| 0 <= r < q ==> is_check_row(*p, #[trigger] rows@[r]@, r),
            decreases m - q,
        {
            let row: Vec<u64> = check_row(p, q, words);
            rows.push(row);
            q = q + 1;
        }
        let ghost start = rows@;
        proof {
            assert forall|x: Seq<bool>| x.len() == n implies #[trigger] solves(start, x, n as nat)
                == checks_vanish(*p, x) by {
                lemma_rows_are_checks(*p, start, x);
            }
        }
        let ok: bool = eliminate(&mut rows, m, words, n);
        if !ok {
            proof {
                let x = choose|x: Seq<bool>| #[trigger]
                    dependent(start, x, m as int, n as nat);
                assert(solves(start, x, n as nat) == checks_vanish(*p, x));
                let w = word_of(*p, x);
                lemma_word_of(*p, x);
                lemma_checks_vanish(*p, w);
                lemma_low_bits(w);
                let j = choose|j: int| 0 <= j < m && x[j];
                assert(column(*p, k + j) == j);
                assert(w[k + j] == 1);
                assert(ambiguous_word(*p, w));
            }
            return Err(FecError::InvalidParam("parity matrix is singular — cannot encode"));
        }
        let g: ParityGenerator = ParityGenerator { m, k, rows };
        proof {
            assert forall|x: Seq<bool>| x.len() == n implies #[trigger] solves(
                g.rows@,
                x,
                n as nat,
            ) == checks_vanish(*p, x) by {
                assert(solves(g.rows@, x, n as nat) == solves(start, x, n as nat));
            }
            assert(g.wf(*p));
            if parity_ambiguous(*p) {
                let w = choose|w: Seq<u8>| #[trigger] ambiguous_word(*p, w);
                let x = vector_of(*p, w);
                lemma_checks_vanish(*p, w);
                lemma_low_bits(w);
                assert(solves(g.rows@, x, n as nat));
                let i = choose|i: int| k <= i < w.len() && w[i] != 0;
                let j = i - k;
                let s = Seq::new(k as nat, |t: int| false);
                assert forall|t: int| 0 <= t < k implies #[trigger] s[t] == x[m + t] by {
                    lemma_low_bit(w[t]);
                }
                lemma_dot_split(g.rows@[j]@, x, s, m as nat, k as nat);
                assert forall|q: int| 0 <= q < m implies #[trigger] bit(g.rows@[j]@, q) == (q
                    == j) by {
                    assert(bit(g.rows@[j]@, q) == (j == q));
                }
                lemma_dot_unit(g.rows@[j]@, x, j, m as nat);
                lemma_info_dot_zero(g.rows@[j]@, s, m as int, k as nat);
                assert(!dot(g.rows@[j]@, x, n as nat));
                lemma_low_bit(w[i]);
                assert(w[i] <= 1);
                assert(x[j]);
                assert(false);
            }
        }
        Ok(g)
    }

    /// The parity bits of the low bits of the information.
    pub fn apply(&self, Ghost(p): Ghost<QcLdpcParams>, systematic: &[u8]) -> (parity: Vec<u8>)
        requires
            self.wf(p),
            systematic@.len() == (p.num_col_blocks - p.num_row_blocks) * p.z,
        ensures
            is_bits(parity@),
            parity@.len() == p.num_row_blocks * p.z,
            p.satisfied(low_bits(systematic@ + parity@)),
    {
        let ghost n = (p.num_col_blocks * p.z) as nat;
        let ghost s = Seq::new(systematic@.len(), |j: int| systematic@[j] & 1 == 1);
        proof {
            lemma_sizes(p);
        }
        let mut parity: Vec<u8> = Vec::new();
        let mut i: usize = 0;
        while i < self.m
            invariant
                self.wf(p),
                n == p.num_col_blocks * p.z,
                n == self.m + self.k,
                n <= 26112,
                systematic@.len() == self.k,
                s == Seq::new(systematic@.len(), |j: int| systematic@[j] & 1 == 1),
                i <= self.m,
                parity@.len() == i,
                forall|r: int|
                    0 <= r < i ==> #[trigger] parity@[r] == if info_dot(
                        self.rows@[r]@,
                        s,
                        self.m as int,
                        self.k as nat,
                    ) {
                        1u8
                    } else {
                        0u8
                    },
            decreases self.m - i,
        {
            let mut acc: bool = false;
            let mut j: usize = 0;
            assert(n <= self.rows@[i as int]@.len() * 64);
            while j < self.k
                invariant
                    self.wf(p),
                    i < self.m,
                    n <= self.rows@[i as int]@.len() * 64,
                    n == self.m + self.k,
                    n <= 26112,
                    systematic@.len() == self.k,
                    s == Seq::new(systematic@.len(), |j: int| systematic@[j] & 1 == 1),
                    j <= self.k,
                    acc == info_dot(self.rows@[i as int]@, s, self.m as int, j as nat),
                decreases self.k - j,
            {
                let b: bool = gf_bit_get(&self.rows[i], self.m + j);
                let v: bool = systematic[j] & 1 == 1;
                acc = acc != (b && v);
                j = j + 1;
            }
            parity.push(
                if acc {
                    1
                } else {
                    0
                },
            );
            i = i + 1;
        }
        proof {
            let w = systematic@ + parity@;
            let x = vector_of(p, w);
            assert(is_bits(parity@)) by {
                assert forall|r: int| 0 <= r < parity@.len() implies #[trigger] parity@[r]
                    <= 1 by {}
            }
            assert(solves(self.rows@, x, n)) by {
                assert forall|r: int| 0 <= r < self.rows@.len() implies !dot(
                    #[trigger] self.rows@[r]@,
                    x,
                    n,
                ) by {
                    let row = self.rows@[r]@;
                    assert forall|t: int| 0 <= t < self.k implies #[trigger] s[t] == x[self.m
                        + t] by {}
                    lemma_dot_split(row, x, s, self.m as nat, self.k as nat);
                    assert forall|q: int| 0 <= q < self.m implies #[trigger] bit(row, q) == (q
                        == r) by {
                        assert(bit(self.rows@[r]@, q) == (r == q));
                    }
                    lemma_dot_unit(row, x, r, self.m as nat);
                    lemma_low_bit(parity@[r]);
                    assert(w[self.k + r] == parity@[r]);
                }
            }
            lemma_checks_vanish(p, w);
        }
        parity
    }
}

proof fn lemma_info_dot_zero(row: Seq<u64>, s: Seq<bool>, m: int, k: nat)
    requires
        s.len() >= k,
        forall|j: int| 0 <= j < k ==> !s[j],
    ensures
        !info_dot(row, s, m, k),
    decreases k,
{
    if k > 0 {
        lemma_info_dot_zero(row, s, m, (k - 1) as nat);
        assert(!s[k - 1]);
    }
}

proof fn lemma_rows_are_checks(p: QcLdpcParams, rows: Seq<Vec<u64>>, x: Seq<bool>)
    requires
        p.wf(),
        rows.len() == p.num_row_blocks * p.z,
        x.len() == p.num_col_blocks * p.z,
        forall|r: int| 0 <= r < rows.len() ==> is_check_row(p, #[trigger] rows[r]@, r),
    ensures
        solves(rows, x, (p.num_col_blocks * p.z) as nat) == checks_vanish(p, x),
{
    let n = (p.num_col_blocks * p.z) as nat;
    let z = p.z as int;
    if checks_vanish(p, x) {
        assert forall|q: int| 0 <= q < rows.len() implies !dot(#[trigger] rows[q]@, x, n) by {
            assert(is_check_row(p, rows[q]@, q));
            assert(0 <= q / z < p.num_row_blocks) by (nonlinear_arith)
                requires
                    0 <= q < p.num_row_blocks * z,
                    z > 0,
            ;
            let r = q / z;
            let i = q % z;
            assert(!edge_sum(
                p,
                x,
                i,
                p.layer_offsets@[r] as int,
                p.layer_offsets@[r + 1] as int,
            ));
        }
    }
    if solves(rows, x, n) {
        assert forall|r: int, i: int|
            0 <= r < p.num_row_blocks && 0 <= i < p.z implies !#[trigger] edge_sum(
            p,
            x,
            i,
            p.layer_offsets@[r] as int,
            p.layer_offsets@[r + 1] as int,
        ) by {
            let q = r * z + i;
            assert(0 <= q < p.num_row_blocks * z) by (nonlinear_arith)
                requires
                    q == r * z + i,
                    0 <= r < p.num_row_blocks,
                    0 <= i < z,
            ;
            vstd::arithmetic::div_mod::lemma_fundamental_div_mod_converse(q, z, r, i);
            assert(is_check_row(p, rows[q]@, q));
            assert(!dot(rows[q]@, x, n));
        }
    }
}

} // verus!
