//! The extended binary Golay code: 12 information bits, 24 code bits,
//! minimum distance 8.
//!
//! A word is held in the low 24 bits of a number, the information in bits
//! 0 to 11 and the parity in bits 12 to 23. The parity is the information
//! times a matrix made of the quadratic residues of 11, bordered by ones.

use crate::error::FecError;
use vstd::prelude::*;

verus! {

/// Number of information bits.
pub const GOLAY_K: usize = 12;

/// Number of code bits.
pub const GOLAY_N: usize = 24;

/// Minimum distance.
pub const GOLAY_D: usize = 8;

/// Table entry of a syndrome that no pattern of at most three errors has.
pub const UNCORRECTABLE: u32 = 0xFFFF_FFFF;

/// The square of a number modulo 11.
pub open spec fn square(i: int) -> int {
    (i * i) % 11
}

/// `r` is a nonzero square modulo 11.
pub open spec fn is_residue(r: int) -> bool {
    exists|i: int| 1 <= i < 11 && #[trigger] square(i) == r
}

/// Entry of the bordered matrix.
pub open spec fn border(i: int, j: int) -> bool {
    if i == 11 || j == 11 {
        i != j
    } else {
        i == j || is_residue((i - j) % 11)
    }
}

/// Row `i` of the matrix as a number.
pub open spec fn b_row(i: u32) -> u32 {
    if i == 0 {
        0xDC5
    } else if i == 1 {
        0xB8B
    } else if i == 2 {
        0xF16
    } else if i == 3 {
        0xE2D
    } else if i == 4 {
        0xC5B
    } else if i == 5 {
        0x8B7
    } else if i == 6 {
        0x96E
    } else if i == 7 {
        0xADC
    } else if i == 8 {
        0xDB8
    } else if i == 9 {
        0xB71
    } else if i == 10 {
        0xEE2
    } else {
        0x7FF
    }
}

/// Row `k` of the transposed matrix as a number.
pub open spec fn b_column(i: u32) -> u32 {
    if i == 0 {
        0xA3B
    } else if i == 1 {
        0xC76
    } else if i == 2 {
        0x8ED
    } else if i == 3 {
        0x9DA
    } else if i == 4 {
        0xBB4
    } else if i == 5 {
        0xF68
    } else if i == 6 {
        0xED1
    } else if i == 7 {
        0xDA3
    } else if i == 8 {
        0xB47
    } else if i == 9 {
        0xE8E
    } else if i == 10 {
        0xD1D
    } else {
        0x7FF
    }
}

/// Row `i` where bit `i` of the message is set.
pub open spec fn picked_row(m: u32, i: u32) -> u32 {
    if (m >> i) & 1 == 1 {
        b_row(i)
    } else {
        0
    }
}

/// The parity bits of a message: the sum of the rows that it picks.
pub open spec fn golay_parity(m: u32) -> u32 {
    picked_row(m, 0) ^ picked_row(m, 1) ^ picked_row(m, 2) ^ picked_row(m, 3) ^ picked_row(m, 4)
        ^ picked_row(m, 5) ^ picked_row(m, 6) ^ picked_row(m, 7) ^ picked_row(m, 8)
        ^ picked_row(m, 9) ^ picked_row(m, 10) ^ picked_row(m, 11)
}

/// The word of a message.
pub open spec fn golay_word(m: u32) -> u32 {
    m | (golay_parity(m) << 12)
}

/// The word that all checks see as zero: parity received plus parity
/// expected.
pub open spec fn golay_syndrome(w: u32) -> u32 {
    (w >> 12) ^ golay_parity(w & 0xFFF)
}

/// A word of the code.
pub open spec fn is_golay_word(w: u32) -> bool {
    w < 0x100_0000 && golay_syndrome(w) == 0
}

/// Number of ones among the low `n` bits.
pub open spec fn ones(w: u32, n: nat) -> nat
    decreases n,
{
    if n == 0 {
        0
    } else {
        ones(w, (n - 1) as nat) + ((w >> ((n - 1) as u32)) & 1) as nat
    }
}

/// Number of ones of a number.
pub open spec fn weight(w: u32) -> nat {
    ones(w, 32)
}

/// The number of ones, as a sum over the bits.
pub open spec fn weight_sum(w: u32) -> u32 {
    let s = ((w >> 0) & 1) + ((w >> 1) & 1) + ((w >> 2) & 1) + ((w >> 3) & 1) + ((w >> 4) & 1)
        + ((w >> 5) & 1) + ((w >> 6) & 1) + ((w >> 7) & 1) + ((w >> 8) & 1) + ((w >> 9) & 1)
        + ((w >> 10) & 1) + ((w >> 11) & 1) + ((w >> 12) & 1) + ((w >> 13) & 1) + ((w >> 14) & 1)
        + ((w >> 15) & 1) + ((w >> 16) & 1) + ((w >> 17) & 1) + ((w >> 18) & 1) + ((w >> 19) & 1)
        + ((w >> 20) & 1) + ((w >> 21) & 1) + ((w >> 22) & 1) + ((w >> 23) & 1) + ((w >> 24) & 1)
        + ((w >> 25) & 1) + ((w >> 26) & 1) + ((w >> 27) & 1) + ((w >> 28) & 1) + ((w >> 29) & 1)
        + ((w >> 30) & 1) + ((w >> 31) & 1);
    s as u32
}

/// The sum of the bits modulo two.
pub open spec fn parity_sum(w: u32) -> u32 {
    ((w >> 0) ^ (w >> 1) ^ (w >> 2) ^ (w >> 3) ^ (w >> 4) ^ (w >> 5) ^ (w >> 6) ^ (w >> 7)
        ^ (w >> 8) ^ (w >> 9) ^ (w >> 10) ^ (w >> 11) ^ (w >> 12) ^ (w >> 13) ^ (w >> 14)
        ^ (w >> 15) ^ (w >> 16) ^ (w >> 17) ^ (w >> 18) ^ (w >> 19) ^ (w >> 20) ^ (w >> 21)
        ^ (w >> 22) ^ (w >> 23) ^ (w >> 24) ^ (w >> 25) ^ (w >> 26) ^ (w >> 27) ^ (w >> 28)
        ^ (w >> 29) ^ (w >> 30) ^ (w >> 31)) & 1
}

/// The low `n` bits of a number.
pub open spec fn low(v: u32, n: u32) -> u32 {
    v & (((1u32 << n) - 1) as u32)
}

/// Row `i` of the generator matrix.
pub open spec fn g_row(i: u32) -> u32 {
    (1u32 << i) | (b_row(i) << 12)
}

/// Row `k` of the parity-check matrix.
pub open spec fn h_row(k: u32) -> u32 {
    b_column(k) | (1u32 << ((12 + k) as u32))
}

/// A pattern of at most three errors.
pub open spec fn small(e: u32) -> bool {
    e < 0x100_0000 && weight(e) <= 3
}

/// Facts about single bits.
proof fn lemma_bit(a: u32, b: u32, i: u32, j: u32)
    by (bit_vector)
    requires
        i < 32,
        j < 32,
    ensures
        ((a ^ b) >> i) & 1 <= ((a >> i) & 1) + ((b >> i) & 1),
        ((a | b) >> i) & 1 <= ((a >> i) & 1) + ((b >> i) & 1),
        ((1u32 << j) >> i) & 1 == (if i == j {
            1u32
        } else {
            0u32
        }),
        ((a ^ (1u32 << j)) >> i) & 1 == (if i == j {
            (1 - ((a >> i) & 1)) as u32
        } else {
            (a >> i) & 1
        }),
        (a >> i) & 1 <= 1,
        (0u32 >> i) & 1 == 0,
        i < 31 ==> low(a, (i + 1) as u32) == low(a, i) | (((a >> i) & 1) << i),
        i < 31 ==> (low(a, (i + 1) as u32) >> i) & 1 == (a >> i) & 1,
        low(a, 0) == 0,
        a < 4096 ==> low(a, 12) == a,
        (a < 4096) == (low(a, 12) == a),
        (a < 0x100_0000) == (low(a, 24) == a),
        a | 0 == a,
        0 | a == a,
        0 ^ a == a,
        a ^ 0 == a,
        a ^ a == 0,
        a ^ (a ^ b) == b,
        (a ^ b) ^ b == a,
        (a ^ b) ^ a == b,
        (a == b) == (a ^ b == 0),
        1u32 << i != 0,
        0u32 << i == 0,
        i < 24 ==> (1u32 << i) < 0x100_0000,
        a < 0x100_0000 && b < 0x100_0000 ==> a | b < 0x100_0000,
        a < 0x100_0000 && b < 0x100_0000 ==> a ^ b < 0x100_0000,
        a & 0xFFF < 4096,
        j <= i && i < 24 && low(a, j) == a ==> (a >> i) & 1 == 0,
        i >= 24 && a < 0x100_0000 ==> (a >> i) & 1 == 0,
        i <= 24 && low(a, i) == a ==> a < 0x100_0000,
        weight_sum(a) & 1 == parity_sum(a),
        weight_sum(a) % 2 == weight_sum(a) & 1,
{
}

/// Every nonzero word has at least eight ones, and the number of ones is a
/// multiple of four.
proof fn lemma_word_weight(m: u32)
    by (bit_vector)
    requires
        m < 4096,
    ensures
        m != 0 ==> weight_sum(golay_word(m)) >= 8,
        weight_sum(golay_word(m)) % 4 == 0,
        weight_sum(golay_word(m)) <= 24,
        weight_sum(golay_word(m)) != 20,
        golay_word(0) == 0,
        golay_word(m) < 0x100_0000,
        golay_word(m) & 0xFFF == m,
        golay_syndrome(golay_word(m)) == 0,
{
}

/// The syndrome is linear.
proof fn lemma_syndrome(a: u32, b: u32)
    by (bit_vector)
    requires
        a < 0x100_0000,
        b < 0x100_0000,
    ensures
        golay_syndrome(a ^ b) == golay_syndrome(a) ^ golay_syndrome(b),
        golay_syndrome(a) < 4096,
        golay_syndrome(a) == 0 ==> a == golay_word(a & 0xFFF),
{
}

/// Bit `k` of the syndrome is the parity on row `k` of the check matrix.
proof fn lemma_check_bit(e: u32, k: u32)
    by (bit_vector)
    requires
        e < 0x100_0000,
        k < 12,
    ensures
        parity_sum(e & h_row(k)) == (golay_syndrome(e) >> k) & 1,
{
}

/// The tables of rows and columns hold the bordered matrix, and the rows of
/// the generator matrix are orthogonal to each other and to the check rows.
proof fn lemma_rows(i: u32, j: u32)
    by (bit_vector)
    requires
        i < 12,
        j < 12,
    ensures
        ((b_row(i) >> j) & 1 == 1) == (if i == 11 || j == 11 {
            i != j
        } else {
            i == j || (i + 11 - j) % 11 == 1 || (i + 11 - j) % 11 == 3 || (i + 11 - j) % 11 == 4 || (
            i + 11 - j) % 11 == 5 || (i + 11 - j) % 11 == 9
        }),
        (b_column(j) >> i) & 1 == (b_row(i) >> j) & 1,
        b_row(i) < 4096,
        b_column(i) < 4096,
        parity_sum(g_row(i) & g_row(j)) == 0,
        parity_sum(g_row(i) & h_row(j)) == 0,
        (b_row(i) >> j) & 1 <= 1,
        i < 11 ==> low(b_row(i), 11) | (1u32 << 11) == b_row(i),
        b_row(11) == (1u32 << 11) - 1,
        g_row(i) < 0x100_0000,
        h_row(i) < 0x100_0000,
{
}

/// The nonzero squares modulo 11.
pub proof fn lemma_residues(r: int)
    requires
        0 <= r < 11,
    ensures
        is_residue(r) <==> (r == 1 || r == 3 || r == 4 || r == 5 || r == 9),
{
    assert(square(1) == 1 && square(2) == 4 && square(3) == 9 && square(4) == 5 && square(5) == 3
        && square(6) == 3 && square(7) == 5 && square(8) == 9 && square(9) == 4 && square(10) == 1);
    if is_residue(r) {
        let i = choose|i: int| 1 <= i < 11 && #[trigger] square(i) == r;
        assert(i == 1 || i == 2 || i == 3 || i == 4 || i == 5 || i == 6 || i == 7 || i == 8 || i == 9
            || i == 10);
    }
}

/// Entry `j` of row `i` is the bordered matrix's entry, and the columns are
/// the rows of the transposed matrix.
pub proof fn lemma_border(i: u32, j: u32)
    requires
        i < 12,
        j < 12,
    ensures
        ((b_row(i) >> j) & 1 == 1) == border(i as int, j as int),
        (b_column(j) >> i) & 1 == (b_row(i) >> j) & 1,
{
    lemma_rows(i, j);
    if i < 11 && j < 11 {
        lemma_residues((i - j) % 11);
        assert((i - j) % 11 == (i + 11 - j) % 11);
    }
}

/// The recursive count of ones is the sum over the bits.
pub proof fn lemma_ones_sum(w: u32)
    ensures
        weight(w) == weight_sum(w),
        weight(w) % 2 == parity_sum(w),
{
    reveal_with_fuel(ones, 33);
    lemma_bit(w, 0, 0, 0);
    lemma_bit(w, 0, 1, 0);
    lemma_bit(w, 0, 2, 0);
    lemma_bit(w, 0, 3, 0);
    lemma_bit(w, 0, 4, 0);
    lemma_bit(w, 0, 5, 0);
    lemma_bit(w, 0, 6, 0);
    lemma_bit(w, 0, 7, 0);
    lemma_bit(w, 0, 8, 0);
    lemma_bit(w, 0, 9, 0);
    lemma_bit(w, 0, 10, 0);
    lemma_bit(w, 0, 11, 0);
    lemma_bit(w, 0, 12, 0);
    lemma_bit(w, 0, 13, 0);
    lemma_bit(w, 0, 14, 0);
    lemma_bit(w, 0, 15, 0);
    lemma_bit(w, 0, 16, 0);
    lemma_bit(w, 0, 17, 0);
    lemma_bit(w, 0, 18, 0);
    lemma_bit(w, 0, 19, 0);
    lemma_bit(w, 0, 20, 0);
    lemma_bit(w, 0, 21, 0);
    lemma_bit(w, 0, 22, 0);
    lemma_bit(w, 0, 23, 0);
    lemma_bit(w, 0, 24, 0);
    lemma_bit(w, 0, 25, 0);
    lemma_bit(w, 0, 26, 0);
    lemma_bit(w, 0, 27, 0);
    lemma_bit(w, 0, 28, 0);
    lemma_bit(w, 0, 29, 0);
    lemma_bit(w, 0, 30, 0);
    lemma_bit(w, 0, 31, 0);
}

/// The generator rows are orthogonal to each other: the code is its own
/// dual.
pub proof fn lemma_self_dual(i: u32, j: u32)
    requires
        i < 12,
        j < 12,
    ensures
        weight(g_row(i) & g_row(j)) % 2 == 0,
{
    lemma_rows(i, j);
    lemma_ones_sum(g_row(i) & g_row(j));
}

/// The generator rows are orthogonal to the check rows.
pub proof fn lemma_checks_vanish(i: u32, k: u32)
    requires
        i < 12,
        k < 12,
    ensures
        weight(g_row(i) & h_row(k)) % 2 == 0,
{
    lemma_rows(i, k);
    lemma_ones_sum(g_row(i) & h_row(k));
}

/// A nonzero word of the code has 8, 12, 16 or 24 ones.
pub proof fn lemma_min_distance(c: u32)
    requires
        is_golay_word(c),
        c != 0,
    ensures
        weight(c) >= GOLAY_D,
        weight(c) == 8 || weight(c) == 12 || weight(c) == 16 || weight(c) == 24,
{
    lemma_syndrome(c, 0);
    lemma_bit(c, 0, 0, 0);
    lemma_word_weight(c & 0xFFF);
    lemma_ones_sum(c);
}

proof fn lemma_ones_add(a: u32, b: u32, n: nat)
    requires
        n <= 32,
    ensures
        ones(a ^ b, n) <= ones(a, n) + ones(b, n),
        ones(a | b, n) <= ones(a, n) + ones(b, n),
    decreases n,
{
    if n > 0 {
        lemma_ones_add(a, b, (n - 1) as nat);
        lemma_bit(a, b, (n - 1) as u32, 0);
    }
}

proof fn lemma_ones_single(j: u32, n: nat)
    requires
        n <= 32,
        j < 32,
    ensures
        ones(1u32 << j, n) == (if j < n {
            1nat
        } else {
            0nat
        }),
    decreases n,
{
    if n > 0 {
        lemma_ones_single(j, (n - 1) as nat);
        lemma_bit(0, 0, (n - 1) as u32, j);
    }
}

proof fn lemma_ones_zero(n: nat)
    requires
        n <= 32,
    ensures
        ones(0, n) == 0,
    decreases n,
{
    if n > 0 {
        lemma_ones_zero((n - 1) as nat);
        lemma_bit(0, 0, (n - 1) as u32, 0);
    }
}

/// Two patterns of at most three errors with one syndrome are equal.
proof fn lemma_small_unique(e: u32, f: u32)
    requires
        small(e),
        small(f),
        golay_syndrome(e) == golay_syndrome(f),
    ensures
        e == f,
{
    lemma_syndrome(e, f);
    lemma_bit(golay_syndrome(e), golay_syndrome(f), 0, 0);
    lemma_bit(e, f, 0, 0);
    lemma_ones_add(e, f, 32);
    if e ^ f != 0 {
        lemma_min_distance(e ^ f);
    }
}

/// Numbers with the same low bits agree below them.
pub proof fn lemma_same_bits(a: u32, b: u32, n: u32)
    requires
        n <= 24,
        forall|i: u32| i < n ==> #[trigger] ((a >> i) & 1) == (b >> i) & 1,
    ensures
        low(a, n) == low(b, n),
    decreases n,
{
    if n == 0 {
        lemma_bit(a, 0, 0, 0);
        lemma_bit(b, 0, 0, 0);
    } else {
        let i = (n - 1) as u32;
        lemma_same_bits(a, b, i);
        lemma_bit(a, 0, i, 0);
        lemma_bit(b, 0, i, 0);
        assert((a >> i) & 1 == (b >> i) & 1);
        assert((i + 1) as u32 == n);
    }
}

/// Bits packed into a number, the first bit lowest.
pub open spec fn packed(bits: Seq<u8>, n: nat) -> u32
    decreases n,
{
    if n == 0 {
        0
    } else {
        packed(bits, (n - 1) as nat) | (((bits[n - 1] & 1) as u32) << ((n - 1) as u32))
    }
}

/// The low `n` bits of a number, the lowest first.
pub open spec fn unpacked(v: u32, n: nat) -> Seq<u8> {
    Seq::new(n, |i: int| ((v >> (i as u32)) & 1) as u8)
}

proof fn lemma_pack_step(v: u32, b: u8, n: u32, i: u32)
    by (bit_vector)
    requires
        n < 24,
        low(v, n) == v,
        i <= n,
    ensures
        low(v | (((b & 1) as u32) << n), (n + 1) as u32) == v | (((b & 1) as u32) << n),
        ((v | (((b & 1) as u32) << n)) >> i) & 1 == (if i == n {
            (b & 1) as u32
        } else {
            (v >> i) & 1
        }),
        b & 1 <= 1,
        n <= 23 ==> low(v, 24) == v,
{
}

/// Packed bits fit, and bit `i` is the low bit of entry `i`.
pub proof fn lemma_packed(bits: Seq<u8>, n: nat, i: u32)
    requires
        n <= 24,
    ensures
        low(packed(bits, n), n as u32) == packed(bits, n),
        i < n ==> (packed(bits, n) >> i) & 1 == (bits[i as int] & 1) as u32,
    decreases n,
{
    lemma_bit(0, 0, 0, 0);
    if n > 0 {
        let m = (n - 1) as u32;
        lemma_packed(bits, (n - 1) as nat, i);
        lemma_pack_step(packed(bits, (n - 1) as nat), bits[n - 1], m, if i <= m {
            i
        } else {
            0
        });
        assert((m + 1) as u32 == n as u32);
    }
}

/// Flipping a bit flips it in the packed number.
pub proof fn lemma_packed_flip(bits: Seq<u8>, n: nat, i: int)
    requires
        n <= 24,
        n <= bits.len(),
        0 <= i < n,
    ensures
        packed(bits.update(i, bits[i] ^ 1), n) == packed(bits, n) ^ (1u32 << (i as u32)),
{
    let flipped = bits.update(i, bits[i] ^ 1);
    let a = packed(flipped, n);
    let v = packed(bits, n);
    let b = v ^ (1u32 << (i as u32));
    assert forall|j: u32| j < 24 implies #[trigger] ((a >> j) & 1) == (b >> j) & 1 by {
        lemma_bit(v, 0, j, i as u32);
        lemma_packed(flipped, n, j);
        lemma_packed(bits, n, j);
        crate::bits::lemma_low_bit(bits[i]);
        if j < n {
            crate::bits::lemma_low_bit(bits[j as int]);
        } else {
            lemma_bit(a, 0, j, n as u32);
            lemma_bit(v, 0, j, n as u32);
        }
    }
    lemma_same_bits(a, b, 24);
    lemma_packed(flipped, n, 0);
    lemma_packed(bits, n, 0);
    lemma_bit(a, 0, n as u32, 0);
    lemma_bit(v, 1u32 << (i as u32), n as u32, 0);
    lemma_bit(0, 0, i as u32, 0);
    lemma_bit(b, 0, 0, 0);
}

/// The squares modulo 11.
pub fn quadratic_residues_mod_11() -> (is_qr: [bool; 11])
    ensures
        forall|r: int| 0 <= r < 11 ==> #[trigger] is_qr@[r] == is_residue(r),
{
    let mut is_qr: [bool; 11] = [false; 11];
    let mut i: usize = 1;
    while i < 11
        invariant
            1 <= i <= 11,
            forall|r: int|
                0 <= r < 11 ==> (#[trigger] is_qr@[r] <==> exists|k: int|
                    1 <= k < i && #[trigger] square(k) == r),
        decreases 11 - i,
    {
        assert(i * i <= 100) by (nonlinear_arith)
            requires
                i <= 10,
        ;
        let r: usize = (i * i) % 11;
        let ghost before = is_qr@;
        is_qr[r] = true;
        assert(square(i as int) == r);
        assert forall|q: int| 0 <= q < 11 implies (#[trigger] is_qr@[q] <==> exists|k: int|
            1 <= k < i + 1 && #[trigger] square(k) == q) by {
            if q != r && before[q] {
                let k = choose|k: int| 1 <= k < i && #[trigger] square(k) == q;
                assert(1 <= k < i + 1 && square(k) == q);
            }
            assert(is_qr@[q] == (q == r || before[q]));
        }
        i = i + 1;
    }
    is_qr
}

proof fn lemma_row_step(i: u32, j: u32)
    requires
        i < 11,
        j < 11,
    ensures
        low(b_row(i), (j + 1) as u32) == (if border(i as int, j as int) {
            low(b_row(i), j) | (1u32 << j)
        } else {
            low(b_row(i), j)
        }),
{
    lemma_border(i, j);
    lemma_rows(i, j);
    let v = b_row(i);
    lemma_bit(v, 0, j, 0);
    lemma_bit(low(v, j), 0, j, 0);
}

/// The rows of the bordered matrix.
pub fn build_b_rows() -> (b: [u16; 12])
    ensures
        forall|i: int| 0 <= i < 12 ==> #[trigger] b@[i] as u32 == b_row(i as u32),
{
    let is_qr: [bool; 11] = quadratic_residues_mod_11();
    let mut b: [u16; 12] = [0; 12];
    let mut i: usize = 0;
    while i < 11
        invariant
            i <= 11,
            forall|r: int| 0 <= r < 11 ==> #[trigger] is_qr@[r] == is_residue(r),
            forall|k: int| 0 <= k < i ==> #[trigger] b@[k] as u32 == b_row(k as u32),
        decreases 11 - i,
    {
        let mut row: u32 = 0;
        let mut j: usize = 0;
        proof {
            lemma_bit(b_row(i as u32), 0, 0, 0);
        }
        while j < 11
            invariant
                i < 11,
                j <= 11,
                forall|r: int| 0 <= r < 11 ==> #[trigger] is_qr@[r] == is_residue(r),
                row == low(b_row(i as u32), j as u32),
            decreases 11 - j,
        {
            let bit: bool = if i == j {
                true
            } else {
                is_qr[(i + 11 - j) % 11]
            };
            proof {
                assert((i + 11 - j) % 11 == (i - j) % 11);
                lemma_row_step(i as u32, j as u32);
            }
            if bit {
                row = row | (1u32 << (j as u32));
            }
            j = j + 1;
        }
        proof {
            lemma_rows(i as u32, 0);
        }
        b[i] = (row | (1u32 << 11)) as u16;
        i = i + 1;
    }
    proof {
        lemma_rows(11, 0);
    }
    b[11] = 0x7FF;
    assert((1u32 << 11) - 1 == 0x7FF) by {
        lemma_rows(11, 0);
        assert(b_row(11) == 0x7FF);
    }
    b
}

/// The transposed matrix.
pub fn transpose_b(b: &[u16; 12]) -> (bt: [u16; 12])
    ensures
        forall|i: int, k: int|
            0 <= i < 12 && 0 <= k < 12 ==> #[trigger] entry(bt@, k, i) == entry(b@, i, k),
        forall|k: int| 0 <= k < 12 ==> #[trigger] bt@[k] < 4096,
{
    let mut bt: [u16; 12] = [0; 12];
    let mut k: usize = 0;
    while k < 12
        invariant
            k <= 12,
            forall|i: int, c: int|
                0 <= i < 12 && 0 <= c < k ==> #[trigger] entry(bt@, c, i) == entry(b@, i, c),
            forall|c: int| 0 <= c < k ==> #[trigger] bt@[c] < 4096,
        decreases 12 - k,
    {
        let mut row: u16 = 0;
        let mut i: usize = 0;
        assert(row < 1u16 << 0u16) by {
            lemma_transpose_step(0, 0, 0, 0);
        }
        while i < 12
            invariant
                k < 12,
                i <= 12,
                row < 1u16 << (i as u16),
                forall|a: int|
                    0 <= a < i ==> #[trigger] ((row >> (a as u16)) & 1) == entry(b@, a, k as int),
            decreases 12 - i,
        {
            let bit: u16 = (b[i] >> (k as u16)) & 1;
            let next: u16 = row | (bit << (i as u16));
            proof {
                assert forall|a: int| 0 <= a < i + 1 implies #[trigger] ((next >> (a as u16)) & 1)
                    == entry(b@, a, k as int) by {
                    lemma_transpose_step(row, b@[i as int] >> (k as u16), i as u16, a as u16);
                    if a < i {
                        assert((row >> (a as u16)) & 1 == entry(b@, a, k as int));
                    }
                }
                lemma_transpose_step(row, b@[i as int] >> (k as u16), i as u16, 0);
                assert((i as u16 + 1) as u16 == (i + 1) as u16);
            }
            row = next;
            i = i + 1;
        }
        let ghost before = bt@;
        bt[k] = row;
        proof {
            lemma_transpose_step(0, 0, 0, 0);
            assert forall|i: int, c: int| 0 <= i < 12 && 0 <= c < k + 1 implies #[trigger] entry(
                bt@,
                c,
                i,
            ) == entry(b@, i, c) by {
                if c < k {
                    assert(entry(before, c, i) == entry(b@, i, c));
                } else {
                    assert((row >> (i as u16)) & 1 == entry(b@, i, k as int));
                }
            }
        }
        k = k + 1;
    }
    bt
}

/// Bit `j` of row `i`.
pub open spec fn entry(rows: Seq<u16>, i: int, j: int) -> u16 {
    (rows[i] >> (j as u16)) & 1
}

proof fn lemma_transpose_step(row: u16, x: u16, i: u16, a: u16)
    by (bit_vector)
    requires
        i < 12,
        a <= i,
    ensures
        row < 1u16 << i ==> ((row | ((x & 1) << i)) >> a) & 1 == (if a == i {
            x & 1
        } else {
            (row >> a) & 1
        }),
        row < 1u16 << i ==> row | ((x & 1) << i) < 1u16 << ((i + 1) as u16),
        1u16 << 0u16 == 1,
        1u16 << 12u16 == 4096,
        ((x >> i) & 1) as u32 == ((x as u32) >> (i as u32)) & 1,
{
}

/// The rows of the generator matrix.
pub fn build_g_rows(b: &[u16; 12]) -> (g: [u32; 12])
    ensures
        forall|i: int|
            0 <= i < 12 ==> #[trigger] g@[i] == (1u32 << (i as u32)) | ((b@[i] as u32) << 12),
{
    let mut g: [u32; 12] = [0; 12];
    let mut i: usize = 0;
    while i < 12
        invariant
            i <= 12,
            forall|k: int|
                0 <= k < i ==> #[trigger] g@[k] == (1u32 << (k as u32)) | ((b@[k] as u32) << 12),
        decreases 12 - i,
    {
        g[i] = (1u32 << (i as u32)) | ((b[i] as u32) << 12);
        i = i + 1;
    }
    g
}

/// The rows of the parity-check matrix.
pub fn build_h_rows(bt: &[u16; 12]) -> (h: [u32; 12])
    ensures
        forall|k: int|
            0 <= k < 12 ==> #[trigger] h@[k] == (bt@[k] as u32) | (1u32 << ((12 + k) as u32)),
{
    let mut h: [u32; 12] = [0; 12];
    let mut k: usize = 0;
    while k < 12
        invariant
            k <= 12,
            forall|j: int|
                0 <= j < k ==> #[trigger] h@[j] == (bt@[j] as u32) | (1u32 << ((12 + j) as u32)),
        decreases 12 - k,
    {
        h[k] = (bt[k] as u32) | (1u32 << ((12 + k) as u32));
        k = k + 1;
    }
    h
}

/// Number of ones.
pub fn count_ones(w: u32) -> (n: u32)
    ensures
        n == weight(w),
        n <= 32,
{
    let mut n: u32 = 0;
    let mut i: u32 = 0;
    while i < 32
        invariant
            i <= 32,
            n <= i,
            n == ones(w, i as nat),
        decreases 32 - i,
    {
        proof {
            lemma_bit(w, 0, i, 0);
        }
        n = n + ((w >> i) & 1);
        i = i + 1;
    }
    n
}

/// The rows are those of the parity-check matrix.
spec fn are_check_rows(h: Seq<u32>) -> bool {
    h.len() == 12 && forall|k: int| 0 <= k < 12 ==> #[trigger] h[k] == h_row(k as u32)
}

/// The syndrome of a word.
fn syndrome_of(h_rows: &[u32; 12], e: u32) -> (s: u32)
    requires
        are_check_rows(h_rows@),
        e < 0x100_0000,
    ensures
        s == golay_syndrome(e),
        s < 4096,
{
    let mut s: u32 = 0;
    let mut k: u32 = 0;
    proof {
        lemma_bit(golay_syndrome(e), 0, 0, 0);
    }
    while k < 12
        invariant
            are_check_rows(h_rows@),
            e < 0x100_0000,
            k <= 12,
            s == low(golay_syndrome(e), k),
        decreases 12 - k,
    {
        let n: u32 = count_ones(e & h_rows[k as usize]);
        proof {
            lemma_ones_sum(e & h_row(k));
            lemma_check_bit(e, k);
            lemma_bit(e & h_row(k), 0, 0, 0);
            lemma_bit(golay_syndrome(e), 0, k, 0);
        }
        s = s | ((n % 2) << k);
        k = k + 1;
    }
    proof {
        lemma_syndrome(e, 0);
        lemma_bit(golay_syndrome(e), 0, 0, 0);
    }
    s
}

/// Packs the low bits of the first `n` entries, the first one lowest.
pub fn bits_to_u32(bits: &[u8], n: usize) -> (v: u32)
    requires
        n <= 32,
        n <= bits@.len(),
    ensures
        v == packed(bits@, n as nat),
{
    let mut v: u32 = 0;
    let mut i: usize = 0;
    while i < n
        invariant
            i <= n,
            n <= 32,
            n <= bits@.len(),
            v == packed(bits@, i as nat),
        decreases n - i,
    {
        v = v | (((bits[i] & 1) as u32) << (i as u32));
        i = i + 1;
    }
    v
}

/// Writes the low `n` bits, the lowest first.
pub fn u32_to_bits(v: u32, n: usize, out: &mut [u8])
    requires
        n <= 32,
        n <= old(out)@.len(),
    ensures
        final(out)@.len() == old(out)@.len(),
        final(out)@ == unpacked(v, n as nat) + old(out)@.skip(n as int),
{
    let ghost before = out@;
    let mut i: usize = 0;
    while i < n
        invariant
            i <= n,
            n <= 32,
            n <= out@.len(),
            out@.len() == before.len(),
            forall|j: int| 0 <= j < i ==> #[trigger] out@[j] == ((v >> (j as u32)) & 1) as u8,
            forall|j: int| n <= j < before.len() ==> #[trigger] out@[j] == before[j],
        decreases n - i,
    {
        out[i] = ((v >> (i as u32)) & 1) as u8;
        i = i + 1;
    }
    assert(out@ =~= unpacked(v, n as nat) + before.skip(n as int));
}

/// One error.
pub open spec fn one(b0: u32) -> u32 {
    1u32 << b0
}

/// Two errors.
pub open spec fn two(b0: u32, b1: u32) -> u32 {
    (1u32 << b0) | (1u32 << b1)
}

/// Three errors.
pub open spec fn three(b0: u32, b1: u32, b2: u32) -> u32 {
    (1u32 << b0) | (1u32 << b1) | (1u32 << b2)
}

proof fn lemma_patterns_small(b0: u32, b1: u32, b2: u32)
    requires
        b0 < 24,
        b1 < 24,
        b2 < 24,
    ensures
        small(0),
        small(one(b0)),
        small(two(b0, b1)),
        small(three(b0, b1, b2)),
{
    lemma_ones_zero(32);
    lemma_ones_single(b0, 32);
    lemma_ones_single(b1, 32);
    lemma_ones_single(b2, 32);
    lemma_ones_add(1u32 << b0, 1u32 << b1, 32);
    lemma_ones_add((1u32 << b0) | (1u32 << b1), 1u32 << b2, 32);
    lemma_bit(0, 0, b0, 0);
    lemma_bit(0, 0, b1, 0);
    lemma_bit(0, 0, b2, 0);
    lemma_bit(1u32 << b0, 1u32 << b1, 0, 0);
    lemma_bit((1u32 << b0) | (1u32 << b1), 1u32 << b2, 0, 0);
}

/// The highest one among the low `n` bits.
proof fn lemma_top(e: u32, n: nat) -> (b: u32)
    requires
        n <= 24,
    ensures
        ones(e, n) == 0 ==> low(e, n as u32) == 0,
        ones(e, n) > 0 ==> b < n && ones(e, b as nat) == ones(e, n) - 1 && low(e, n as u32) == low(
            e,
            b,
        ) | (1u32 << b),
    decreases n,
{
    if n == 0 {
        lemma_bit(e, 0, 0, 0);
        0
    } else {
        let m = (n - 1) as u32;
        lemma_bit(e, 0, m, 0);
        assert((m + 1) as u32 == n as u32);
        let b = lemma_top(e, (n - 1) as nat);
        lemma_bit(low(e, m), 0, m, 0);
        if (e >> m) & 1 == 1 {
            m
        } else {
            b
        }
    }
}

proof fn lemma_low_ones(e: u32, n: nat)
    requires
        24 <= n <= 32,
        e < 0x100_0000,
    ensures
        ones(e, n) == ones(e, 24),
    decreases n,
{
    if n > 24 {
        lemma_low_ones(e, (n - 1) as nat);
        lemma_bit(e, 0, (n - 1) as u32, 0);
    }
}

/// Every pattern of at most three errors is among the enumerated ones.
pub proof fn lemma_patterns_complete(e: u32) -> (b: (u32, u32, u32))
    requires
        small(e),
    ensures
        e == 0 || (b.0 < 24 && e == one(b.0)) || (b.0 < b.1 < 24 && e == two(b.0, b.1)) || (b.0 < b.1
            < b.2 < 24 && e == three(b.0, b.1, b.2)),
{
    lemma_low_ones(e, 32);
    lemma_bit(e, 0, 0, 0);
    let k = ones(e, 24);
    let x = lemma_top(e, 24);
    if k == 0 {
        (0, 0, 0)
    } else {
        let y = lemma_top(e, x as nat);
        lemma_bit(1u32 << x, 0, 0, 0);
        if k == 1 {
            (x, 0, 0)
        } else {
            let z = lemma_top(e, y as nat);
            lemma_bit(1u32 << y, 0, 0, 0);
            if k == 2 {
                (y, x, 0)
            } else {
                let t = lemma_top(e, z as nat);
                lemma_bit(1u32 << z, 0, 0, 0);
                (z, y, x)
            }
        }
    }
}

/// The table's entry for a pattern's syndrome is the pattern.
spec fn holds(table: Seq<u32>, e: u32) -> bool {
    small(e) && table[golay_syndrome(e) as int] == e
}

/// Every entry is the mark, or a pattern with the entry's syndrome.
spec fn sound(table: Seq<u32>) -> bool {
    table.len() == 4096 && forall|s: int|
        0 <= s < 4096 ==> #[trigger] table[s] == UNCORRECTABLE || (small(table[s])
            && golay_syndrome(table[s]) == s)
}

fn record(table: &mut Vec<u32>, h_rows: &[u32; 12], e: u32)
    requires
        are_check_rows(h_rows@),
        small(e),
        sound(old(table)@),
    ensures
        sound(final(table)@),
        holds(final(table)@, e),
        forall|f: u32| #[trigger] holds(old(table)@, f) ==> holds(final(table)@, f),
{
    let ghost before = table@;
    let s: u32 = syndrome_of(h_rows, e);
    table.set(s as usize, e);
    proof {
        assert forall|f: u32| #[trigger] holds(before, f) implies holds(table@, f) by {
            lemma_syndrome(f, 0);
            if golay_syndrome(f) == s {
                lemma_small_unique(e, f);
            }
        }
    }
}

/// The table of coset leaders of at most three errors.
fn build_syndrome_table(h_rows: &[u32; 12]) -> (table: Vec<u32>)
    requires
        are_check_rows(h_rows@),
    ensures
        sound(table@),
        forall|e: u32| small(e) ==> #[trigger] holds(table@, e),
{
    let mut table: Vec<u32> = Vec::new();
    let mut i: usize = 0;
    while i < 4096
        invariant
            i <= 4096,
            table@.len() == i,
            forall|s: int| 0 <= s < i ==> #[trigger] table@[s] == UNCORRECTABLE,
        decreases 4096 - i,
    {
        table.push(UNCORRECTABLE);
        i = i + 1;
    }
    proof {
        lemma_patterns_small(0, 0, 0);
    }
    record(&mut table, h_rows, 0);
    let mut b: u32 = 0;
    while b < 24
        invariant
            b <= 24,
            are_check_rows(h_rows@),
            sound(table@),
            holds(table@, 0),
            forall|a: u32| a < b ==> holds(table@, #[trigger] one(a)),
        decreases 24 - b,
    {
        proof {
            lemma_patterns_small(b, 0, 0);
        }
        record(&mut table, h_rows, 1u32 << b);
        assert(holds(table@, one(b)));
        b = b + 1;
    }
    let mut b0: u32 = 0;
    while b0 < 24
        invariant
            b0 <= 24,
            are_check_rows(h_rows@),
            sound(table@),
            holds(table@, 0),
            forall|a: u32| a < 24 ==> holds(table@, #[trigger] one(a)),
            forall|a: u32, c: u32| a < b0 && a < c < 24 ==> holds(table@, #[trigger] two(a, c)),
        decreases 24 - b0,
    {
        let mut b1: u32 = b0 + 1;
        while b1 < 24
            invariant
                b0 < b1 <= 24,
                are_check_rows(h_rows@),
                sound(table@),
                holds(table@, 0),
                forall|a: u32| a < 24 ==> holds(table@, #[trigger] one(a)),
                forall|a: u32, c: u32| a < b0 && a < c < 24 ==> holds(table@, #[trigger] two(a, c)),
                forall|c: u32| b0 < c < b1 ==> holds(table@, #[trigger] two(b0, c)),
            decreases 24 - b1,
        {
            proof {
                lemma_patterns_small(b0, b1, 0);
            }
            record(&mut table, h_rows, (1u32 << b0) | (1u32 << b1));
            assert(holds(table@, two(b0, b1)));
            b1 = b1 + 1;
        }
        b0 = b0 + 1;
    }
    let mut c0: u32 = 0;
    while c0 < 24
        invariant
            c0 <= 24,
            are_check_rows(h_rows@),
            sound(table@),
            holds(table@, 0),
            forall|a: u32| a < 24 ==> holds(table@, #[trigger] one(a)),
            forall|a: u32, c: u32| a < c < 24 ==> holds(table@, #[trigger] two(a, c)),
            forall|a: u32, c: u32, d: u32|
                a < c0 && a < c < d < 24 ==> holds(table@, #[trigger] three(a, c, d)),
        decreases 24 - c0,
    {
        let mut c1: u32 = c0 + 1;
        while c1 < 24
            invariant
                c0 < c1 <= 24,
                are_check_rows(h_rows@),
                sound(table@),
                holds(table@, 0),
                forall|a: u32| a < 24 ==> holds(table@, #[trigger] one(a)),
                forall|a: u32, c: u32| a < c < 24 ==> holds(table@, #[trigger] two(a, c)),
                forall|a: u32, c: u32, d: u32|
                    a < c0 && a < c < d < 24 ==> holds(table@, #[trigger] three(a, c, d)),
                forall|c: u32, d: u32|
                    c0 < c < c1 && c < d < 24 ==> holds(table@, #[trigger] three(c0, c, d)),
            decreases 24 - c1,
        {
            let mut c2: u32 = c1 + 1;
            while c2 < 24
                invariant
                    c0 < c1 < c2 <= 24,
                    are_check_rows(h_rows@),
                    sound(table@),
                    holds(table@, 0),
                    forall|a: u32| a < 24 ==> holds(table@, #[trigger] one(a)),
                    forall|a: u32, c: u32| a < c < 24 ==> holds(table@, #[trigger] two(a, c)),
                    forall|a: u32, c: u32, d: u32|
                        a < c0 && a < c < d < 24 ==> holds(table@, #[trigger] three(a, c, d)),
                    forall|c: u32, d: u32|
                        c0 < c < c1 && c < d < 24 ==> holds(table@, #[trigger] three(c0, c, d)),
                    forall|d: u32| c1 < d < c2 ==> holds(table@, #[trigger] three(c0, c1, d)),
                decreases 24 - c2,
            {
                proof {
                    lemma_patterns_small(c0, c1, c2);
                }
                record(&mut table, h_rows, (1u32 << c0) | (1u32 << c1) | (1u32 << c2));
                assert(holds(table@, three(c0, c1, c2)));
                c2 = c2 + 1;
            }
            c1 = c1 + 1;
        }
        c0 = c0 + 1;
    }
    proof {
        assert forall|e: u32| small(e) implies #[trigger] holds(table@, e) by {
            let b = lemma_patterns_complete(e);
            assert(e == 0 || e == one(b.0) || e == two(b.0, b.1) || e == three(b.0, b.1, b.2));
        }
    }
    table
}

/// The sum of the rows picked by the low `n` bits of a message.
spec fn picks(m: u32, n: nat) -> u32
    decreases n,
{
    if n == 0 {
        0
    } else {
        picks(m, (n - 1) as nat) ^ picked_row(m, (n - 1) as u32)
    }
}

proof fn lemma_picks(m: u32)
    ensures
        picks(m, 12) == golay_parity(m),
{
    reveal_with_fuel(picks, 13);
    lemma_bit(picked_row(m, 0), 0, 0, 0);
}

proof fn lemma_encode_step(m: u32, p: u32, r: u32, i: u32)
    by (bit_vector)
    requires
        i < 12,
        p < 4096,
        r < 4096,
    ensures
        (low(m, i) | (p << 12)) ^ ((1u32 << i) | (r << 12)) == (low(m, i) | (1u32 << i)) | ((p ^ r)
            << 12),
        p ^ r < 4096,
{
}

fn encode_message(g_rows: &[u32; 12], m: u32) -> (cw: u32)
    requires
        m < 4096,
        forall|i: int| 0 <= i < 12 ==> #[trigger] g_rows@[i] == g_row(i as u32),
    ensures
        cw == golay_word(m),
{
    let mut cw: u32 = 0;
    let mut i: u32 = 0;
    proof {
        lemma_bit(m, 0, 0, 0);
        lemma_bit(0, 0, 12, 0);
    }
    while i < 12
        invariant
            i <= 12,
            m < 4096,
            forall|k: int| 0 <= k < 12 ==> #[trigger] g_rows@[k] == g_row(k as u32),
            cw == low(m, i) | (picks(m, i as nat) << 12),
            picks(m, i as nat) < 4096,
        decreases 12 - i,
    {
        proof {
            let p = picks(m, i as nat);
            assert(picks(m, (i + 1) as nat) == p ^ picked_row(m, i));
            lemma_rows(i, 0);
            lemma_encode_step(m, p, b_row(i), i);
            lemma_bit(m, 0, i, 0);
            lemma_bit(low(m, i), 0, i, 0);
            lemma_bit(p, 0, 0, 0);
        }
        if (m >> i) & 1 == 1 {
            cw = cw ^ g_rows[i as usize];
        }
        i = i + 1;
    }
    proof {
        lemma_picks(m);
        lemma_bit(m, 0, 0, 0);
    }
    cw
}

/// `c` is a word of the code at most three errors away from `r`.
pub open spec fn near(r: u32, c: u32) -> bool {
    is_golay_word(c) && weight(r ^ c) <= 3
}

/// A number has at most one word of the code near it.
pub proof fn lemma_near_unique(r: u32, c: u32, d: u32)
    requires
        near(r, c),
        near(r, d),
    ensures
        c == d,
{
    lemma_bit(c, d, 0, 0);
    lemma_ones_add(r ^ c, r ^ d, 32);
    assert((r ^ c) ^ (r ^ d) == c ^ d) by {
        lemma_xor_pairs(r, c, d);
    }
    lemma_syndrome(c, d);
    lemma_bit(0, 0, 0, 0);
    if c ^ d != 0 {
        lemma_min_distance(c ^ d);
    }
}

proof fn lemma_xor_pairs(r: u32, c: u32, d: u32)
    by (bit_vector)
    ensures
        (r ^ c) ^ (r ^ d) == c ^ d,
        (c ^ r) ^ c == r,
        d ^ ((c ^ r) ^ d) == c ^ r,
        r ^ ((c ^ r) ^ d) == c ^ d,
{
}

/// A word with at most three errors has the word near it, and the errors
/// counted.
pub proof fn lemma_corrects(c: u32, e: u32)
    requires
        is_golay_word(c),
        small(e),
    ensures
        near(c ^ e, c),
        weight((c ^ e) ^ c) == weight(e),
        c ^ e < 0x100_0000,
{
    lemma_bit(c, e, 0, 0);
}

/// A word with four errors has no word of the code near it: four errors are
/// always detected.
pub proof fn lemma_detects_four(c: u32, e: u32, d: u32)
    requires
        is_golay_word(c),
        e < 0x100_0000,
        weight(e) == 4,
    ensures
        !near(c ^ e, d),
{
    if near(c ^ e, d) {
        lemma_bit(c, d, 0, 0);
        lemma_bit(c, e, 0, 0);
        lemma_xor_pairs(e, c, d);
        lemma_ones_add(e, (c ^ e) ^ d, 32);
        lemma_syndrome(c, d);
        lemma_bit(0, 0, 0, 0);
        if c ^ d != 0 {
            lemma_min_distance(c ^ d);
        }
    }
}

/// Every message has a word, which begins with the message, and every word
/// of the code is the word of its first twelve bits.
pub proof fn lemma_words(m: u32, c: u32)
    requires
        m < 4096,
    ensures
        is_golay_word(golay_word(m)),
        golay_word(m) & 0xFFF == m,
        is_golay_word(c) ==> c == golay_word(c & 0xFFF),
{
    lemma_word_weight(m);
    if is_golay_word(c) {
        lemma_syndrome(c, 0);
    }
}

/// The words of different messages differ in at least eight places.
pub proof fn lemma_words_apart(m: u32, n: u32)
    requires
        m < 4096,
        n < 4096,
        m != n,
    ensures
        weight(golay_word(m) ^ golay_word(n)) >= GOLAY_D,
{
    let a = golay_word(m);
    let b = golay_word(n);
    lemma_word_weight(m);
    lemma_word_weight(n);
    lemma_syndrome(a, b);
    lemma_bit(a, b, 0, 0);
    lemma_bit(0, 0, 0, 0);
    lemma_min_distance(a ^ b);
}

/// Number of messages below `n` whose word has `w` ones.
pub open spec fn words_of_weight(w: nat, n: nat) -> nat
    decreases n,
{
    if n == 0 {
        0
    } else {
        words_of_weight(w, (n - 1) as nat) + if weight(golay_word((n - 1) as u32)) == w {
            1nat
        } else {
            0nat
        }
    }
}

/// One word, counted in the digit to base 5000 that stands for its weight.
spec fn counted(w: u32) -> u64 {
    if w == 0 {
        1
    } else if w == 8 {
        5_000
    } else if w == 12 {
        25_000_000
    } else if w == 16 {
        125_000_000_000
    } else if w == 24 {
        625_000_000_000_000
    } else {
        0
    }
}

/// The words of the messages from `lo` to `hi`, counted by weight.
spec fn tally(lo: u32, hi: u32) -> u64
    decreases hi - lo,
{
    if hi <= lo {
        0
    } else if hi - lo == 1 {
        counted(weight_sum(golay_word(lo)))
    } else {
        let mid = ((lo + hi) / 2) as u32;
        (tally(lo, mid) + tally(mid, hi)) as u64
    }
}

/// The counts of the five weights below `n`, as the digits of a number.
spec fn counts(n: nat) -> nat {
    words_of_weight(0, n) + 5_000 * words_of_weight(8, n) + 25_000_000 * words_of_weight(12, n)
        + 125_000_000_000 * words_of_weight(16, n) + 625_000_000_000_000 * words_of_weight(24, n)
}

proof fn lemma_counts_bound(w: nat, n: nat)
    ensures
        words_of_weight(w, n) <= n,
    decreases n,
{
    if n > 0 {
        lemma_counts_bound(w, (n - 1) as nat);
    }
}

proof fn lemma_tally(lo: u32, hi: u32)
    requires
        lo <= hi <= 4096,
    ensures
        tally(lo, hi) == counts(hi as nat) - counts(lo as nat),
        tally(lo, hi) <= (hi - lo) * 625_000_000_000_000,
    decreases hi - lo,
{
    if hi - lo == 1 {
        lemma_ones_sum(golay_word(lo));
        assert((hi - 1) as u32 == lo);
    } else if lo < hi {
        let mid = ((lo + hi) / 2) as u32;
        lemma_tally(lo, mid);
        lemma_tally(mid, hi);
    }
}

/// How often each weight occurs among the 4096 words of the code.
pub proof fn lemma_weight_counts()
    ensures
        words_of_weight(0, 4096) == 1,
        words_of_weight(8, 4096) == 759,
        words_of_weight(12, 4096) == 2576,
        words_of_weight(16, 4096) == 759,
        words_of_weight(24, 4096) == 1,
{
    assert(tally(0, 4096) == 719_939_403_795_001) by (bit_vector);
    lemma_tally(0, 4096);
    lemma_counts_bound(0, 4096);
    lemma_counts_bound(8, 4096);
    lemma_counts_bound(12, 4096);
    lemma_counts_bound(16, 4096);
    lemma_counts_bound(24, 4096);
}

/// The bits of a packed number are the low bits that it was packed from, and
/// packing them again gives it back.
pub proof fn lemma_unpacked_packed(bits: Seq<u8>, n: nat)
    requires
        n <= 24,
        n <= bits.len(),
    ensures
        unpacked(packed(bits, n), n) == crate::bits::low_bits(bits.take(n as int)),
        n == 12 ==> packed(bits, n) < 4096,
        packed(bits, n) < 0x100_0000,
{
    let v = packed(bits, n);
    let a = unpacked(v, n);
    let b = crate::bits::low_bits(bits.take(n as int));
    assert forall|i: int| 0 <= i < n implies a[i] == b[i] by {
        lemma_packed(bits, n, i as u32);
        crate::bits::lemma_low_bit(bits[i]);
    }
    assert(a =~= b);
    lemma_packed(bits, n, 0);
    lemma_bit(v, 0, n as u32, 0);
}

/// The code with its tables.
pub struct GolayCode {
    encode_table: Vec<u32>,
    syndrome_table: Vec<u32>,
    h_rows: [u32; 12],
}

impl GolayCode {
    /// The tables hold the words and the patterns of at most three errors.
    pub closed spec fn wf(&self) -> bool {
        &&& self.encode_table@.len() == 4096
        &&& forall|m: int|
            0 <= m < 4096 ==> #[trigger] self.encode_table@[m] == golay_word(m as u32)
        &&& sound(self.syndrome_table@)
        &&& forall|e: u32| small(e) ==> #[trigger] holds(self.syndrome_table@, e)
        &&& are_check_rows(self.h_rows@)
    }

    /// Builds the tables.
    pub fn new() -> (r: GolayCode)
        ensures
            r.wf(),
    {
        let b: [u16; 12] = build_b_rows();
        let bt: [u16; 12] = transpose_b(&b);
        let g_rows: [u32; 12] = build_g_rows(&b);
        let h_rows: [u32; 12] = build_h_rows(&bt);
        proof {
            assert forall|k: int| 0 <= k < 12 implies #[trigger] h_rows@[k] == h_row(k as u32) by {
                let x = bt@[k] as u32;
                let y = b_column(k as u32);
                assert forall|i: u32| i < 12 implies #[trigger] ((x >> i) & 1) == (y >> i) & 1 by {
                    assert(entry(bt@, k, i as int) == entry(b@, i as int, k));
                    assert(b@[i as int] as u32 == b_row(i));
                    lemma_border(i, k as u32);
                    lemma_transpose_step(0, bt@[k], i as u16, 0);
                    lemma_transpose_step(0, b@[i as int], k as u16, 0);
                }
                lemma_same_bits(x, y, 12);
                lemma_rows(k as u32, 0);
                lemma_bit(x, 0, 0, 0);
                lemma_bit(y, 0, 0, 0);
                assert((12 + k) as u32 == (12 + k as u32) as u32);
            }
            assert forall|i: int| 0 <= i < 12 implies #[trigger] g_rows@[i] == g_row(i as u32) by {
                assert(b@[i] as u32 == b_row(i as u32));
            }
        }
        let mut encode_table: Vec<u32> = Vec::new();
        let mut m: u32 = 0;
        while m < 4096
            invariant
                m <= 4096,
                forall|i: int| 0 <= i < 12 ==> #[trigger] g_rows@[i] == g_row(i as u32),
                encode_table@.len() == m,
                forall|k: int|
                    0 <= k < m ==> #[trigger] encode_table@[k] == golay_word(k as u32),
            decreases 4096 - m,
        {
            let cw: u32 = encode_message(&g_rows, m);
            encode_table.push(cw);
            m = m + 1;
        }
        let syndrome_table: Vec<u32> = build_syndrome_table(&h_rows);
        GolayCode { encode_table, syndrome_table, h_rows }
    }

    /// The word of each message.
    pub fn encode_table(&self) -> (t: &Vec<u32>)
        requires
            self.wf(),
        ensures
            t@.len() == 4096,
            forall|m: int| 0 <= m < 4096 ==> #[trigger] t@[m] == golay_word(m as u32),
    {
        &self.encode_table
    }

    /// The pattern of at most three errors of each syndrome that has one.
    pub fn syndrome_table(&self) -> (t: &Vec<u32>)
        requires
            self.wf(),
        ensures
            t@.len() == 4096,
            forall|s: int|
                0 <= s < 4096 ==> #[trigger] t@[s] == UNCORRECTABLE || (small(t@[s])
                    && golay_syndrome(t@[s]) == s),
            forall|e: u32|
                #![trigger golay_syndrome(e)]
                small(e) ==> t@[golay_syndrome(e) as int] == e,
    {
        proof {
            assert forall|e: u32|
                #![trigger golay_syndrome(e)]
                small(e) implies self.syndrome_table@[golay_syndrome(e) as int] == e by {
                assert(holds(self.syndrome_table@, e));
            }
        }
        &self.syndrome_table
    }

    /// Encodes the low bits of 12 entries.
    pub fn encode(&self, info: &[u8], out: &mut [u8]) -> (r: Result<(), FecError>)
        requires
            self.wf(),
        ensures
            final(out)@.len() == old(out)@.len(),
            match r {
                Ok(_) => info@.len() == 12 && old(out)@.len() == 24 && final(out)@ == unpacked(
                    golay_word(packed(info@, 12)),
                    24,
                ),
                Err(e) => final(out)@ == old(out)@ && e == (if info@.len() != 12 {
                    FecError::BufferTooSmall { required: 12, provided: info@.len() as usize }
                } else {
                    FecError::BufferTooSmall { required: 24, provided: old(out)@.len() as usize }
                }),
            },
            r is Ok <==> info@.len() == 12 && old(out)@.len() == 24,
    {
        if info.len() != GOLAY_K {
            return Err(FecError::BufferTooSmall { required: GOLAY_K, provided: info.len() });
        }
        if out.len() != GOLAY_N {
            return Err(FecError::BufferTooSmall { required: GOLAY_N, provided: out.len() });
        }
        let m: u32 = bits_to_u32(info, GOLAY_K);
        proof {
            lemma_unpacked_packed(info@, 12);
        }
        let cw: u32 = self.encode_table[m as usize];
        let ghost before = out@;
        u32_to_bits(cw, GOLAY_N, out);
        assert(before.skip(24) =~= Seq::<u8>::empty());
        assert(out@ =~= unpacked(cw, 24));
        Ok(())
    }

    /// Decodes 24 bits: the message of the word at most three errors away,
    /// and the number of errors.
    pub fn decode(&self, received: &[u8], out: &mut [u8]) -> (r: Result<usize, FecError>)
        requires
            self.wf(),
        ensures
            final(out)@.len() == old(out)@.len(),
            match r {
                Ok(n) => received@.len() == 24 && old(out)@.len() == 12 && golay_decoded(
                    packed(received@, 24),
                    final(out)@,
                    n as nat,
                ),
                Err(FecError::DecoderNotConverged) => received@.len() == 24 && old(out)@.len() == 12
                    && final(out)@ == old(out)@ && forall|c: u32|
                    !(#[trigger] near(packed(received@, 24), c)),
                Err(e) => final(out)@ == old(out)@ && (received@.len() != 24 || old(out)@.len()
                    != 12) && e == (if received@.len() != 24 {
                    FecError::BufferTooSmall { required: 24, provided: received@.len() as usize }
                } else {
                    FecError::BufferTooSmall { required: 12, provided: old(out)@.len() as usize }
                }),
            },
    {
        if received.len() != GOLAY_N {
            return Err(FecError::BufferTooSmall { required: GOLAY_N, provided: received.len() });
        }
        if out.len() != GOLAY_K {
            return Err(FecError::BufferTooSmall { required: GOLAY_K, provided: out.len() });
        }
        let r: u32 = bits_to_u32(received, GOLAY_N);
        proof {
            lemma_unpacked_packed(received@, 24);
        }
        let s: u32 = syndrome_of(&self.h_rows, r);
        let e: u32 = self.syndrome_table[s as usize];
        if e == UNCORRECTABLE {
            proof {
                assert forall|c: u32| !(#[trigger] near(r, c)) by {
                    if near(r, c) {
                        lemma_bit(r, c, 0, 0);
                        lemma_syndrome(r, c);
                        lemma_bit(golay_syndrome(r), golay_syndrome(c), 0, 0);
                        assert(holds(self.syndrome_table@, r ^ c));
                    }
                }
            }
            return Err(FecError::DecoderNotConverged);
        }
        let corrected: u32 = r ^ e;
        proof {
            lemma_bit(r, e, 0, 0);
            lemma_syndrome(r, e);
            lemma_bit(golay_syndrome(r), golay_syndrome(e), 0, 0);
        }
        let ghost before = out@;
        u32_to_bits(corrected & 0x0FFF, GOLAY_K, out);
        assert(before.skip(12) =~= Seq::<u8>::empty());
        assert(out@ =~= unpacked(corrected & 0xFFF, 12));
        let n: u32 = count_ones(e);
        assert(near(r, corrected));
        Ok(n as usize)
    }
}

/// `out` holds the message of the word near `r`, `n` errors away.
pub open spec fn golay_decoded(r: u32, out: Seq<u8>, n: nat) -> bool {
    exists|c: u32| #[trigger]
        near(r, c) && n == weight(r ^ c) && out == unpacked(c & 0xFFF, 12)
}

/// Decoding undoes encoding and at most three errors.
pub proof fn lemma_roundtrip(m: u32, e: u32, out: Seq<u8>, n: nat)
    requires
        m < 4096,
        small(e),
        golay_decoded(golay_word(m) ^ e, out, n),
    ensures
        n == weight(e),
        out == unpacked(m, 12),
{
    let r = golay_word(m) ^ e;
    lemma_words(m, 0);
    lemma_corrects(golay_word(m), e);
    let c = choose|c: u32| #[trigger]
        near(r, c) && n == weight(r ^ c) && out == unpacked(c & 0xFFF, 12);
    lemma_near_unique(r, c, golay_word(m));
}

impl Default for GolayCode {
    fn default() -> (r: GolayCode)
        ensures
            r.wf(),
    {
        GolayCode::new()
    }
}

} // verus!
