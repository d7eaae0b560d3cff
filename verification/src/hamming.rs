//! The Hamming(7,4) code: four data bits, three parity bits, any single
//! wrong bit corrected.
//!
//! Position `j` of a word, counted from 1, is bit `j - 1` of a byte. The
//! positions 1, 2 and 4 hold parity bits, the positions 3, 5, 6 and 7 the
//! bits of the nibble from its most significant bit on.

use crate::error::FecError;
use vstd::prelude::*;

verus! {

/// The rows of the parity-check matrix: row `k` covers the positions whose
/// number has bit `k` set.
pub const H_ROWS: [u8; 3] = [0b1010101, 0b1100110, 0b1111000];

/// The sum of the bits of a byte, modulo two.
pub open spec fn parity_of(x: u8) -> u8 {
    (x ^ (x >> 1) ^ (x >> 2) ^ (x >> 3) ^ (x >> 4) ^ (x >> 5) ^ (x >> 6) ^ (x >> 7)) & 1
}

/// The three checks of a word, packed into a number.
pub open spec fn syndrome_of(r: u8) -> u8 {
    parity_of(r & 0b1010101) | (parity_of(r & 0b1100110) << 1) | (parity_of(r & 0b1111000) << 2)
}

/// A word of the code: seven bits on which every check is even.
pub open spec fn is_word(c: u8) -> bool {
    c < 128 && syndrome_of(c) == 0
}

/// The nibble at the data positions of a word.
pub open spec fn data_of(c: u8) -> u8 {
    (((c >> 2) & 1) << 3) | (((c >> 4) & 1) << 2) | (((c >> 5) & 1) << 1) | ((c >> 6) & 1)
}

/// At most one of the seven positions is set.
pub open spec fn at_most_one(e: u8) -> bool {
    e == 0 || e == 1 || e == 2 || e == 4 || e == 8 || e == 16 || e == 32 || e == 64
}

fn parity(x: u8) -> (p: u8)
    ensures
        p == parity_of(x),
{
    proof {
        lemma_steps(x);
    }
    let a: u8 = x ^ (x >> 4);
    let b: u8 = a ^ (a >> 2);
    let c: u8 = b ^ (b >> 1);
    c & 1
}

/// The three checks of the seven low bits.
pub fn syndrome(r: u8) -> (s: u8)
    ensures
        s == syndrome_of(r & 0x7F),
{
    let w: u8 = r & 0x7F;
    let s0: u8 = parity(w & H_ROWS[0]);
    let s1: u8 = parity(w & H_ROWS[1]);
    let s2: u8 = parity(w & H_ROWS[2]);
    s0 | (s1 << 1) | (s2 << 2)
}

/// The steps of encoding a nibble and of decoding a word.
proof fn lemma_steps(n: u8)
    by (bit_vector)
    ensures
        ({
            let a = n ^ (n >> 4);
            let b = a ^ (a >> 2);
            let c = b ^ (b >> 1);
            c & 1
        }) == parity_of(n),
        ({
            let d = n & 0x0F;
            let d0 = d & 1;
            let d1 = (d >> 1) & 1;
            let d2 = (d >> 2) & 1;
            let d3 = (d >> 3) & 1;
            let c = (d3 ^ d2 ^ d0) | ((d3 ^ d1 ^ d0) << 1) | (d3 << 2) | ((d2 ^ d1 ^ d0) << 3) | (d2
                << 4) | (d1 << 5) | (d0 << 6);
            is_word(c) && data_of(c) == n & 0x0F
        }),
        ({
            let r = n & 0x7F;
            let s = syndrome_of(r);
            let c = if s == 0 {
                r
            } else {
                r ^ (1u8 << ((s - 1) as u8))
            };
            s <= 7 && is_word(c) && at_most_one(c ^ r) && data_of(c) < 16
        }),
        (n & 0x7F) & 0x7F == n & 0x7F,
{
}

/// The code has one word for each nibble, and words at most two bit errors
/// apart are equal.
pub proof fn lemma_word_unique(a: u8, b: u8, e: u8, f: u8)
    by (bit_vector)
    requires
        is_word(a),
        is_word(b),
        at_most_one(e),
        at_most_one(f),
    ensures
        data_of(a) == data_of(b) ==> a == b,
        a ^ e == b ^ f ==> a == b && e == f,
{
}

/// The checks of a word with one bit flipped give the position of that bit.
pub proof fn lemma_syndrome_is_position(c: u8, pos: u8)
    by (bit_vector)
    requires
        is_word(c),
        1 <= pos <= 7,
    ensures
        syndrome_of(c ^ (1u8 << ((pos - 1) as u8))) == pos,
{
}

proof fn lemma_flip_cancels(c: u8, e: u8)
    by (bit_vector)
    requires
        c < 128,
        at_most_one(e),
    ensures
        (c ^ e) & 0x7F == c ^ e,
        forall|d: u8| #![trigger d ^ (c ^ e)] c ^ e == d ^ (d ^ (c ^ e)),
{
}

/// What decoding a word with at most one wrong bit returns.
pub open spec fn decodes_to(code: u8, n: u8) -> bool {
    exists|c: u8| #[trigger]
        is_word(c) && at_most_one(c ^ (code & 0x7F)) && n == data_of(c)
}

/// A word with at most one wrong bit decodes to the word's nibble, and to
/// no other.
pub proof fn lemma_corrects(c: u8, e: u8, n: u8)
    requires
        is_word(c),
        at_most_one(e),
        decodes_to(c ^ e, n),
    ensures
        n == data_of(c),
{
    lemma_flip_cancels(c, e);
    let d = choose|d: u8| #[trigger]
        is_word(d) && at_most_one(d ^ ((c ^ e) & 0x7F)) && n == data_of(d);
    lemma_word_unique(c, d, e, d ^ (c ^ e));
}

/// Two flips leave more than one bit wrong.
proof fn lemma_two_flips(c: u8, e: u8, f: u8)
    by (bit_vector)
    requires
        c < 128,
        at_most_one(e),
        at_most_one(f),
        e != 0,
        f != 0,
        e != f,
    ensures
        !at_most_one(c ^ ((c ^ e ^ f) & 0x7F)),
{
}

/// A word with two wrong bits decodes to a nibble other than the word's: two
/// errors are beyond the code.
pub proof fn lemma_two_errors_mislead(c: u8, e: u8, f: u8, n: u8)
    requires
        is_word(c),
        at_most_one(e),
        at_most_one(f),
        e != 0,
        f != 0,
        e != f,
        decodes_to(c ^ e ^ f, n),
    ensures
        n != data_of(c),
{
    lemma_two_flips(c, e, f);
    let d = choose|d: u8| #[trigger]
        is_word(d) && at_most_one(d ^ ((c ^ e ^ f) & 0x7F)) && n == data_of(d);
    lemma_word_unique(c, d, 0, 0);
}

/// The code as a type.
pub struct Hamming74;

impl Hamming74 {
    /// Encodes the low four bits.
    pub fn encode(nibble: u8) -> (code: u8)
        ensures
            is_word(code),
            data_of(code) == nibble & 0x0F,
    {
        proof {
            lemma_steps(nibble);
        }
        let d: u8 = nibble & 0x0F;
        let d0: u8 = d & 1;
        let d1: u8 = (d >> 1) & 1;
        let d2: u8 = (d >> 2) & 1;
        let d3: u8 = (d >> 3) & 1;
        let p1: u8 = d3 ^ d2 ^ d0;
        let p2: u8 = d3 ^ d1 ^ d0;
        let p4: u8 = d2 ^ d1 ^ d0;
        p1 | (p2 << 1) | (d3 << 2) | (p4 << 3) | (d2 << 4) | (d1 << 5) | (d0 << 6)
    }

    /// Decodes the low seven bits: the nibble of the only word that differs
    /// from them in at most one position.
    pub fn decode(code: u8) -> (r: Result<u8, FecError>)
        ensures
            r is Ok,
            decodes_to(code, r.unwrap()),
            r.unwrap() < 16,
    {
        proof {
            lemma_steps(code);
        }
        let r: u8 = code & 0x7F;
        let s: u8 = syndrome(r);
        let corrected: u8 = if s != 0 {
            r ^ (1u8 << ((s - 1) as u8))
        } else {
            r
        };
        assert(is_word(corrected));
        let d3: u8 = (corrected >> 2) & 1;
        let d2: u8 = (corrected >> 4) & 1;
        let d1: u8 = (corrected >> 5) & 1;
        let d0: u8 = (corrected >> 6) & 1;
        Ok((d3 << 3) | (d2 << 2) | (d1 << 1) | d0)
    }
}

/// Encodes the low four bits.
pub fn encode_hamming_7_4(nibble: u8) -> (code: u8)
    ensures
        is_word(code),
        data_of(code) == nibble & 0x0F,
{
    Hamming74::encode(nibble)
}

/// Decodes the low seven bits.
pub fn decode_hamming_7_4(code: u8) -> (r: Result<u8, FecError>)
    ensures
        r is Ok,
        decodes_to(code, r.unwrap()),
        r.unwrap() < 16,
{
    Hamming74::decode(code)
}

} // verus!
