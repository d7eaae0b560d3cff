//! Bits held one to a byte, the most significant bit of a packed byte
//! first.

use crate::error::FecError;
use crate::soft::{hard, hard_bit};
use vstd::prelude::*;

verus! {

/// Every entry is `0` or `1`.
pub open spec fn is_bits(w: Seq<u8>) -> bool {
    forall|i: int| 0 <= i < w.len() ==> #[trigger] w[i] <= 1
}

/// The low bit of each entry.
pub open spec fn low_bits(w: Seq<u8>) -> Seq<u8> {
    Seq::new(w.len(), |i: int| w[i] & 1)
}

/// Facts about the low bit of a byte.
pub proof fn lemma_low_bit(a: u8)
    by (bit_vector)
    ensures
        a & 1 <= 1,
        a <= 1 ==> a & 1 == a,
        a ^ ((a & 1) ^ ((a & 1) ^ 1)) == a ^ 1,
        a ^ ((a & 1) ^ (a & 1)) == a,
        (a ^ 1) & 1 == (a & 1) ^ 1,
        (a & 1) ^ 1 == 1 - (a & 1),
{
}

/// The low bits of a word of bits are the word.
pub proof fn lemma_low_bits(w: Seq<u8>)
    ensures
        is_bits(low_bits(w)),
        is_bits(w) ==> low_bits(w) == w,
{
    assert forall|i: int| 0 <= i < w.len() implies #[trigger] low_bits(w)[i] <= 1 && (w[i] <= 1
        ==> low_bits(w)[i] == w[i]) by {
        lemma_low_bit(w[i]);
    }
    if is_bits(w) {
        assert(low_bits(w) =~= w);
    }
}

/// The sum of two bits is a bit.
pub proof fn lemma_xor_bits(a: u8, b: u8)
    by (bit_vector)
    requires
        a <= 1,
        b <= 1,
    ensures
        a ^ b <= 1,
        (a ^ b == 1) == ((a == 1) != (b == 1)),
{
}

/// Bit `i` of packed bytes.
pub open spec fn bit_at(bytes: Seq<u8>, i: int) -> u8 {
    (bytes[i / 8] >> ((7 - i % 8) as u8)) & 1
}

/// The bits of packed bytes.
pub open spec fn unpacked_bits(bytes: Seq<u8>) -> Seq<u8> {
    Seq::new(8 * bytes.len(), |i: int| bit_at(bytes, i))
}

/// The bits of one byte.
pub open spec fn byte_of(b: Seq<u8>) -> u8 {
    (b[0] << 7) | (b[1] << 6) | (b[2] << 5) | (b[3] << 4) | (b[4] << 3) | (b[5] << 2) | (b[6] << 1)
        | b[7]
}

/// Bits packed into bytes.
pub open spec fn packed_bytes(bits: Seq<u8>) -> Seq<u8> {
    Seq::new(bits.len() / 8, |i: int| byte_of(bits.subrange(8 * i, 8 * i + 8)))
}

proof fn lemma_byte(b0: u8, b1: u8, b2: u8, b3: u8, b4: u8, b5: u8, b6: u8, b7: u8, x: u8, i: u8)
    by (bit_vector)
    requires
        b0 <= 1,
        b1 <= 1,
        b2 <= 1,
        b3 <= 1,
        b4 <= 1,
        b5 <= 1,
        b6 <= 1,
        b7 <= 1,
        i < 8,
    ensures
        ({
            let y = (b0 << 7) | (b1 << 6) | (b2 << 5) | (b3 << 4) | (b4 << 3) | (b5 << 2) | (b6 << 1)
                | b7;
            (y >> ((7 - i) as u8)) & 1 == (if i == 0 {
                b0
            } else if i == 1 {
                b1
            } else if i == 2 {
                b2
            } else if i == 3 {
                b3
            } else if i == 4 {
                b4
            } else if i == 5 {
                b5
            } else if i == 6 {
                b6
            } else {
                b7
            })
        }),
        (x >> i) & 1 <= 1,
        x == (((x >> 7) & 1) << 7) | (((x >> 6) & 1) << 6) | (((x >> 5) & 1) << 5) | (((x >> 4) & 1)
            << 4) | (((x >> 3) & 1) << 3) | (((x >> 2) & 1) << 2) | (((x >> 1) & 1) << 1) | ((x >> 0)
            & 1),
        x >> 0 == x,
        ((((((((0u8 << 1 | b0) << 1 | b1) << 1 | b2) << 1 | b3) << 1 | b4) << 1 | b5) << 1 | b6) << 1
            | b7) == (b0 << 7) | (b1 << 6) | (b2 << 5) | (b3 << 4) | (b4 << 3) | (b5 << 2) | (b6
            << 1) | b7,
        (b0 << 7) | (b1 << 6) | (b2 << 5) | (b3 << 4) | (b4 << 3) | (b5 << 2) | (b6 << 1) | b7
            == 128 * b0 + 64 * b1 + 32 * b2 + 16 * b3 + 8 * b4 + 4 * b5 + 2 * b6 + b7,
{
}

/// What a packed byte is worth: its eight bits are binary digits, the first
/// the most significant.
pub proof fn lemma_packed_value(bits: Seq<u8>, k: int)
    requires
        is_bits(bits),
        0 <= k < bits.len() / 8,
    ensures
        packed_bytes(bits)[k] == 128 * bits[8 * k] + 64 * bits[8 * k + 1] + 32 * bits[8 * k + 2]
            + 16 * bits[8 * k + 3] + 8 * bits[8 * k + 4] + 4 * bits[8 * k + 5] + 2 * bits[8 * k + 6]
            + bits[8 * k + 7],
{
    let b = bits.subrange(8 * k, 8 * k + 8);
    assert forall|j: int| 0 <= j < 8 implies #[trigger] b[j] <= 1 by {
        assert(bits[8 * k + j] <= 1);
    }
    lemma_byte(b[0], b[1], b[2], b[3], b[4], b[5], b[6], b[7], 0, 0);
}

/// Packing the bits of bytes gives the bytes back.
pub proof fn lemma_pack_unpack(bytes: Seq<u8>)
    ensures
        is_bits(unpacked_bits(bytes)),
        packed_bytes(unpacked_bits(bytes)) == bytes,
{
    let bits = unpacked_bits(bytes);
    assert forall|i: int| 0 <= i < bits.len() implies #[trigger] bits[i] <= 1 by {
        lemma_byte(0, 0, 0, 0, 0, 0, 0, 0, bytes[i / 8], (7 - i % 8) as u8);
    }
    let back = packed_bytes(bits);
    assert forall|k: int| 0 <= k < bytes.len() implies back[k] == bytes[k] by {
        let b = bits.subrange(8 * k, 8 * k + 8);
        assert forall|j: int| 0 <= j < 8 implies #[trigger] b[j] == (bytes[k] >> ((7 - j) as u8)) & 1 by {
            assert((8 * k + j) / 8 == k && (8 * k + j) % 8 == j);
        }
        lemma_byte(0, 0, 0, 0, 0, 0, 0, 0, bytes[k], 0);
        assert(b[0] == (bytes[k] >> 7) & 1 && b[1] == (bytes[k] >> 6) & 1 && b[2] == (bytes[k] >> 5)
            & 1 && b[3] == (bytes[k] >> 4) & 1 && b[4] == (bytes[k] >> 3) & 1 && b[5] == (bytes[k]
            >> 2) & 1 && b[6] == (bytes[k] >> 1) & 1 && b[7] == (bytes[k] >> 0) & 1);
    }
    assert(back =~= bytes);
}

/// Unpacking packed bits gives the bits back.
pub proof fn lemma_unpack_pack(bits: Seq<u8>)
    requires
        is_bits(bits),
        bits.len() % 8 == 0,
    ensures
        unpacked_bits(packed_bytes(bits)) == bits,
{
    let bytes = packed_bytes(bits);
    let back = unpacked_bits(bytes);
    assert(back.len() == bits.len());
    assert forall|i: int| 0 <= i < bits.len() implies back[i] == bits[i] by {
        let k = i / 8;
        let b = bits.subrange(8 * k, 8 * k + 8);
        assert(0 <= k < bytes.len());
        assert(8 * k + 8 <= bits.len());
        assert forall|j: int| 0 <= j < 8 implies #[trigger] b[j] <= 1 by {
            assert(bits[8 * k + j] <= 1);
        }
        lemma_byte(b[0], b[1], b[2], b[3], b[4], b[5], b[6], b[7], 0, (i % 8) as u8);
        assert(b[i % 8] == bits[i]);
    }
    assert(back =~= bits);
}

/// Unpacks bytes, the most significant bit first.
pub fn bytes_to_bits(bytes: &[u8], bits: &mut [u8]) -> (r: Result<(), FecError>)
    requires
        8 * bytes@.len() <= usize::MAX,
    ensures
        final(bits)@.len() == old(bits)@.len(),
        match r {
            Ok(_) => old(bits)@.len() == 8 * bytes@.len() && final(bits)@ == unpacked_bits(bytes@),
            Err(e) => old(bits)@.len() != 8 * bytes@.len() && final(bits)@ == old(bits)@ && e == (
            FecError::BufferTooSmall {
                required: (8 * bytes@.len()) as usize,
                provided: old(bits)@.len() as usize,
            }),
        },
{
    let required: usize = bytes.len() * 8;
    if bits.len() != required {
        return Err(FecError::BufferTooSmall { required, provided: bits.len() });
    }
    let mut i: usize = 0;
    while i < required
        invariant
            i <= required,
            required == 8 * bytes@.len(),
            bits@.len() == required,
            forall|j: int| 0 <= j < i ==> #[trigger] bits@[j] == bit_at(bytes@, j),
        decreases required - i,
    {
        bits[i] = (bytes[i / 8] >> ((7 - i % 8) as u8)) & 1;
        i = i + 1;
    }
    assert(bits@ =~= unpacked_bits(bytes@));
    Ok(())
}

/// Unpacks bytes into a new vector.
pub fn bytes_to_bits_vec(bytes: &[u8]) -> (bits: Vec<u8>)
    requires
        8 * bytes@.len() <= usize::MAX,
    ensures
        bits@ == unpacked_bits(bytes@),
{
    let required: usize = bytes.len() * 8;
    let mut bits: Vec<u8> = Vec::new();
    let mut i: usize = 0;
    while i < required
        invariant
            i <= required,
            required == 8 * bytes@.len(),
            bits@.len() == i,
            forall|j: int| 0 <= j < i ==> #[trigger] bits@[j] == bit_at(bytes@, j),
        decreases required - i,
    {
        bits.push((bytes[i / 8] >> ((7 - i % 8) as u8)) & 1);
        i = i + 1;
    }
    assert(bits@ =~= unpacked_bits(bytes@));
    bits
}

/// Whether every entry is a bit.
pub fn all_bits(bits: &[u8]) -> (r: bool)
    ensures
        r == is_bits(bits@),
{
    let mut i: usize = 0;
    while i < bits.len()
        invariant
            i <= bits@.len(),
            forall|j: int| 0 <= j < i ==> #[trigger] bits@[j] <= 1,
        decreases bits@.len() - i,
    {
        if bits[i] > 1 {
            return false;
        }
        i = i + 1;
    }
    true
}

fn pack_byte(bits: &[u8], at: usize) -> (b: u8)
    requires
        at + 8 <= bits@.len(),
        is_bits(bits@),
    ensures
        b == byte_of(bits@.subrange(at as int, at + 8)),
{
    let ghost c = bits@.subrange(at as int, at + 8);
    proof {
        assert forall|j: int| 0 <= j < 8 implies #[trigger] c[j] <= 1 by {
            assert(bits@[at + j] <= 1);
        }
        lemma_byte(c[0], c[1], c[2], c[3], c[4], c[5], c[6], c[7], 0, 0);
    }
    let b0: u8 = (0u8 << 1) | bits[at];
    let b1: u8 = (b0 << 1) | bits[at + 1];
    let b2: u8 = (b1 << 1) | bits[at + 2];
    let b3: u8 = (b2 << 1) | bits[at + 3];
    let b4: u8 = (b3 << 1) | bits[at + 4];
    let b5: u8 = (b4 << 1) | bits[at + 5];
    let b6: u8 = (b5 << 1) | bits[at + 6];
    (b6 << 1) | bits[at + 7]
}

/// The outcome of packing: which error, if any.
pub open spec fn pack_error(bits: Seq<u8>, provided: nat) -> Option<FecError> {
    if bits.len() % 8 != 0 {
        Some(FecError::InvalidParam("bits length must be a multiple of 8"))
    } else if provided != bits.len() / 8 {
        Some(
            FecError::BufferTooSmall {
                required: (bits.len() / 8) as usize,
                provided: provided as usize,
            },
        )
    } else if !is_bits(bits) {
        Some(FecError::InvalidParam("bit buffer contains a value other than 0 or 1"))
    } else {
        None
    }
}

/// Packs bits, the first one most significant.
pub fn bits_to_bytes(bits: &[u8], bytes: &mut [u8]) -> (r: Result<(), FecError>)
    ensures
        final(bytes)@.len() == old(bytes)@.len(),
        match r {
            Ok(_) => pack_error(bits@, old(bytes)@.len()) is None && final(bytes)@ == packed_bytes(
                bits@,
            ),
            Err(e) => pack_error(bits@, old(bytes)@.len()) == Some(e) && final(bytes)@ == old(
                bytes,
            )@,
        },
{
    if bits.len() % 8 != 0 {
        return Err(FecError::InvalidParam("bits length must be a multiple of 8"));
    }
    let total: usize = bits.len();
    let required: usize = total / 8;
    if bytes.len() != required {
        return Err(FecError::BufferTooSmall { required, provided: bytes.len() });
    }
    if !all_bits(bits) {
        return Err(FecError::InvalidParam("bit buffer contains a value other than 0 or 1"));
    }
    let mut i: usize = 0;
    while i < required
        invariant
            i <= required,
            required == total / 8,
            total == bits@.len(),
            bytes@.len() == required,
            is_bits(bits@),
            forall|j: int|
                0 <= j < i ==> #[trigger] bytes@[j] == byte_of(bits@.subrange(8 * j, 8 * j + 8)),
        decreases required - i,
    {
        bytes[i] = pack_byte(bits, 8 * i);
        i = i + 1;
    }
    assert(bytes@ =~= packed_bytes(bits@));
    Ok(())
}

/// Packs bits into a new vector.
pub fn bits_to_bytes_vec(bits: &[u8]) -> (r: Result<Vec<u8>, FecError>)
    ensures
        match r {
            Ok(v) => pack_error(bits@, bits@.len() / 8) is None && v@ == packed_bytes(bits@),
            Err(e) => pack_error(bits@, bits@.len() / 8) == Some(e),
        },
{
    if bits.len() % 8 != 0 {
        return Err(FecError::InvalidParam("bits length must be a multiple of 8"));
    }
    if !all_bits(bits) {
        return Err(FecError::InvalidParam("bit buffer contains a value other than 0 or 1"));
    }
    let total: usize = bits.len();
    let required: usize = total / 8;
    let mut bytes: Vec<u8> = Vec::new();
    let mut i: usize = 0;
    while i < required
        invariant
            i <= required,
            required == total / 8,
            total == bits@.len(),
            bytes@.len() == i,
            is_bits(bits@),
            forall|j: int|
                0 <= j < i ==> #[trigger] bytes@[j] == byte_of(bits@.subrange(8 * j, 8 * j + 8)),
        decreases required - i,
    {
        bytes.push(pack_byte(bits, 8 * i));
        i = i + 1;
    }
    assert(bytes@ =~= packed_bytes(bits@));
    Ok(bytes)
}

/// Decides bits from log-likelihood ratios, each given as the bit pattern of
/// a single-precision number: below zero is one, anything else zero.
pub fn hard_decision(llr: &[u32], bits: &mut [u8]) -> (r: Result<(), FecError>)
    ensures
        final(bits)@.len() == old(bits)@.len(),
        match r {
            Ok(_) => old(bits)@.len() == llr@.len() && final(bits)@ == Seq::new(
                llr@.len(),
                |i: int| hard(llr@[i]),
            ),
            Err(e) => old(bits)@.len() != llr@.len() && final(bits)@ == old(bits)@ && e == (
            FecError::BufferTooSmall {
                required: llr@.len() as usize,
                provided: old(bits)@.len() as usize,
            }),
        },
{
    if bits.len() != llr.len() {
        return Err(FecError::BufferTooSmall { required: llr.len(), provided: bits.len() });
    }
    let mut i: usize = 0;
    while i < llr.len()
        invariant
            i <= llr@.len(),
            bits@.len() == llr@.len(),
            forall|j: int| 0 <= j < i ==> #[trigger] bits@[j] == hard(llr@[j]),
        decreases llr@.len() - i,
    {
        bits[i] = hard_bit(llr[i]);
        i = i + 1;
    }
    assert(bits@ =~= Seq::new(llr@.len(), |i: int| hard(llr@[i])));
    Ok(())
}

} // verus!
