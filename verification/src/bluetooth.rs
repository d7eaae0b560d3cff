//! The codes of the Bluetooth baseband and of the coded low-energy physical
//! layer: threefold repetition, a shortened Hamming code with 10 information
//! and 5 parity bits, a convolutional code, and the mapping of its bits to
//! symbols.

use crate::bits::{all_bits, is_bits};
use crate::error::FecError;
use crate::numbers::{absolute, adds_exactly, lemma_value, lemma_whole_signed, value, whole};
use crate::golay;
use crate::golay::{packed, weight};
use crate::viterbi::ViterbiDecoder;
use vstd::prelude::*;

verus! {

/// First generator of the coded physical layer, the newest input at the most
/// significant bit.
pub const LE_CODED_G0: u32 = 0b1111;

/// Second generator.
pub const LE_CODED_G1: u32 = 0b1011;

/// Constraint length.
pub const LE_CODED_CONSTRAINT_LENGTH: usize = 4;

/// The convolutional code of the coded physical layer.
pub fn le_coded_phy_code() -> (r: Result<ViterbiDecoder, FecError>)
    ensures
        r is Ok,
        r.unwrap().wf(),
        r.unwrap().length() == 4,
        r.unwrap().generators() == (0b1111u32, 0b1011u32),
{
    ViterbiDecoder::with_generators(LE_CODED_CONSTRAINT_LENGTH, LE_CODED_G0, LE_CODED_G1)
}

/// Four symbols for each bit: the bit twice, then its complement twice.
pub open spec fn symbols_of(coded: Seq<u8>) -> Seq<u8> {
    Seq::new(
        4 * coded.len(),
        |i: int|
            if i % 4 < 2 {
                coded[i / 4]
            } else {
                (1 - coded[i / 4]) as u8
            },
    )
}

/// Maps coded bits to symbols.
pub fn pattern_map_s8(coded: &[u8], symbols: &mut [u8]) -> (r: Result<(), FecError>)
    requires
        4 * coded@.len() <= usize::MAX,
    ensures
        final(symbols)@.len() == old(symbols)@.len(),
        match r {
            Ok(_) => old(symbols)@.len() == 4 * coded@.len() && is_bits(coded@) && final(symbols)@
                == symbols_of(coded@),
            Err(e) => final(symbols)@ == old(symbols)@ && (old(symbols)@.len() != 4 * coded@.len()
                || !is_bits(coded@)) && e == (if old(symbols)@.len() != 4 * coded@.len() {
                FecError::BufferTooSmall {
                    required: (4 * coded@.len()) as usize,
                    provided: old(symbols)@.len() as usize,
                }
            } else {
                FecError::InvalidParam("coded bits must be 0 or 1 for pattern mapping")
            }),
        },
{
    let required: usize = coded.len() * 4;
    if symbols.len() != required {
        return Err(FecError::BufferTooSmall { required, provided: symbols.len() });
    }
    if !all_bits(coded) {
        return Err(FecError::InvalidParam("coded bits must be 0 or 1 for pattern mapping"));
    }
    let mut i: usize = 0;
    while i < coded.len()
        invariant
            i <= coded@.len(),
            is_bits(coded@),
            required == 4 * coded@.len(),
            symbols@.len() == required,
            forall|j: int| 0 <= j < 4 * i ==> #[trigger] symbols@[j] == symbols_of(coded@)[j],
        decreases coded@.len() - i,
    {
        let bit: u8 = coded[i];
        assert(coded@[i as int] <= 1);
        let ghost before = symbols@;
        symbols[4 * i] = bit;
        symbols[4 * i + 1] = bit;
        symbols[4 * i + 2] = 1 - bit;
        symbols[4 * i + 3] = 1 - bit;
        proof {
            let t = symbols_of(coded@);
            assert((4 * i) / 4 == i && (4 * i + 1) / 4 == i && (4 * i + 2) / 4 == i && (4 * i + 3)
                / 4 == i);
            assert(t[4 * i] == bit && t[4 * i + 1] == bit && t[4 * i + 2] == 1 - bit && t[4 * i + 3]
                == 1 - bit);
            assert forall|j: int| 0 <= j < 4 * (i + 1) implies #[trigger] symbols@[j] == t[j] by {
                if j < 4 * i {
                    assert(before[j] == t[j]);
                }
            }
        }
        i = i + 1;
    }
    assert(symbols@ =~= symbols_of(coded@));
    Ok(())
}

/// A likelihood is the sum of the first two of four, less the other two. The
/// likelihoods are single-precision patterns, `plus` adds two of them, and a
/// pattern is negated by its sign.
pub open spec fn demapped<F: Fn(u32, u32) -> u32>(plus: F, s: Seq<u32>, i: int, v: u32) -> bool {
    exists|x: u32, y: u32|
        {
            &&& #[trigger] call_ensures(plus, (s[4 * i], s[4 * i + 1]), x)
            &&& #[trigger] call_ensures(plus, (x, s[4 * i + 2] ^ 0x8000_0000), y)
            &&& call_ensures(plus, (y, s[4 * i + 3] ^ 0x8000_0000), v)
        }
}

/// Where every symbol's likelihood decides for what was sent, the combined
/// likelihoods decide for the coded bits.
pub proof fn lemma_demapped_decides<F: Fn(u32, u32) -> u32>(
    plus: F,
    coded: Seq<u8>,
    symbols: Seq<u32>,
    i: int,
    v: u32,
)
    requires
        is_bits(coded),
        0 <= i < coded.len(),
        crate::polar::all_decide(symbols, symbols_of(coded)),
        crate::polar::keeps_sign(plus),
        demapped(plus, symbols, i, v),
    ensures
        crate::soft::decides(v, coded[i]),
{
    let t = symbols_of(coded);
    assert(coded[i] <= 1);
    assert((4 * i) / 4 == i && (4 * i + 1) / 4 == i && (4 * i + 2) / 4 == i && (4 * i + 3) / 4
        == i);
    assert(t[4 * i] == coded[i] && t[4 * i + 1] == coded[i]);
    assert(t[4 * i + 2] == 1 - coded[i] && t[4 * i + 3] == 1 - coded[i]);
    assert(crate::soft::decides(symbols[4 * i], t[4 * i]));
    assert(crate::soft::decides(symbols[4 * i + 1], t[4 * i + 1]));
    assert(crate::soft::decides(symbols[4 * i + 2], t[4 * i + 2]));
    assert(crate::soft::decides(symbols[4 * i + 3], t[4 * i + 3]));
    crate::soft::lemma_patterns(symbols[4 * i + 2], 0);
    crate::soft::lemma_patterns(symbols[4 * i + 3], 0);
}

/// Each of the four symbols counts once: where the addition is exact, a
/// demapped likelihood is the sum of the first two numbers less the other
/// two.
pub proof fn lemma_demapped_sum<F: Fn(u32, u32) -> u32>(
    plus: F,
    unit: int,
    most: int,
    s: Seq<u32>,
    i: int,
    v: u32,
)
    requires
        unit > 0,
        adds_exactly(plus, unit, most),
        0 <= 4 * i,
        4 * i + 3 < s.len(),
        forall|j: int| 4 * i <= j < 4 * i + 4 ==> whole(#[trigger] s[j], unit),
        absolute(value(s[4 * i])) + absolute(value(s[4 * i + 1])) + absolute(value(s[4 * i + 2]))
            + absolute(value(s[4 * i + 3])) <= most,
        demapped(plus, s, i, v),
    ensures
        whole(v, unit),
        value(v) == value(s[4 * i]) + value(s[4 * i + 1]) - value(s[4 * i + 2]) - value(
            s[4 * i + 3],
        ),
{
    let a = s[4 * i];
    let b = s[4 * i + 1];
    let c = s[4 * i + 2];
    let d = s[4 * i + 3];
    let (x, y) = choose|x: u32, y: u32|
        {
            &&& #[trigger] call_ensures(plus, (s[4 * i], s[4 * i + 1]), x)
            &&& #[trigger] call_ensures(plus, (x, s[4 * i + 2] ^ 0x8000_0000), y)
            &&& call_ensures(plus, (y, s[4 * i + 3] ^ 0x8000_0000), v)
        };
    lemma_whole_signed(c, 1, unit);
    lemma_whole_signed(d, 1, unit);
    assert(whole(a, unit) && whole(b, unit) && whole(c, unit) && whole(d, unit));
    assert(value(x) == value(a) + value(b));
    assert(value(y) == value(x) - value(c));
}

/// One wrong symbol of four does no harm: where the likelihoods of the four
/// symbols of a coded bit are equally far from zero and three of them decide
/// for what was sent, the combined one decides for the bit.
pub proof fn lemma_demapped_outvotes<F: Fn(u32, u32) -> u32>(
    plus: F,
    unit: int,
    most: int,
    s: Seq<u32>,
    i: int,
    v: u32,
    bit: u8,
    size: int,
    wrong: int,
)
    requires
        unit > 0,
        adds_exactly(plus, unit, most),
        0 <= 4 * i,
        4 * i + 3 < s.len(),
        0 < size,
        4 * size <= most,
        bit <= 1,
        0 <= wrong < 4,
        forall|j: int| 4 * i <= j < 4 * i + 4 ==> whole(#[trigger] s[j], unit),
        forall|j: int|
            0 <= j < 4 ==> value(#[trigger] s[4 * i + j]) == (if (bit == 0) == ((j < 2) == (j
                != wrong)) {
                size
            } else {
                -size
            }),
        demapped(plus, s, i, v),
    ensures
        crate::soft::hard(v) == bit,
        value(v) != 0,
{
    assert(s[4 * i] == s[4 * i + 0]);
    assert(absolute(value(s[4 * i + 0])) == size && absolute(value(s[4 * i + 1])) == size
        && absolute(value(s[4 * i + 2])) == size && absolute(value(s[4 * i + 3])) == size);
    lemma_demapped_sum(plus, unit, most, s, i, v);
    lemma_value(v);
}

/// Combines the likelihoods of each four symbols into that of their bit.
pub fn pattern_demap_s8<F: Fn(u32, u32) -> u32>(
    symbol_llr: &[u32],
    coded_llr: &mut [u32],
    plus: &F,
) -> (r: Result<(), FecError>)
    requires
        forall|a: u32, b: u32| call_requires(*plus, (a, b)),
    ensures
        final(coded_llr)@.len() == old(coded_llr)@.len(),
        match r {
            Ok(_) => symbol_llr@.len() == 4 * old(coded_llr)@.len() && forall|i: int|
                0 <= i < old(coded_llr)@.len() ==> demapped(
                    *plus,
                    symbol_llr@,
                    i,
                    #[trigger] final(coded_llr)@[i],
                ),
            Err(e) => final(coded_llr)@ == old(coded_llr)@ && symbol_llr@.len() != 4 * old(
                coded_llr,
            )@.len() && e == (if symbol_llr@.len() % 4 != 0 {
                FecError::InvalidParam("S=8 symbol LLR length must be a multiple of 4")
            } else {
                FecError::BufferTooSmall {
                    required: (symbol_llr@.len() / 4) as usize,
                    provided: old(coded_llr)@.len() as usize,
                }
            }),
        },
{
    let total: usize = symbol_llr.len();
    if total % 4 != 0 {
        return Err(FecError::InvalidParam("S=8 symbol LLR length must be a multiple of 4"));
    }
    let required: usize = total / 4;
    if coded_llr.len() != required {
        return Err(FecError::BufferTooSmall { required, provided: coded_llr.len() });
    }
    let mut i: usize = 0;
    while i < required
        invariant
            i <= required,
            total == 4 * required,
            total == symbol_llr@.len(),
            coded_llr@.len() == required,
            forall|a: u32, b: u32| call_requires(*plus, (a, b)),
            forall|j: int|
                0 <= j < i ==> demapped(*plus, symbol_llr@, j, #[trigger] coded_llr@[j]),
        decreases required - i,
    {
        let x: u32 = plus(symbol_llr[4 * i], symbol_llr[4 * i + 1]);
        let y: u32 = plus(x, symbol_llr[4 * i + 2] ^ 0x8000_0000);
        let value: u32 = plus(y, symbol_llr[4 * i + 3] ^ 0x8000_0000);
        assert(demapped(*plus, symbol_llr@, i as int, value));
        coded_llr[i] = value;
        i = i + 1;
    }
    Ok(())
}

/// Each bit three times.
pub open spec fn tripled(bits: Seq<u8>) -> Seq<u8> {
    Seq::new(3 * bits.len(), |i: int| bits[i / 3])
}

/// The value that at least two of three bits have.
pub open spec fn majority(a: u8, b: u8, c: u8) -> u8 {
    if a + b + c >= 2 {
        1
    } else {
        0
    }
}

/// The majority of each triple.
pub open spec fn voted(coded: Seq<u8>) -> Seq<u8> {
    Seq::new(
        coded.len() / 3,
        |i: int| majority(coded[3 * i], coded[3 * i + 1], coded[3 * i + 2]),
    )
}

/// At most one entry of triple `i` differs.
pub open spec fn triple_close(a: Seq<u8>, b: Seq<u8>, i: int) -> bool {
    (a[3 * i] == b[3 * i] && a[3 * i + 1] == b[3 * i + 1]) || (a[3 * i] == b[3 * i] && a[3 * i + 2]
        == b[3 * i + 2]) || (a[3 * i + 1] == b[3 * i + 1] && a[3 * i + 2] == b[3 * i + 2])
}

/// One wrong bit in each triple does no harm.
pub proof fn lemma_fec13_corrects(bits: Seq<u8>, received: Seq<u8>)
    requires
        is_bits(bits),
        is_bits(received),
        received.len() == 3 * bits.len(),
        forall|i: int| 0 <= i < bits.len() ==> #[trigger] triple_close(received, tripled(bits), i),
    ensures
        voted(received) == bits,
{
    let t = tripled(bits);
    assert forall|i: int| 0 <= i < bits.len() implies #[trigger] voted(received)[i] == bits[i] by {
        assert(triple_close(received, t, i));
        assert((3 * i) / 3 == i && (3 * i + 1) / 3 == i && (3 * i + 2) / 3 == i);
        assert(t[3 * i] == bits[i] && t[3 * i + 1] == bits[i] && t[3 * i + 2] == bits[i]);
        assert(received[3 * i] <= 1 && received[3 * i + 1] <= 1 && received[3 * i + 2] <= 1);
        assert(bits[i] <= 1);
    }
    assert(voted(received) =~= bits);
}

/// Repeats each bit three times.
pub fn fec13_encode(bits: &[u8], out: &mut [u8]) -> (r: Result<(), FecError>)
    requires
        3 * bits@.len() <= usize::MAX,
    ensures
        final(out)@.len() == old(out)@.len(),
        match r {
            Ok(_) => old(out)@.len() == 3 * bits@.len() && is_bits(bits@) && final(out)@ == tripled(
                bits@,
            ),
            Err(e) => final(out)@ == old(out)@ && (old(out)@.len() != 3 * bits@.len() || !is_bits(
                bits@,
            )) && e == (if old(out)@.len() != 3 * bits@.len() {
                FecError::BufferTooSmall {
                    required: (3 * bits@.len()) as usize,
                    provided: old(out)@.len() as usize,
                }
            } else {
                FecError::InvalidParam("FEC 1/3 input bits must be 0 or 1")
            }),
        },
{
    let required: usize = bits.len() * 3;
    if out.len() != required {
        return Err(FecError::BufferTooSmall { required, provided: out.len() });
    }
    if !all_bits(bits) {
        return Err(FecError::InvalidParam("FEC 1/3 input bits must be 0 or 1"));
    }
    let mut i: usize = 0;
    while i < required
        invariant
            i <= required,
            required == 3 * bits@.len(),
            out@.len() == required,
            forall|j: int| 0 <= j < i ==> #[trigger] out@[j] == bits@[j / 3],
        decreases required - i,
    {
        out[i] = bits[i / 3];
        i = i + 1;
    }
    assert(out@ =~= tripled(bits@));
    Ok(())
}

/// Which error, if any, decoding with blocks of `coded` bits for `info` bits
/// returns.
pub open spec fn shape_error(
    input: Seq<u8>,
    from: nat,
    to: nat,
    provided: nat,
    length: &'static str,
    values: &'static str,
) -> Option<FecError> {
    if input.len() % from != 0 {
        Some(FecError::InvalidParam(length))
    } else if provided != input.len() / from * to {
        Some(
            FecError::BufferTooSmall {
                required: (input.len() / from * to) as usize,
                provided: provided as usize,
            },
        )
    } else if !is_bits(input) {
        Some(FecError::InvalidParam(values))
    } else {
        None
    }
}

/// Decides each bit by the majority of its three copies.
pub fn fec13_decode(coded: &[u8], out: &mut [u8]) -> (r: Result<(), FecError>)
    ensures
        final(out)@.len() == old(out)@.len(),
        ({
            let error = shape_error(
                coded@,
                3,
                1,
                old(out)@.len(),
                "FEC 1/3 coded length must be a multiple of 3",
                "FEC 1/3 coded bits must be 0 or 1",
            );
            match r {
                Ok(_) => error is None && final(out)@ == voted(coded@),
                Err(e) => error == Some(e) && final(out)@ == old(out)@,
            }
        }),
{
    let total: usize = coded.len();
    if total % 3 != 0 {
        return Err(FecError::InvalidParam("FEC 1/3 coded length must be a multiple of 3"));
    }
    let required: usize = total / 3;
    if out.len() != required {
        return Err(FecError::BufferTooSmall { required, provided: out.len() });
    }
    if !all_bits(coded) {
        return Err(FecError::InvalidParam("FEC 1/3 coded bits must be 0 or 1"));
    }
    let mut i: usize = 0;
    while i < required
        invariant
            i <= required,
            total == 3 * required,
            total == coded@.len(),
            is_bits(coded@),
            out@.len() == required,
            forall|j: int| 0 <= j < i ==> #[trigger] out@[j] == voted(coded@)[j],
        decreases required - i,
    {
        let a: u8 = coded[3 * i];
        let b: u8 = coded[3 * i + 1];
        let c: u8 = coded[3 * i + 2];
        assert(a <= 1 && b <= 1 && c <= 1);
        out[i] = if a + b + c >= 2 {
            1
        } else {
            0
        };
        i = i + 1;
    }
    assert(out@ =~= voted(coded@));
    Ok(())
}

/// Information bits of a block of the shortened Hamming code.
pub const FEC23_INFO_BITS: usize = 10;

/// Coded bits of a block.
pub const FEC23_CODED_BITS: usize = 15;

/// One step of the division by the generator polynomial.
pub open spec fn fec23_step(reg: u8, bit: u8) -> u8 {
    let shifted = (reg << 1) & 0x1F;
    if bit ^ ((reg >> 4) & 1) == 1 {
        shifted ^ 0b10101
    } else {
        shifted
    }
}

/// The parity of information bits: the remainder of their polynomial, times
/// `D^5`, divided by `D^5 + D^4 + D^2 + 1`.
pub open spec fn fec23_parity_of(info: Seq<u8>) -> u8
    decreases info.len(),
{
    if info.len() == 0 {
        0
    } else {
        fec23_step(fec23_parity_of(info.drop_last()), info.last())
    }
}

/// The five digits of a parity, the most significant first.
pub open spec fn parity_digits(p: u8) -> Seq<u8> {
    seq![(p >> 4) & 1, (p >> 3) & 1, (p >> 2) & 1, (p >> 1) & 1, (p >> 0) & 1]
}

/// The word of ten information bits.
pub open spec fn fec23_word(info: Seq<u8>) -> Seq<u8> {
    info + parity_digits(fec23_parity_of(info))
}

/// Fifteen bits that are a word of the code.
pub open spec fn is_fec23_word(w: Seq<u8>) -> bool {
    w.len() == 15 && is_bits(w) && w == fec23_word(w.take(10))
}

/// `w` with bit `i` flipped.
pub open spec fn flipped(w: Seq<u8>, i: int) -> Seq<u8> {
    w.update(i, w[i] ^ 1)
}

/// `w` is `s`, or `s` with one bit flipped.
pub open spec fn fec23_near(s: Seq<u8>, w: Seq<u8>) -> bool {
    s == w || exists|i: int| 0 <= i < s.len() && w == #[trigger] flipped(s, i)
}

/// What decoding a block gives: the information of the word at most one bit
/// away and whether a bit was corrected, or, where there is no such word,
/// the information as received and the block counted as lost.
pub open spec fn fec23_block(s: Seq<u8>, info: Seq<u8>, corrected: nat, lost: nat) -> bool {
    ||| exists|w: Seq<u8>| #[trigger]
        is_fec23_word(w) && fec23_near(s, w) && info == w.take(10) && lost == 0 && corrected == (
        if s == w {
            0nat
        } else {
            1nat
        })
    ||| (forall|w: Seq<u8>| #[trigger] is_fec23_word(w) ==> !fec23_near(s, w)) && info == s.take(10)
        && lost == 1 && corrected == 0
}

/// The change of the checks when bit `i` of a word flips.
spec fn column(i: u32) -> u8 {
    if i == 0 {
        0b11010
    } else if i == 1 {
        0b01101
    } else if i == 2 {
        0b11100
    } else if i == 3 {
        0b01110
    } else if i == 4 {
        0b00111
    } else if i == 5 {
        0b11001
    } else if i == 6 {
        0b10110
    } else if i == 7 {
        0b01011
    } else if i == 8 {
        0b11111
    } else if i == 9 {
        0b10101
    } else if i == 10 {
        0b10000
    } else if i == 11 {
        0b01000
    } else if i == 12 {
        0b00100
    } else if i == 13 {
        0b00010
    } else {
        0b00001
    }
}

spec fn column_if(v: u32, i: u32) -> u8 {
    if (v >> i) & 1 == 1 {
        column(i)
    } else {
        0
    }
}

/// The checks of a packed word.
spec fn checks_of(v: u32) -> u8 {
    column_if(v, 0) ^ column_if(v, 1) ^ column_if(v, 2) ^ column_if(v, 3) ^ column_if(v, 4)
        ^ column_if(v, 5) ^ column_if(v, 6) ^ column_if(v, 7) ^ column_if(v, 8) ^ column_if(v, 9)
        ^ column_if(v, 10) ^ column_if(v, 11) ^ column_if(v, 12) ^ column_if(v, 13)
        ^ column_if(v, 14)
}

/// The division and the checks agree, on fifteen bits.
proof fn lemma_division(
    b0: u8, b1: u8, b2: u8, b3: u8, b4: u8, b5: u8, b6: u8, b7: u8, b8: u8, b9: u8, b10: u8,
    b11: u8, b12: u8, b13: u8, b14: u8,
)
    by (bit_vector)
    requires
        b0 <= 1,
        b1 <= 1,
        b2 <= 1,
        b3 <= 1,
        b4 <= 1,
        b5 <= 1,
        b6 <= 1,
        b7 <= 1,
        b8 <= 1,
        b9 <= 1,
        b10 <= 1,
        b11 <= 1,
        b12 <= 1,
        b13 <= 1,
        b14 <= 1,
    ensures
        ({
            let r0 = fec23_step(0, b0);
            let r1 = fec23_step(r0, b1);
            let r2 = fec23_step(r1, b2);
            let r3 = fec23_step(r2, b3);
            let r4 = fec23_step(r3, b4);
            let r5 = fec23_step(r4, b5);
            let r6 = fec23_step(r5, b6);
            let r7 = fec23_step(r6, b7);
            let r8 = fec23_step(r7, b8);
            let r9 = fec23_step(r8, b9);
            let p = (b10 << 4) | (b11 << 3) | (b12 << 2) | (b13 << 1) | b14;
            let v = (((((((((((((((0u32 | (((b0 & 1) as u32) << 0)) | (((b1 & 1) as u32) << 1))
                | (((b2 & 1) as u32) << 2)) | (((b3 & 1) as u32) << 3)) | (((b4 & 1) as u32) << 4))
                | (((b5 & 1) as u32) << 5)) | (((b6 & 1) as u32) << 6)) | (((b7 & 1) as u32) << 7))
                | (((b8 & 1) as u32) << 8)) | (((b9 & 1) as u32) << 9))
                | (((b10 & 1) as u32) << 10)) | (((b11 & 1) as u32) << 11))
                | (((b12 & 1) as u32) << 12)) | (((b13 & 1) as u32) << 13))
                | (((b14 & 1) as u32) << 14));
            &&& r9 < 32
            &&& r9 ^ p == checks_of(v)
            &&& (r9 ^ p == 0) == ((r9 >> 4) & 1 == b10 && (r9 >> 3) & 1 == b11 && (r9 >> 2) & 1 == b12
                && (r9 >> 1) & 1 == b13 && (r9 >> 0) & 1 == b14)
        }),
{
}

/// Facts about the columns: all different, none zero, none the sum of two
/// others.
proof fn lemma_distinct(i: u32, j: u32, k: u32)
    by (bit_vector)
    requires
        i < 15,
        j < 15,
        k < 15,
    ensures
        checks_of(1u32 << i) == column(i),
        (1u32 << i) < 0x8000,
        i != j ==> column(i) != column(j),
        column(i) != 0,
        i != j ==> column(i) ^ column(j) != column(k),
        i < j ==> (1u32 << i) | (1u32 << j) == (1u32 << i) ^ (1u32 << j),
        i < j < k ==> ((1u32 << i) | (1u32 << j)) | (1u32 << k) == ((1u32 << i) ^ (1u32 << j)) ^ (
        1u32 << k),
        column(10) == 16,
        column(11) == 8,
        column(12) == 4,
        column(13) == 2,
        column(14) == 1,
        checks_of(0) == 0,
{
}

/// The checks are linear.
proof fn lemma_linear(v: u32, w: u32, i: u32)
    by (bit_vector)
    requires
        v < 0x8000,
        w < 0x8000,
        i < 15,
    ensures
        ((v ^ w) >> i) & 1 == ((v >> i) & 1) ^ ((w >> i) & 1),
        golay::low(v ^ w, 15) == v ^ w,
        checks_of(v ^ w) == checks_of(v) ^ checks_of(w),
        checks_of(v) < 32,
        v ^ w < 0x8000,
        (v ^ w == 0) == (v == w),
{
}

proof fn lemma_xor_zero(a: u8, b: u8, v: u32, j: u32)
    by (bit_vector)
    requires
        j < 32,
    ensures
        (a ^ b == 0) == (a == b),
        0 ^ a == a,
        golay::low(v, 15) == v ==> v < 0x8000,
        (0u32 >> j) & 1 == 0,
        golay::low(0, 15) == 0,
{
}

proof fn lemma_columns(v: u32, w: u32, i: u32, j: u32, k: u32)
    requires
        v < 0x8000,
        w < 0x8000,
        i < 15,
        j < 15,
        k < 15,
    ensures
        checks_of(v ^ w) == checks_of(v) ^ checks_of(w),
        checks_of(1u32 << i) == column(i),
        (1u32 << i) < 0x8000,
        i != j ==> column(i) != column(j),
        column(i) != 0,
        i != j ==> column(i) ^ column(j) != column(k),
        i != j ==> column(i) ^ column(j) != 0,
        i < j ==> (1u32 << i) | (1u32 << j) == (1u32 << i) ^ (1u32 << j),
        i < j < k ==> ((1u32 << i) | (1u32 << j)) | (1u32 << k) == ((1u32 << i) ^ (1u32 << j)) ^ (
        1u32 << k),
        checks_of(v) < 32,
        (checks_of(v) ^ checks_of(w) == 0) == (checks_of(v) == checks_of(w)),
        (checks_of(v) ^ column(i) == 0) == (checks_of(v) == column(i)),
        0u8 ^ column(i) == column(i),
        (v ^ w == 0) == (v == w),
        v ^ w < 0x8000,
        column(10) == 16,
        column(11) == 8,
        column(12) == 4,
        column(13) == 2,
        column(14) == 1,
        checks_of(0) == 0,
{
    lemma_distinct(i, j, k);
    lemma_linear(v, w, i);
    lemma_xor_zero(checks_of(v), checks_of(w), 0, 0);
    lemma_xor_zero(checks_of(v), column(i), 0, 0);
    lemma_xor_zero(column(i), column(j), 0, 0);
}

proof fn lemma_packed_bound(w: Seq<u8>)
    requires
        w.len() == 15,
    ensures
        packed(w, 15) < 0x8000,
{
    golay::lemma_packed(w, 15, 0);
    lemma_xor_zero(0, 0, packed(w, 15), 0);
}

/// The received parity, as a number.
spec fn received(w: Seq<u8>) -> u8 {
    (w[10] << 4) | (w[11] << 3) | (w[12] << 2) | (w[13] << 1) | w[14]
}

/// The checks are the computed parity plus the received one, and vanish on
/// the words of the code and nowhere else.
proof fn lemma_checks(w: Seq<u8>)
    requires
        w.len() == 15,
        is_bits(w),
    ensures
        checks_of(packed(w, 15)) == fec23_parity_of(w.take(10)) ^ received(w),
        is_fec23_word(w) <==> checks_of(packed(w, 15)) == 0,
        fec23_parity_of(w.take(10)) < 32,
{
    reveal_with_fuel(packed, 16);
    assert(w[0] <= 1 && w[1] <= 1 && w[2] <= 1 && w[3] <= 1 && w[4] <= 1 && w[5] <= 1 && w[6] <= 1
        && w[7] <= 1 && w[8] <= 1 && w[9] <= 1 && w[10] <= 1 && w[11] <= 1 && w[12] <= 1 && w[13]
        <= 1 && w[14] <= 1);
    lemma_division(
        w[0],
        w[1],
        w[2],
        w[3],
        w[4],
        w[5],
        w[6],
        w[7],
        w[8],
        w[9],
        w[10],
        w[11],
        w[12],
        w[13],
        w[14],
    );
    assert(w.take(0) =~= Seq::<u8>::empty());
    assert(w.take(1).drop_last() =~= w.take(0));
    assert(fec23_parity_of(w.take(1)) == fec23_step(fec23_parity_of(w.take(0)), w[0]));
    assert(w.take(2).drop_last() =~= w.take(1));
    assert(fec23_parity_of(w.take(2)) == fec23_step(fec23_parity_of(w.take(1)), w[1]));
    assert(w.take(3).drop_last() =~= w.take(2));
    assert(fec23_parity_of(w.take(3)) == fec23_step(fec23_parity_of(w.take(2)), w[2]));
    assert(w.take(4).drop_last() =~= w.take(3));
    assert(fec23_parity_of(w.take(4)) == fec23_step(fec23_parity_of(w.take(3)), w[3]));
    assert(w.take(5).drop_last() =~= w.take(4));
    assert(fec23_parity_of(w.take(5)) == fec23_step(fec23_parity_of(w.take(4)), w[4]));
    assert(w.take(6).drop_last() =~= w.take(5));
    assert(fec23_parity_of(w.take(6)) == fec23_step(fec23_parity_of(w.take(5)), w[5]));
    assert(w.take(7).drop_last() =~= w.take(6));
    assert(fec23_parity_of(w.take(7)) == fec23_step(fec23_parity_of(w.take(6)), w[6]));
    assert(w.take(8).drop_last() =~= w.take(7));
    assert(fec23_parity_of(w.take(8)) == fec23_step(fec23_parity_of(w.take(7)), w[7]));
    assert(w.take(9).drop_last() =~= w.take(8));
    assert(fec23_parity_of(w.take(9)) == fec23_step(fec23_parity_of(w.take(8)), w[8]));
    assert(w.take(10).drop_last() =~= w.take(9));
    assert(fec23_parity_of(w.take(10)) == fec23_step(fec23_parity_of(w.take(9)), w[9]));
    let p = fec23_parity_of(w.take(10));
    let word = fec23_word(w.take(10));
    assert(word[10] == (p >> 4) & 1 && word[11] == (p >> 3) & 1 && word[12] == (p >> 2) & 1
        && word[13] == (p >> 1) & 1 && word[14] == (p >> 0) & 1);
    if checks_of(packed(w, 15)) == 0 {
        assert(w =~= word);
    }
}

proof fn lemma_flip(s: Seq<u8>, i: int)
    requires
        s.len() == 15,
        is_bits(s),
        0 <= i < 15,
    ensures
        is_bits(flipped(s, i)),
        flipped(s, i) != s,
        checks_of(packed(flipped(s, i), 15)) == checks_of(packed(s, 15)) ^ column(i as u32),
        is_fec23_word(flipped(s, i)) <==> checks_of(packed(s, 15)) == column(i as u32),
        packed(flipped(s, i), 15) == packed(s, 15) ^ (1u32 << (i as u32)),
{
    let f = flipped(s, i);
    lemma_packed_bound(s);
    golay::lemma_packed_flip(s, 15, i);
    lemma_columns(0, 0, i as u32, 0, 0);
    lemma_columns(packed(s, 15), 1u32 << (i as u32), i as u32, 0, 0);
    assert(s[i] <= 1);
    crate::bits::lemma_low_bit(s[i]);
    assert(f[i] == 1 - s[i]);
    assert forall|j: int| 0 <= j < 15 implies #[trigger] f[j] <= 1 by {
        assert(s[j] <= 1);
    }
    lemma_checks(f);
}

/// A word at most one bit away is the only one.
pub proof fn lemma_fec23_unique(s: Seq<u8>, w: Seq<u8>, x: Seq<u8>)
    requires
        s.len() == 15,
        is_bits(s),
        is_fec23_word(w),
        is_fec23_word(x),
        fec23_near(s, w),
        fec23_near(s, x),
    ensures
        w == x,
{
    lemma_checks(s);
    lemma_packed_bound(s);
    lemma_columns(packed(s, 15), 0, 0, 0, 0);
    if s != w {
        let i = choose|i: int| 0 <= i < s.len() && w == #[trigger] flipped(s, i);
        lemma_flip(s, i);
        lemma_columns(0, 0, i as u32, 0, 0);
        if s != x {
            let j = choose|j: int| 0 <= j < s.len() && x == #[trigger] flipped(s, j);
            lemma_flip(s, j);
            lemma_columns(0, 0, i as u32, j as u32, 0);
        }
    } else if s != x {
        let j = choose|j: int| 0 <= j < s.len() && x == #[trigger] flipped(s, j);
        lemma_flip(s, j);
        lemma_columns(0, 0, j as u32, 0, 0);
    }
}

proof fn lemma_places(b0: u32, b1: u32, b2: u32)
    by (bit_vector)
    requires
        b0 < 32,
        b1 < 32,
        b2 < 32,
    ensures
        golay::one(b0) < 0x8000 ==> b0 < 15,
        golay::two(b0, b1) < 0x8000 ==> b0 < 15 && b1 < 15,
        golay::three(b0, b1, b2) < 0x8000 ==> b0 < 15 && b1 < 15 && b2 < 15,
{
}

/// Fewer than four ones never pass the checks.
proof fn lemma_four_ones(v: u32)
    requires
        v < 0x8000,
        v != 0,
        checks_of(v) == 0,
    ensures
        weight(v) >= 4,
{
    if weight(v) <= 3 {
        let b = golay::lemma_patterns_complete(v);
        if b.0 < 24 && v == golay::one(b.0) {
            lemma_places(b.0, 0, 0);
            lemma_columns(0, 0, b.0, 0, 0);
        } else if b.0 < b.1 < 24 && v == golay::two(b.0, b.1) {
            lemma_places(b.0, b.1, 0);
            lemma_columns(0, 0, b.0, b.1, 0);
            lemma_columns(0, 0, b.1, 0, 0);
            lemma_columns(1u32 << b.0, 1u32 << b.1, b.0, b.1, 0);
        } else {
            lemma_places(b.0, b.1, b.2);
            lemma_columns(0, 0, b.0, b.1, b.2);
            lemma_columns(0, 0, b.1, 0, 0);
            lemma_columns(0, 0, b.2, 0, 0);
            let x = (1u32 << b.0) ^ (1u32 << b.1);
            lemma_columns(1u32 << b.0, 1u32 << b.1, b.0, b.1, b.2);
            lemma_columns(x, 1u32 << b.2, b.2, 0, 0);
        }
    }
}

/// Two different words differ in at least four bits.
pub proof fn lemma_fec23_distance(a: Seq<u8>, b: Seq<u8>)
    requires
        is_fec23_word(a),
        is_fec23_word(b),
        a != b,
    ensures
        weight(packed(a, 15) ^ packed(b, 15)) >= 4,
{
    let v = packed(a, 15);
    let w = packed(b, 15);
    lemma_checks(a);
    lemma_checks(b);
    lemma_packed_bound(a);
    lemma_packed_bound(b);
    lemma_columns(v, w, 0, 0, 0);
    lemma_columns(v ^ w, 0, 0, 0, 0);
    if v != w {
        lemma_four_ones(v ^ w);
    } else {
        assert forall|i: int| 0 <= i < 15 implies a[i] == b[i] by {
            golay::lemma_packed(a, 15, i as u32);
            golay::lemma_packed(b, 15, i as u32);
            assert(a[i] <= 1 && b[i] <= 1);
            crate::bits::lemma_low_bit(a[i]);
            crate::bits::lemma_low_bit(b[i]);
        }
        assert(a =~= b);
    }
}

/// The words form a linear code: the sum of two is a word.
pub proof fn lemma_fec23_linear(a: Seq<u8>, b: Seq<u8>)
    requires
        is_fec23_word(a),
        is_fec23_word(b),
    ensures
        is_fec23_word(crate::polar::xored(a, b)),
{
    let s = crate::polar::xored(a, b);
    let v = packed(a, 15);
    let w = packed(b, 15);
    assert forall|i: int| 0 <= i < 15 implies #[trigger] s[i] <= 1 by {
        assert(a[i] <= 1 && b[i] <= 1);
        crate::bits::lemma_xor_bits(a[i], b[i]);
    }
    lemma_checks(a);
    lemma_checks(b);
    lemma_checks(s);
    lemma_packed_bound(a);
    lemma_packed_bound(b);
    lemma_columns(v, w, 0, 0, 0);
    assert forall|i: u32| i < 15 implies #[trigger] ((packed(s, 15) >> i) & 1) == ((v ^ w) >> i)
        & 1 by {
        golay::lemma_packed(a, 15, i);
        golay::lemma_packed(b, 15, i);
        golay::lemma_packed(s, 15, i);
        lemma_linear(v, w, i);
        assert(a[i as int] <= 1 && b[i as int] <= 1 && s[i as int] <= 1);
        crate::bits::lemma_low_bit(a[i as int]);
        crate::bits::lemma_low_bit(b[i as int]);
        crate::bits::lemma_low_bit(s[i as int]);
    }
    golay::lemma_same_bits(packed(s, 15), v ^ w, 15);
    golay::lemma_packed(s, 15, 0);
    lemma_linear(v, w, 0);
}

/// A single wrong bit is always corrected.
pub proof fn lemma_fec23_corrects_single(w: Seq<u8>, i: int, info: Seq<u8>, corrected: nat, lost: nat)
    requires
        is_fec23_word(w),
        0 <= i < 15,
        fec23_block(flipped(w, i), info, corrected, lost),
    ensures
        info == w.take(10),
        corrected == 1,
        lost == 0,
{
    let s = flipped(w, i);
    lemma_flip(w, i);
    assert(w[i] <= 1);
    crate::bits::lemma_low_bit(w[i]);
    crate::bits::lemma_low_bit(s[i]);
    assert(flipped(s, i) =~= w);
    assert(fec23_near(s, w));
    if lost == 0 {
        let x = choose|x: Seq<u8>| #[trigger]
            is_fec23_word(x) && fec23_near(s, x) && info == x.take(10) && lost == 0 && corrected == (
            if s == x {
                0nat
            } else {
                1nat
            });
        lemma_fec23_unique(s, w, x);
    }
}

/// Two wrong bits in a block are always detected.
pub proof fn lemma_fec23_detects_double(
    w: Seq<u8>,
    i: int,
    j: int,
    info: Seq<u8>,
    corrected: nat,
    lost: nat,
)
    requires
        is_fec23_word(w),
        0 <= i < 15,
        0 <= j < 15,
        i != j,
        fec23_block(flipped(flipped(w, i), j), info, corrected, lost),
    ensures
        lost == 1,
        corrected == 0,
        info == flipped(flipped(w, i), j).take(10),
{
    let f = flipped(w, i);
    let s = flipped(f, j);
    lemma_checks(w);
    lemma_flip(w, i);
    lemma_flip(f, j);
    lemma_columns(0, 0, i as u32, j as u32, 0);
    assert forall|x: Seq<u8>| #[trigger] is_fec23_word(x) implies !fec23_near(s, x) by {
        lemma_checks(s);
        if fec23_near(s, x) && s != x {
            let k = choose|k: int| 0 <= k < s.len() && x == #[trigger] flipped(s, k);
            lemma_flip(s, k);
            lemma_columns(0, 0, i as u32, j as u32, k as u32);
        }
    }
}

/// What a batch reports: bits corrected and blocks lost.
#[derive(Clone, Copy, Debug, PartialEq, Eq, Structural)]
pub struct Fec23Status {
    /// Number of corrected bits, at most one for each block.
    pub corrected_bits: usize,
    /// Number of blocks with at least two errors, passed on as received.
    pub uncorrectable_blocks: usize,
}

/// One where a block is lost.
pub open spec fn fec23_lost(s: Seq<u8>) -> nat {
    if exists|w: Seq<u8>| #[trigger] is_fec23_word(w) && fec23_near(s, w) {
        0
    } else {
        1
    }
}

/// One where a bit of a block is corrected.
pub open spec fn fec23_fixes(s: Seq<u8>) -> nat {
    if fec23_lost(s) == 0 && !is_fec23_word(s) {
        1
    } else {
        0
    }
}

/// Block `k` of coded bits.
pub open spec fn coded_block(coded: Seq<u8>, k: int) -> Seq<u8> {
    coded.subrange(15 * k, 15 * k + 15)
}

/// Block `k` of information bits.
pub open spec fn info_block(info: Seq<u8>, k: int) -> Seq<u8> {
    info.subrange(10 * k, 10 * k + 10)
}

/// Bits corrected in the first `n` blocks.
pub open spec fn total_fixes(coded: Seq<u8>, n: nat) -> nat
    decreases n,
{
    if n == 0 {
        0
    } else {
        total_fixes(coded, (n - 1) as nat) + fec23_fixes(coded_block(coded, n - 1))
    }
}

/// Blocks lost among the first `n`.
pub open spec fn total_lost(coded: Seq<u8>, n: nat) -> nat
    decreases n,
{
    if n == 0 {
        0
    } else {
        total_lost(coded, (n - 1) as nat) + fec23_lost(coded_block(coded, n - 1))
    }
}

/// Block `k` of the output is what block `k` of the input decodes to.
pub open spec fn block_decoded(coded: Seq<u8>, out: Seq<u8>, k: int) -> bool {
    fec23_block(
        coded_block(coded, k),
        info_block(out, k),
        fec23_fixes(coded_block(coded, k)),
        fec23_lost(coded_block(coded, k)),
    )
}

/// Block `k` of the output is the word of block `k` of the input.
pub open spec fn block_encoded(info: Seq<u8>, out: Seq<u8>, k: int) -> bool {
    coded_block(out, k) == fec23_word(info_block(info, k))
}

/// Divides ten bits, from index `at` on, by the generator polynomial.
fn fec23_parity(bits: &[u8], at: usize) -> (p: u8)
    requires
        at + 10 <= bits@.len(),
    ensures
        p == fec23_parity_of(bits@.subrange(at as int, at + 10)),
{
    let total: usize = bits.len();
    let ghost block = bits@.subrange(at as int, at + 10);
    let mut reg: u8 = 0;
    let mut i: usize = 0;
    assert(block.take(0) =~= Seq::<u8>::empty());
    while i < 10
        invariant
            i <= 10,
            at + 10 <= total,
            total == bits@.len(),
            block == bits@.subrange(at as int, at + 10),
            reg == fec23_parity_of(block.take(i as int)),
        decreases 10 - i,
    {
        let feedback: u8 = bits[at + i] ^ ((reg >> 4) & 1);
        assert(block.take(i + 1).drop_last() =~= block.take(i as int));
        let shifted: u8 = (reg << 1) & 0x1F;
        reg = if feedback == 1 {
            shifted ^ 0b10101
        } else {
            shifted
        };
        i = i + 1;
    }
    assert(block.take(10) =~= block);
    reg
}

/// Encodes blocks of ten bits.
pub fn fec23_encode(info: &[u8], out: &mut [u8]) -> (r: Result<(), FecError>)
    requires
        info@.len() / 10 * 15 <= usize::MAX,
    ensures
        ({
            let error = shape_error(
                info@,
                10,
                15,
                old(out)@.len(),
                "FEC 2/3 info length must be a multiple of 10",
                "FEC 2/3 info bits must be 0 or 1",
            );
            match r {
                Ok(_) => error is None && final(out)@.len() == old(out)@.len() && forall|k: int|
                    0 <= k < info@.len() / 10 ==> #[trigger] block_encoded(info@, final(out)@, k),
                Err(e) => error == Some(e) && final(out)@ == old(out)@,
            }
        }),
{
    let total: usize = info.len();
    if total % 10 != 0 {
        return Err(FecError::InvalidParam("FEC 2/3 info length must be a multiple of 10"));
    }
    let blocks: usize = total / 10;
    let required: usize = blocks * 15;
    if out.len() != required {
        return Err(FecError::BufferTooSmall { required, provided: out.len() });
    }
    if !all_bits(info) {
        return Err(FecError::InvalidParam("FEC 2/3 info bits must be 0 or 1"));
    }
    let mut k: usize = 0;
    while k < blocks
        invariant
            k <= blocks,
            total == 10 * blocks,
            total == info@.len(),
            required == 15 * blocks,
            out@.len() == required,
            forall|b: int| 0 <= b < k ==> #[trigger] block_encoded(info@, out@, b),
        decreases blocks - k,
    {
        let parity: u8 = fec23_parity(info, 10 * k);
        let ghost before = out@;
        let ghost word = fec23_word(info_block(info@, k as int));
        let mut j: usize = 0;
        while j < 15
            invariant
                k < blocks,
                j <= 15,
                total == 10 * blocks,
                total == info@.len(),
                required == 15 * blocks,
                out@.len() == required,
                before.len() == required,
                parity == fec23_parity_of(info_block(info@, k as int)),
                word == fec23_word(info_block(info@, k as int)),
                forall|i: int| 0 <= i < j ==> #[trigger] out@[15 * k + i] == word[i],
                forall|i: int| 0 <= i < 15 * k ==> #[trigger] out@[i] == before[i],
            decreases 15 - j,
        {
            let bit: u8 = if j < 10 {
                info[10 * k + j]
            } else {
                (parity >> ((14 - j) as u8)) & 1
            };
            proof {
                if j >= 10 {
                    assert(j == 10 || j == 11 || j == 12 || j == 13 || j == 14);
                    assert(word[j as int] == parity_digits(parity)[j - 10]);
                }
                assert(bit == word[j as int]);
            }
            out[15 * k + j] = bit;
            j = j + 1;
        }
        proof {
            assert forall|b: int| 0 <= b < k + 1 implies #[trigger] block_encoded(info@, out@, b) by {
                if b < k {
                    assert(block_encoded(info@, before, b));
                    assert(coded_block(out@, b) =~= coded_block(before, b));
                } else {
                    assert forall|i: int| 0 <= i < 15 implies coded_block(out@, b)[i] == word[i] by {
                        assert(out@[15 * k + i] == word[i]);
                    }
                    assert(coded_block(out@, b) =~= word);
                }
            }
        }
        k = k + 1;
    }
    Ok(())
}

/// The checks of fifteen bits from index `at` on.
fn block_checks(coded: &[u8], at: usize) -> (s: u8)
    requires
        at + 15 <= coded@.len(),
        is_bits(coded@),
    ensures
        s == checks_of(packed(coded@.subrange(at as int, at + 15), 15)),
{
    let total: usize = coded.len();
    let ghost w = coded@.subrange(at as int, at + 15);
    let p: u8 = fec23_parity(coded, at);
    assert(at + 15 <= total);
    let q: u8 = (coded[at + 10] << 4) | (coded[at + 11] << 3) | (coded[at + 12] << 2) | (coded[at
        + 13] << 1) | coded[at + 14];
    proof {
        assert forall|j: int| 0 <= j < 15 implies #[trigger] w[j] <= 1 by {
            assert(coded@[at + j] <= 1);
        }
        assert(w.take(10) =~= coded@.subrange(at as int, at + 10));
        lemma_checks(w);
    }
    p ^ q
}

/// The checks of a word with only information bit `i` set.
fn info_column(i: usize) -> (c: u8)
    requires
        i < 10,
    ensures
        c == column(i as u32),
{
    let mut probe: [u8; 15] = [0; 15];
    let ghost zero = probe@;
    proof {
        assert(is_bits(zero));
        lemma_flip(zero, i as int);
        lemma_zero_packed(zero);
        lemma_columns(0, 0, i as u32, 0, 0);
        crate::bits::lemma_low_bit(0);
    }
    probe[i] = 1;
    assert(probe@ =~= flipped(zero, i as int));
    let c: u8 = block_checks(&probe, 0);
    assert(probe@.subrange(0, 15) =~= probe@);
    c
}

proof fn lemma_zero_packed(w: Seq<u8>)
    requires
        w.len() == 15,
        forall|i: int| 0 <= i < 15 ==> w[i] == 0,
    ensures
        packed(w, 15) == 0,
{
    lemma_packed_bound(w);
    golay::lemma_packed(w, 15, 0);
    let v = packed(w, 15);
    assert forall|j: u32| j < 15 implies #[trigger] ((v >> j) & 1) == (0u32 >> j) & 1 by {
        golay::lemma_packed(w, 15, j);
        crate::bits::lemma_low_bit(0);
        lemma_xor_zero(0, 0, 0, j);
    }
    golay::lemma_same_bits(v, 0, 15);
    lemma_xor_zero(0, 0, 0, 0);
}

/// Which bit of a block is wrong: none, bit `i`, or more than one.
fn locate(syndrome: u8) -> (r: Option<usize>)
    requires
        syndrome != 0,
    ensures
        match r {
            Some(i) => i < 15 && syndrome == column(i as u32),
            None => forall|i: u32| i < 15 ==> syndrome != #[trigger] column(i),
        },
{
    let mut i: usize = 0;
    while i < 10
        invariant
            i <= 10,
            forall|k: u32| k < i ==> syndrome != #[trigger] column(k),
        decreases 10 - i,
    {
        if info_column(i) == syndrome {
            return Some(i);
        }
        i = i + 1;
    }
    proof {
        lemma_columns(0, 0, 0, 0, 0);
    }
    if syndrome == 16 {
        return Some(10);
    }
    if syndrome == 8 {
        return Some(11);
    }
    if syndrome == 4 {
        return Some(12);
    }
    if syndrome == 2 {
        return Some(13);
    }
    if syndrome == 1 {
        return Some(14);
    }
    proof {
        assert forall|k: u32| k < 15 implies syndrome != #[trigger] column(k) by {
            if k >= 10 {
                assert(k == 10 || k == 11 || k == 12 || k == 13 || k == 14);
            }
        }
    }
    None
}

proof fn lemma_block(s: Seq<u8>, at: Option<int>)
    requires
        s.len() == 15,
        is_bits(s),
        checks_of(packed(s, 15)) != 0,
        match at {
            Some(i) => 0 <= i < 15 && checks_of(packed(s, 15)) == column(i as u32),
            None => forall|i: u32| i < 15 ==> checks_of(packed(s, 15)) != #[trigger] column(i),
        },
    ensures
        match at {
            Some(i) => fec23_lost(s) == 0 && fec23_fixes(s) == 1 && fec23_block(
                s,
                flipped(s, i).take(10),
                1,
                0,
            ),
            None => fec23_lost(s) == 1 && fec23_fixes(s) == 0 && fec23_block(s, s.take(10), 0, 1),
        },
{
    lemma_checks(s);
    match at {
        Some(i) => {
            lemma_flip(s, i);
            assert(is_fec23_word(flipped(s, i)) && fec23_near(s, flipped(s, i)));
        },
        None => {
            assert forall|w: Seq<u8>| #[trigger] is_fec23_word(w) implies !fec23_near(s, w) by {
                if fec23_near(s, w) && s != w {
                    let i = choose|i: int| 0 <= i < s.len() && w == #[trigger] flipped(s, i);
                    lemma_flip(s, i);
                    assert(checks_of(packed(s, 15)) != column(i as u32));
                }
            }
        },
    }
}

/// Decodes blocks of fifteen bits.
pub fn fec23_decode(coded: &[u8], out: &mut [u8]) -> (r: Result<Fec23Status, FecError>)
    ensures
        final(out)@.len() == old(out)@.len(),
        ({
            let error = shape_error(
                coded@,
                15,
                10,
                old(out)@.len(),
                "FEC 2/3 coded length must be a multiple of 15",
                "FEC 2/3 coded bits must be 0 or 1",
            );
            match r {
                Ok(status) => error is None && status.corrected_bits == total_fixes(
                    coded@,
                    coded@.len() / 15,
                ) && status.uncorrectable_blocks == total_lost(coded@, coded@.len() / 15) && forall|
                    k: int,
                |
                    0 <= k < coded@.len() / 15 ==> #[trigger] block_decoded(coded@, final(out)@, k),
                Err(e) => error == Some(e) && final(out)@ == old(out)@,
            }
        }),
{
    let total: usize = coded.len();
    if total % 15 != 0 {
        return Err(FecError::InvalidParam("FEC 2/3 coded length must be a multiple of 15"));
    }
    let blocks: usize = total / 15;
    let required: usize = blocks * 10;
    if out.len() != required {
        return Err(FecError::BufferTooSmall { required, provided: out.len() });
    }
    if !all_bits(coded) {
        return Err(FecError::InvalidParam("FEC 2/3 coded bits must be 0 or 1"));
    }
    let mut corrected_bits: usize = 0;
    let mut uncorrectable_blocks: usize = 0;
    let mut k: usize = 0;
    while k < blocks
        invariant
            k <= blocks,
            total == 15 * blocks,
            total == coded@.len(),
            required == 10 * blocks,
            is_bits(coded@),
            out@.len() == required,
            corrected_bits <= k,
            uncorrectable_blocks <= k,
            corrected_bits == total_fixes(coded@, k as nat),
            uncorrectable_blocks == total_lost(coded@, k as nat),
            forall|b: int| 0 <= b < k ==> #[trigger] block_decoded(coded@, out@, b),
        decreases blocks - k,
    {
        let ghost s = coded_block(coded@, k as int);
        let ghost before = out@;
        proof {
            assert forall|j: int| 0 <= j < 15 implies #[trigger] s[j] <= 1 by {
                assert(coded@[15 * k + j] <= 1);
            }
            lemma_checks(s);
        }
        let syndrome: u8 = block_checks(coded, 15 * k);
        let at: Option<usize> = if syndrome == 0 {
            None
        } else {
            locate(syndrome)
        };
        let ghost result = if at is Some {
            flipped(s, at.unwrap() as int)
        } else {
            s
        };
        let mut j: usize = 0;
        while j < 10
            invariant
                k < blocks,
                j <= 10,
                total == 15 * blocks,
                total == coded@.len(),
                required == 10 * blocks,
                out@.len() == required,
                before.len() == required,
                s == coded_block(coded@, k as int),
                result == (if at is Some {
                    flipped(s, at.unwrap() as int)
                } else {
                    s
                }),
                at is Some ==> at.unwrap() < 15,
                forall|i: int| 0 <= i < j ==> #[trigger] out@[10 * k + i] == result[i],
                forall|i: int| 0 <= i < 10 * k ==> #[trigger] out@[i] == before[i],
            decreases 10 - j,
        {
            let bit: u8 = coded[15 * k + j];
            let flip: bool = match at {
                Some(i) => i == j,
                None => false,
            };
            let value: u8 = if flip {
                bit ^ 1
            } else {
                bit
            };
            assert(value == result[j as int]);
            out[10 * k + j] = value;
            j = j + 1;
        }
        proof {
            assert(info_block(out@, k as int) =~= result.take(10)) by {
                assert forall|i: int| 0 <= i < 10 implies info_block(out@, k as int)[i]
                    == result.take(10)[i] by {
                    assert(out@[10 * k + i] == result[i]);
                }
            }
            if syndrome == 0 {
                assert(is_fec23_word(s) && fec23_near(s, s));
                assert(fec23_lost(s) == 0 && fec23_fixes(s) == 0);
            } else {
                lemma_block(
                    s,
                    if at is Some {
                        Some(at.unwrap() as int)
                    } else {
                        None
                    },
                );
            }
            assert forall|b: int| 0 <= b < k + 1 implies #[trigger] block_decoded(coded@, out@, b) by {
                if b < k {
                    assert(block_decoded(coded@, before, b));
                    assert(info_block(out@, b) =~= info_block(before, b));
                }
            }
        }
        if syndrome != 0 {
            if at.is_some() {
                corrected_bits = corrected_bits + 1;
            } else {
                uncorrectable_blocks = uncorrectable_blocks + 1;
            }
        }
        k = k + 1;
    }
    Ok(Fec23Status { corrected_bits, uncorrectable_blocks })
}

/// Decoding gives back what was encoded, with nothing to correct.
pub proof fn lemma_fec23_roundtrip(info: Seq<u8>, block: Seq<u8>, corrected: nat, lost: nat)
    requires
        info.len() == 10,
        is_bits(info),
        fec23_block(fec23_word(info), block, corrected, lost),
    ensures
        block == info,
        corrected == 0,
        lost == 0,
{
    let w = fec23_word(info);
    assert(w.take(10) =~= info);
    assert forall|j: int| 0 <= j < 15 implies #[trigger] w[j] <= 1 by {
        if j < 10 {
            assert(info[j] <= 1);
        } else {
            let p = fec23_parity_of(info);
            assert(w[j] == parity_digits(p)[j - 10]);
            crate::bits::lemma_low_bit(p >> 4);
            crate::bits::lemma_low_bit(p >> 3);
            crate::bits::lemma_low_bit(p >> 2);
            crate::bits::lemma_low_bit(p >> 1);
            crate::bits::lemma_low_bit(p >> 0);
        }
    }
    assert(is_fec23_word(w));
    assert(fec23_near(w, w));
    if lost == 0 {
        let x = choose|x: Seq<u8>| #[trigger]
            is_fec23_word(x) && fec23_near(w, x) && block == x.take(10) && lost == 0 && corrected == (
            if w == x {
                0nat
            } else {
                1nat
            });
        lemma_fec23_unique(w, w, x);
    }
}

/// The blocks, among the first `n`, that are one wrong bit away from a word.
pub open spec fn blocks_fixed(coded: Seq<u8>, n: nat) -> Set<int> {
    Set::new(
        |k: int|
            0 <= k < n && !is_fec23_word(coded_block(coded, k)) && exists|w: Seq<u8>| #[trigger]
                is_fec23_word(w) && fec23_near(coded_block(coded, k), w),
    )
}

/// The blocks, among the first `n`, that are further away from every word.
pub open spec fn blocks_lost(coded: Seq<u8>, n: nat) -> Set<int> {
    Set::new(
        |k: int|
            0 <= k < n && forall|w: Seq<u8>| #[trigger]
                is_fec23_word(w) ==> !fec23_near(coded_block(coded, k), w),
    )
}

/// What the totals count: the blocks set right, and the blocks lost.
pub proof fn lemma_fec23_totals(coded: Seq<u8>, n: nat)
    ensures
        blocks_fixed(coded, n).finite(),
        blocks_lost(coded, n).finite(),
        blocks_fixed(coded, n).disjoint(blocks_lost(coded, n)),
        total_fixes(coded, n) == blocks_fixed(coded, n).len(),
        total_lost(coded, n) == blocks_lost(coded, n).len(),
    decreases n,
{
    if n == 0 {
        assert(blocks_fixed(coded, n) =~= Set::<int>::empty());
        assert(blocks_lost(coded, n) =~= Set::<int>::empty());
    } else {
        let m = (n - 1) as nat;
        let s = coded_block(coded, n - 1);
        let fixed = blocks_fixed(coded, m);
        let lost = blocks_lost(coded, m);
        lemma_fec23_totals(coded, m);
        if fec23_lost(s) == 1 {
            assert(blocks_lost(coded, n) =~= lost.insert(n - 1));
            assert(blocks_fixed(coded, n) =~= fixed);
        } else {
            assert(blocks_lost(coded, n) =~= lost);
            if is_fec23_word(s) {
                assert(blocks_fixed(coded, n) =~= fixed);
            } else {
                assert(blocks_fixed(coded, n) =~= fixed.insert(n - 1));
            }
        }
    }
}

} // verus!
