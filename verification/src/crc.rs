//! Cyclic redundancy checks of TS 38.212.
//!
//! A remainder is the state of a shift register after the message has been
//! shifted in, one bit at a time and most significant bit first.

use crate::bits::is_bits;
use vstd::prelude::*;

verus! {

/// The six generator polynomials.
#[derive(Clone, Copy, Debug, PartialEq, Eq, Structural)]
pub enum CrcKind {
    /// Transport blocks.
    Crc24A,
    /// Code blocks.
    Crc24B,
    /// Uplink control information.
    Crc24C,
    /// Small uplink control payloads.
    Crc16,
    /// Downlink control information.
    Crc11,
    /// Very small uplink control payloads.
    Crc6,
}

/// The generator without its leading term.
pub open spec fn low_poly(kind: CrcKind) -> u32 {
    match kind {
        CrcKind::Crc24A => 0x864CFB,
        CrcKind::Crc24B => 0x800063,
        CrcKind::Crc24C => 0xB2B117,
        CrcKind::Crc16 => 0x1021,
        CrcKind::Crc11 => 0x621,
        CrcKind::Crc6 => 0x21,
    }
}

/// The number of parity bits.
pub open spec fn crc_len(kind: CrcKind) -> u32 {
    match kind {
        CrcKind::Crc24A => 24,
        CrcKind::Crc24B => 24,
        CrcKind::Crc24C => 24,
        CrcKind::Crc16 => 16,
        CrcKind::Crc11 => 11,
        CrcKind::Crc6 => 6,
    }
}

/// As many low ones as there are parity bits.
pub open spec fn crc_mask(kind: CrcKind) -> u32 {
    match kind {
        CrcKind::Crc24A => 0xFFFFFF,
        CrcKind::Crc24B => 0xFFFFFF,
        CrcKind::Crc24C => 0xFFFFFF,
        CrcKind::Crc16 => 0xFFFF,
        CrcKind::Crc11 => 0x7FF,
        CrcKind::Crc6 => 0x3F,
    }
}

/// One step of the register: shift left, and add the generator when the bit
/// shifted out differs from the input bit.
pub open spec fn register_step(reg: u32, bit: u8, len: u32, poly: u32, mask: u32) -> u32 {
    if (((reg >> ((len - 1) as u32)) ^ (bit as u32 & 1)) & 1) != 0 {
        ((reg << 1) & mask) ^ poly
    } else {
        (reg << 1) & mask
    }
}

/// One step of the register of a kind.
pub open spec fn crc_step(kind: CrcKind, reg: u32, bit: u8) -> u32 {
    register_step(reg, bit, crc_len(kind), low_poly(kind), crc_mask(kind))
}

/// The register after a message, started from `reg`.
pub open spec fn crc_from(kind: CrcKind, reg: u32, bits: Seq<u8>) -> u32
    decreases bits.len(),
{
    if bits.len() == 0 {
        reg
    } else {
        crc_step(kind, crc_from(kind, reg, bits.drop_last()), bits.last())
    }
}

/// The remainder of a message.
pub open spec fn crc_of(kind: CrcKind, bits: Seq<u8>) -> u32 {
    crc_from(kind, 0, bits)
}

/// The number whose binary digits are the low bits, most significant first.
pub open spec fn number(bits: Seq<u8>) -> u32
    decreases bits.len(),
{
    if bits.len() == 0 {
        0
    } else {
        (number(bits.drop_last()) << 1) | (bits.last() as u32 & 1)
    }
}

/// The `n` low binary digits of `v`, most significant first.
pub open spec fn digits(v: u32, n: nat) -> Seq<u8> {
    Seq::new(n, |i: int| ((v >> ((n - 1 - i) as u32)) & 1) as u8)
}

/// The constants of a kind fit together: the generator is odd and below the
/// leading term.
spec fn register_ok(len: u32, poly: u32, mask: u32) -> bool {
    6 <= len <= 24 && mask == ((1u32 << len) - 1) as u32 && poly <= mask && poly & 1 == 1
}

proof fn lemma_kind(kind: CrcKind)
    ensures
        register_ok(crc_len(kind), low_poly(kind), crc_mask(kind)),
        crc_mask(kind) < 1u32 << crc_len(kind),
{
    assert(register_ok(24, 0x864CFB, 0xFFFFFF) && register_ok(24, 0x800063, 0xFFFFFF)
        && register_ok(24, 0xB2B117, 0xFFFFFF) && register_ok(16, 0x1021, 0xFFFF) && register_ok(
        11,
        0x621,
        0x7FF,
    ) && register_ok(6, 0x21, 0x3F) && 0xFFFFFFu32 < 1u32 << 24 && 0xFFFFu32 < 1u32 << 16 && 0x7FFu32
        < 1u32 << 11 && 0x3Fu32 < 1u32 << 6) by (bit_vector);
}

/// Facts about one step of the register. The part that is only shifted
/// splits off; only the low bit of the input counts; the step is injective
/// in the register.
proof fn lemma_step(a: u32, t: u32, b: u8, x: u8, len: u32, poly: u32, mask: u32)
    by (bit_vector)
    requires
        register_ok(len, poly, mask),
        a <= mask,
        t <= mask,
        b <= 1,
    ensures
        register_step(a ^ t, b, len, poly, mask) == ((a << 1) & mask) ^ register_step(
            t,
            ((a >> ((len - 1) as u32)) & 1) as u8 ^ b,
            len,
            poly,
            mask,
        ),
        register_step(a, b, len, poly, mask) <= mask,
        a ^ t <= mask,
        register_step(a, x, len, poly, mask) == register_step(a, x & 1, len, poly, mask),
        register_step(a ^ t, x, len, poly, mask) == register_step(a ^ t, x & 1, len, poly, mask),
        x & 1 <= 1,
        register_step(a, b, len, poly, mask) == register_step(t, b, len, poly, mask) ==> a == t,
        register_step(0, 0, len, poly, mask) == 0,
        register_step(a ^ t, b ^ (x & 1), len, poly, mask) == register_step(a, b, len, poly, mask)
            ^ register_step(t, x & 1, len, poly, mask),
        register_step(0, 1, len, poly, mask) == poly,
        b ^ (x & 1) <= 1,
        0u32 ^ 0u32 == 0,
        0u32 ^ t == t,
        (0u32 ^ 0u32) & t == 0,
{
}

/// The register stays within its width.
pub proof fn lemma_crc_range(kind: CrcKind, reg: u32, bits: Seq<u8>)
    requires
        reg <= crc_mask(kind),
    ensures
        crc_from(kind, reg, bits) <= crc_mask(kind),
    decreases bits.len(),
{
    if bits.len() > 0 {
        lemma_crc_range(kind, reg, bits.drop_last());
        lemma_kind(kind);
        let r = crc_from(kind, reg, bits.drop_last());
        let b = bits.last();
        crate::bits::lemma_low_bit(b);
        lemma_step(r, 0, b & 1, b, crc_len(kind), low_poly(kind), crc_mask(kind));
    }
}

/// The input bits with the bits that the register shifts out added to them.
spec fn mixed(kind: CrcKind, reg: u32, bits: Seq<u8>) -> Seq<u8> {
    Seq::new(
        bits.len(),
        |j: int| ((reg >> ((crc_len(kind) - 1 - j) as u32)) & 1) as u8 ^ (bits[j] & 1),
    )
}

proof fn lemma_shift_facts(reg: u32, n: u32, len: u32, mask: u32)
    by (bit_vector)
    requires
        6 <= len <= 24,
        mask == ((1u32 << len) - 1) as u32,
        reg <= mask,
        n < len,
    ensures
        ((((reg << n) & mask) << 1) & mask) == (reg << ((n + 1) as u32)) & mask,
        (((reg << n) & mask) >> ((len - 1) as u32)) & 1 == (reg >> ((len - 1 - n) as u32)) & 1,
        (reg << n) & mask <= mask,
        (reg << 0) & mask == reg,
        reg ^ 0 == reg,
{
}

/// Up to a register's width of steps advance the register like as many steps
/// from zero on the mixed bits.
proof fn lemma_chunk(kind: CrcKind, reg: u32, bits: Seq<u8>)
    requires
        reg <= crc_mask(kind),
        bits.len() <= crc_len(kind),
    ensures
        crc_from(kind, reg, bits) == ((reg << (bits.len() as u32)) & crc_mask(kind)) ^ crc_of(
            kind,
            mixed(kind, reg, bits),
        ),
    decreases bits.len(),
{
    let len = crc_len(kind);
    let poly = low_poly(kind);
    let mask = crc_mask(kind);
    lemma_kind(kind);
    lemma_shift_facts(reg, 0, len, mask);
    if bits.len() > 0 {
        let init = bits.drop_last();
        let n = init.len() as u32;
        lemma_chunk(kind, reg, init);
        lemma_shift_facts(reg, n, len, mask);
        let a = (reg << n) & mask;
        let m = mixed(kind, reg, bits);
        assert(m.drop_last() =~= mixed(kind, reg, init));
        let t = crc_of(kind, mixed(kind, reg, init));
        lemma_crc_range(kind, 0, mixed(kind, reg, init));
        let b = bits.last();
        crate::bits::lemma_low_bit(b);
        lemma_step(a, t, b & 1, b, len, poly, mask);
        assert(m.last() == ((a >> ((len - 1) as u32)) & 1) as u8 ^ (b & 1));
        assert((n + 1) as u32 == bits.len() as u32);
    }
}

/// Facts about appending a binary digit, and about the digits of a number.
proof fn lemma_digit(m: u32, b: u32, v: u32, s: u32, x: u8)
    by (bit_vector)
    requires
        m < 0x8000_0000,
        b <= 1,
        s < 31,
    ensures
        ((m << 1) | b) & 1 == b,
        ((m << 1) | b) >> ((s + 1) as u32) == m >> s,
        m < (1u32 << s) ==> ((m << 1) | b) < (1u32 << ((s + 1) as u32)),
        (1u32 << s) <= 0x4000_0000,
        ((m << 1) | b) >> 0u32 == (m << 1) | b,
        1u32 << 0u32 == 1,
        (x as u32) & 1 <= 1,
        (x & 1) as u32 == (x as u32) & 1,
        ((v >> ((s + 1) as u32)) << 1) | ((((v >> s) & 1) as u8) as u32 & 1) == v >> s,
        v >> 0u32 == v,
        v < (1u32 << s) ==> v >> s == 0,
        ((v >> s) & 1) as u8 <= 1,
{
}

/// The digits of a number are the bits it was read from.
proof fn lemma_number(bits: Seq<u8>, j: int)
    requires
        bits.len() <= 30,
    ensures
        number(bits) < 1u32 << (bits.len() as u32),
        0 <= j < bits.len() ==> (number(bits) >> ((bits.len() - 1 - j) as u32)) & 1 == (bits[j] & 1)
            as u32,
    decreases bits.len(),
{
    if bits.len() == 0 {
        lemma_digit(0, 0, 0, 0, 0);
    } else {
        let init = bits.drop_last();
        let b = bits.last() as u32 & 1;
        let m = number(init);
        let s = init.len() as u32;
        lemma_number(init, j);
        lemma_digit(0, 0, 0, s, bits.last());
        lemma_digit(m, b, 0, s, 0);
        assert((s + 1) as u32 == bits.len() as u32);
        if 0 <= j < init.len() {
            let e = (init.len() - 1 - j) as u32;
            lemma_digit(m, b, 0, e, 0);
            assert((e + 1) as u32 == (bits.len() - 1 - j) as u32);
        }
    }
}

proof fn lemma_index_digit(reg: u32, packed: u32, i: u32, len: u32, w: u32, j: u32)
    by (bit_vector)
    requires
        6 <= len <= 24,
        w <= len,
        w == 8 || w == 4,
        j < w,
        i == ((reg >> ((len - w) as u32)) ^ packed) & (((1u32 << w) - 1) as u32),
    ensures
        ((i >> ((w - 1 - j) as u32)) & 1) as u8 == ((reg >> ((len - 1 - j) as u32)) & 1) as u8 ^ (((
        packed >> ((w - 1 - j) as u32)) & 1) as u8),
        i < 256,
        w == 4 ==> i < 16,
        (1u32 << 8u32) - 1 == 0xFF,
        (1u32 << 4u32) - 1 == 0xF,
{
}

/// The table index of a chunk has the mixed bits as its digits.
proof fn lemma_index(kind: CrcKind, reg: u32, bits: Seq<u8>, i: u32)
    requires
        reg <= crc_mask(kind),
        bits.len() == 8 || bits.len() == 4,
        bits.len() <= crc_len(kind),
        i == ((reg >> ((crc_len(kind) - bits.len()) as u32)) ^ number(bits)) & (((1u32 << (
        bits.len() as u32)) - 1) as u32),
    ensures
        mixed(kind, reg, bits) == digits(i, bits.len()),
{
    let w = bits.len() as u32;
    let len = crc_len(kind);
    lemma_kind(kind);
    let m = mixed(kind, reg, bits);
    let d = digits(i, bits.len());
    assert forall|j: int| 0 <= j < bits.len() implies m[j] == d[j] by {
        lemma_number(bits, j);
        lemma_index_digit(reg, number(bits), i, len, w, j as u32);
        lemma_digit(0, 0, 0, 0, bits[j]);
        crate::bits::lemma_low_bit(bits[j]);
        assert((w - 1 - j as u32) as u32 == (bits.len() - 1 - j) as u32);
        assert((len - 1 - j as u32) as u32 == (crc_len(kind) - 1 - j) as u32);
    }
    assert(m =~= d);
}

impl CrcKind {
    /// Generator polynomial, most significant coefficient first.
    pub fn poly(self) -> (p: u32)
        ensures
            p == match self {
                CrcKind::Crc24A => 0x864CFBu32,
                CrcKind::Crc24B => 0x800063u32,
                CrcKind::Crc24C => 0xB2B117u32,
                CrcKind::Crc16 => 0x11021u32,
                CrcKind::Crc11 => 0xE21u32,
                CrcKind::Crc6 => 0x61u32,
            },
    {
        match self {
            CrcKind::Crc24A => 0x864CFB,
            CrcKind::Crc24B => 0x800063,
            CrcKind::Crc24C => 0xB2B117,
            CrcKind::Crc16 => 0x11021,
            CrcKind::Crc11 => 0xE21,
            CrcKind::Crc6 => 0x61,
        }
    }

    /// Generator polynomial without its leading term.
    pub fn low_poly(self) -> (p: u32)
        ensures
            p == low_poly(self),
    {
        match self {
            CrcKind::Crc24A => 0x864CFB,
            CrcKind::Crc24B => 0x800063,
            CrcKind::Crc24C => 0xB2B117,
            CrcKind::Crc16 => 0x1021,
            CrcKind::Crc11 => 0x621,
            CrcKind::Crc6 => 0x21,
        }
    }

    /// Number of parity bits.
    pub fn length(self) -> (n: usize)
        ensures
            n == crc_len(self),
    {
        match self {
            CrcKind::Crc24A => 24,
            CrcKind::Crc24B => 24,
            CrcKind::Crc24C => 24,
            CrcKind::Crc16 => 16,
            CrcKind::Crc11 => 11,
            CrcKind::Crc6 => 6,
        }
    }

    /// As many low ones as there are parity bits.
    pub fn mask(self) -> (m: u32)
        ensures
            m == crc_mask(self),
    {
        match self {
            CrcKind::Crc24A => 0xFFFFFF,
            CrcKind::Crc24B => 0xFFFFFF,
            CrcKind::Crc24C => 0xFFFFFF,
            CrcKind::Crc16 => 0xFFFF,
            CrcKind::Crc11 => 0x7FF,
            CrcKind::Crc6 => 0x3F,
        }
    }
}

/// One step of a register of `len` bits.
pub fn bit_serial_step(reg: u32, bit: u8, len: usize, poly: u32, mask: u32) -> (r: u32)
    requires
        1 <= len <= 32,
    ensures
        r == register_step(reg, bit, len as u32, poly, mask),
{
    let feedback: u32 = ((reg >> ((len - 1) as u32)) ^ (bit as u32 & 1)) & 1;
    let shifted: u32 = (reg << 1) & mask;
    if feedback != 0 {
        shifted ^ poly
    } else {
        shifted
    }
}

/// The remainder of a message, one bit at a time, for the register of a
/// kind: `len`, `poly` and `mask` are that kind's length, low polynomial and
/// mask.
pub open spec fn serial(bits: Seq<u8>, len: u32, poly: u32, mask: u32) -> u32
    decreases bits.len(),
{
    if bits.len() == 0 {
        0
    } else {
        register_step(serial(bits.drop_last(), len, poly, mask), bits.last(), len, poly, mask)
    }
}

/// The bit-serial remainder with a kind's constants is the kind's remainder.
pub proof fn lemma_serial(kind: CrcKind, bits: Seq<u8>)
    ensures
        serial(bits, crc_len(kind), low_poly(kind), crc_mask(kind)) == crc_of(kind, bits),
    decreases bits.len(),
{
    if bits.len() > 0 {
        lemma_serial(kind, bits.drop_last());
    }
}

/// Runs the register over a message, one bit at a time.
pub fn compute_bit_serial(bits: &[u8], len: usize, poly: u32, mask: u32) -> (r: u32)
    requires
        1 <= len <= 32,
    ensures
        r == serial(bits@, len as u32, poly, mask),
{
    let mut reg: u32 = 0;
    let mut i: usize = 0;
    assert(bits@.take(0) =~= Seq::<u8>::empty());
    while i < bits.len()
        invariant
            1 <= len <= 32,
            i <= bits@.len(),
            reg == serial(bits@.take(i as int), len as u32, poly, mask),
        decreases bits@.len() - i,
    {
        reg = bit_serial_step(reg, bits[i], len, poly, mask);
        assert(bits@.take(i as int + 1).drop_last() =~= bits@.take(i as int));
        i = i + 1;
    }
    assert(bits@.take(i as int) =~= bits@);
    reg
}

/// A CRC engine: a look-up table over bytes, or over half-bytes for the
/// six-bit kind.
pub struct Crc24 {
    kind: CrcKind,
    table: Vec<u32>,
    nibble_table: Vec<u32>,
}

/// Entry `i` of a table over chunks of `w` bits.
spec fn table_entry(kind: CrcKind, i: int, w: nat) -> u32 {
    crc_of(kind, digits(i as u32, w))
}

fn build_table(kind: CrcKind, w: usize, size: usize) -> (t: Vec<u32>)
    requires
        (w == 8 && size == 256) || (w == 4 && size == 16),
    ensures
        t@.len() == size,
        forall|i: int| 0 <= i < size ==> #[trigger] t@[i] == table_entry(kind, i, w as nat),
{
    let len: usize = kind.length();
    let mask: u32 = kind.mask();
    let poly: u32 = kind.low_poly();
    let mut t: Vec<u32> = Vec::new();
    let mut i: usize = 0;
    while i < size
        invariant
            (w == 8 && size == 256) || (w == 4 && size == 16),
            len == crc_len(kind),
            mask == crc_mask(kind),
            poly == low_poly(kind),
            i <= size,
            t@.len() == i,
            forall|j: int| 0 <= j < i ==> #[trigger] t@[j] == table_entry(kind, j, w as nat),
        decreases size - i,
    {
        let v: u32 = i as u32;
        let ghost d = digits(v, w as nat);
        let mut reg: u32 = 0;
        let mut k: usize = 0;
        assert(d.take(0) =~= Seq::<u8>::empty());
        while k < w
            invariant
                w == 8 || w == 4,
                len == crc_len(kind),
                mask == crc_mask(kind),
                poly == low_poly(kind),
                k <= w,
                d == digits(v, w as nat),
                reg == crc_of(kind, d.take(k as int)),
            decreases w - k,
        {
            let bit: u8 = ((v >> ((w - 1 - k) as u32)) & 1) as u8;
            assert(d.take(k as int + 1).drop_last() =~= d.take(k as int));
            assert(d.take(k as int + 1).last() == bit);
            reg = bit_serial_step(reg, bit, len, poly, mask);
            k = k + 1;
        }
        assert(d.take(k as int) =~= d);
        t.push(reg);
        i = i + 1;
    }
    t
}

impl Crc24 {
    /// The kind of the engine.
    pub closed spec fn view_kind(&self) -> CrcKind {
        self.kind
    }

    /// The tables hold what they say.
    pub closed spec fn wf(&self) -> bool {
        if self.kind == CrcKind::Crc6 {
            &&& self.nibble_table@.len() == 16
            &&& forall|i: int|
                0 <= i < 16 ==> #[trigger] self.nibble_table@[i] == table_entry(self.kind, i, 4)
        } else {
            &&& self.table@.len() == 256
            &&& forall|i: int|
                0 <= i < 256 ==> #[trigger] self.table@[i] == table_entry(self.kind, i, 8)
        }
    }

    /// Builds the engine of a kind.
    pub fn new(kind: CrcKind) -> (r: Crc24)
        ensures
            r.wf(),
            r.view_kind() == kind,
    {
        if kind.length() >= 8 {
            let table: Vec<u32> = build_table(kind, 8, 256);
            Crc24 { kind, table, nibble_table: Vec::new() }
        } else {
            let nibble_table: Vec<u32> = build_table(kind, 4, 16);
            Crc24 { kind, table: Vec::new(), nibble_table }
        }
    }

    /// The kind of the engine.
    pub fn kind(&self) -> (k: CrcKind)
        ensures
            k == self.view_kind(),
    {
        self.kind
    }

    /// Number of parity bits.
    pub fn length(&self) -> (n: usize)
        ensures
            n == crc_len(self.view_kind()),
    {
        self.kind.length()
    }

    /// The remainder of the low bits of a message.
    pub fn compute(&self, bits: &[u8]) -> (r: u32)
        requires
            self.wf(),
        ensures
            r == crc_of(self.view_kind(), bits@),
    {
        let len: usize = self.kind.length();
        let mask: u32 = self.kind.mask();
        let poly: u32 = self.kind.low_poly();
        let ghost kind = self.kind;
        let w: usize = if len >= 8 {
            8
        } else {
            4
        };
        let chunk_mask: u32 = if len >= 8 {
            0xFF
        } else {
            0xF
        };
        let total: usize = bits.len();
        let mut reg: u32 = 0;
        let mut at: usize = 0;
        assert(bits@.take(0) =~= Seq::<u8>::empty());
        while total - at >= w
            invariant
                self.wf(),
                total == bits@.len(),
                kind == self.kind,
                len == crc_len(kind),
                mask == crc_mask(kind),
                w == (if len >= 8 {
                    8usize
                } else {
                    4usize
                }),
                chunk_mask == (if len >= 8 {
                    0xFFu32
                } else {
                    0xFu32
                }),
                at <= total,
                reg <= mask,
                reg == crc_of(kind, bits@.take(at as int)),
            decreases total - at,
        {
            let ghost chunk = bits@.subrange(at as int, at + w);
            let mut packed: u32 = 0;
            let mut k: usize = 0;
            assert(chunk.take(0) =~= Seq::<u8>::empty());
            while k < w
                invariant
                    at + w <= total,
                    total == bits@.len(),
                    k <= w,
                    chunk == bits@.subrange(at as int, at + w),
                    packed == number(chunk.take(k as int)),
                decreases w - k,
            {
                packed = (packed << 1) | (bits[at + k] as u32 & 1);
                assert(chunk.take(k as int + 1).drop_last() =~= chunk.take(k as int));
                k = k + 1;
            }
            assert(chunk.take(k as int) =~= chunk);
            let idx: u32 = ((reg >> ((len - w) as u32)) ^ packed) & chunk_mask;
            proof {
                lemma_kind(kind);
                lemma_chunk(kind, reg, chunk);
                lemma_index_digit(
                    reg,
                    packed,
                    ((reg >> ((len as u32 - w as u32) as u32)) ^ packed) & (((1u32 << (w as u32))
                        - 1) as u32),
                    len as u32,
                    w as u32,
                    0,
                );
                lemma_index(kind, reg, chunk, idx);
                lemma_crc_concat(kind, 0, bits@.take(at as int), chunk);
                assert(bits@.take(at + w) =~= bits@.take(at as int) + chunk);
                lemma_crc_range(kind, 0, bits@.take(at + w));
            }
            reg = if len >= 8 {
                ((reg << 8) & mask) ^ self.table[idx as usize]
            } else {
                ((reg << 4) & mask) ^ self.nibble_table[idx as usize]
            };
            at = at + w;
        }
        while at < bits.len()
            invariant
                len == crc_len(kind),
                mask == crc_mask(kind),
                poly == low_poly(kind),
                at <= bits@.len(),
                reg == crc_of(kind, bits@.take(at as int)),
            decreases bits@.len() - at,
        {
            reg = bit_serial_step(reg, bits[at], len, poly, mask);
            assert(bits@.take(at as int + 1).drop_last() =~= bits@.take(at as int));
            at = at + 1;
        }
        assert(bits@.take(at as int) =~= bits@);
        reg
    }

    /// Appends the remainder, most significant bit first.
    pub fn attach(&self, bits: &mut Vec<u8>)
        requires
            self.wf(),
        ensures
            final(bits)@ == attached(self.view_kind(), old(bits)@),
    {
        let remainder: u32 = self.compute(bits.as_slice());
        let len: usize = self.kind.length();
        let ghost before = bits@;
        let ghost d = digits(remainder, len as nat);
        let mut i: usize = 0;
        assert(before + d.take(0) =~= before);
        while i < len
            invariant
                i <= len,
                len <= 24,
                d == digits(remainder, len as nat),
                bits@ == before + d.take(i as int),
            decreases len - i,
        {
            let b: u8 = ((remainder >> ((len - 1 - i) as u32)) & 1) as u8;
            assert(b == d[i as int]);
            bits.push(b);
            assert(before + d.take(i as int + 1) =~= (before + d.take(i as int)).push(b));
            i = i + 1;
        }
        assert(d.take(i as int) =~= d);
    }

    /// Whether the last bits are the remainder of the others.
    pub fn check(&self, bits: &[u8]) -> (r: bool)
        requires
            self.wf(),
        ensures
            r == checks(self.view_kind(), bits@),
    {
        let l: usize = self.kind.length();
        if bits.len() < l {
            return false;
        }
        let total: usize = bits.len();
        let n: usize = total - l;
        let ghost tail = bits@.skip(n as int);
        let mut received: u32 = 0;
        let mut i: usize = 0;
        assert(tail.take(0) =~= Seq::<u8>::empty());
        while i < l
            invariant
                i <= l,
                n + l == total,
                total == bits@.len(),
                tail == bits@.skip(n as int),
                received == number(tail.take(i as int)),
            decreases l - i,
        {
            received = (received << 1) | (bits[n + i] as u32 & 1);
            assert(tail.take(i as int + 1).drop_last() =~= tail.take(i as int));
            i = i + 1;
        }
        assert(tail.take(i as int) =~= tail);
        let payload: Vec<u8> = crate::slices::to_vector(vstd::slice::slice_subrange(bits, 0, n));
        assert(bits@.subrange(0, n as int) =~= bits@.take(n as int));
        self.compute(payload.as_slice()) == received
    }
}

/// A message followed by its remainder.
pub open spec fn attached(kind: CrcKind, bits: Seq<u8>) -> Seq<u8> {
    bits + digits(crc_of(kind, bits), crc_len(kind) as nat)
}

/// The last bits of the word, read as a number, are the remainder of the
/// bits before them.
pub open spec fn checks(kind: CrcKind, bits: Seq<u8>) -> bool {
    let n = bits.len() - crc_len(kind);
    n >= 0 && crc_of(kind, bits.take(n)) == number(bits.skip(n))
}

/// The register runs through a concatenation in order.
pub proof fn lemma_crc_concat(kind: CrcKind, reg: u32, a: Seq<u8>, b: Seq<u8>)
    ensures
        crc_from(kind, reg, a + b) == crc_from(kind, crc_from(kind, reg, a), b),
    decreases b.len(),
{
    if b.len() == 0 {
        assert(a + b =~= a);
    } else {
        lemma_crc_concat(kind, reg, a, b.drop_last());
        assert((a + b).drop_last() =~= a + b.drop_last());
    }
}

proof fn lemma_digits_number(v: u32, n: nat, k: nat)
    requires
        n <= 30,
        k <= n,
        v < 1u32 << (n as u32),
    ensures
        number(digits(v, n).take(k as int)) == v >> ((n - k) as u32),
    decreases k,
{
    let d = digits(v, n).take(k as int);
    if k == 0 {
        lemma_digit(0, 0, v, n as u32, 0);
    } else {
        lemma_digits_number(v, n, (k - 1) as nat);
        let s = (n - k) as u32;
        lemma_digit(0, 0, v, s, 0);
        assert(d.drop_last() =~= digits(v, n).take(k - 1));
        assert((s + 1) as u32 == (n - (k - 1)) as u32);
        assert(d.last() == ((v >> s) & 1) as u8);
    }
}

/// What `attach` produces, `check` accepts.
pub proof fn lemma_attach_checks(kind: CrcKind, bits: Seq<u8>)
    ensures
        checks(kind, attached(kind, bits)),
{
    let v = crc_of(kind, bits);
    let n = crc_len(kind) as nat;
    lemma_crc_range(kind, 0, bits);
    lemma_kind(kind);
    let w = attached(kind, bits);
    assert(w.take(w.len() - n) =~= bits);
    assert(w.skip(w.len() - n) =~= digits(v, n));
    lemma_digits_number(v, n, n);
    assert(digits(v, n).take(n as int) =~= digits(v, n));
    lemma_digit(0, 0, v, 0, 0);
}

/// The remainder of an all-zero message is zero.
pub proof fn lemma_crc_zero(kind: CrcKind, bits: Seq<u8>)
    requires
        forall|i: int| 0 <= i < bits.len() ==> bits[i] == 0,
    ensures
        crc_of(kind, bits) == 0,
    decreases bits.len(),
{
    if bits.len() > 0 {
        lemma_crc_zero(kind, bits.drop_last());
        let len = crc_len(kind);
        let poly = low_poly(kind);
        let mask = crc_mask(kind);
        assert(bits.last() == 0);
        lemma_kind(kind);
        lemma_step(0, 0, 0, 0, len, poly, mask);
    }
}

/// One step backwards on the low bits: where two registers agree in the low
/// `k` bits after a step, they agreed in the low `k - 1` bits before it, and
/// equal registers took equal bits. Shifting by the width clears a register.
proof fn lemma_step_back(a: u32, t: u32, b: u8, c: u8, k: u32, len: u32, poly: u32, mask: u32)
    by (bit_vector)
    requires
        register_ok(len, poly, mask),
        a <= mask,
        t <= mask,
        b <= 1,
        c <= 1,
        1 <= k <= len,
    ensures
        (register_step(a, b, len, poly, mask) ^ register_step(t, c, len, poly, mask)) & (((1u32
            << k) - 1) as u32) == 0 ==> (a ^ t) & (((1u32 << ((k - 1) as u32)) - 1) as u32) == 0,
        a == t && (register_step(a, b, len, poly, mask) ^ register_step(t, c, len, poly, mask)) & (((
        1u32 << k) - 1) as u32) == 0 ==> b == c,
        (a ^ a) & (((1u32 << k) - 1) as u32) == 0,
        (a << len) & mask == 0,
        0u32 ^ 0u32 == 0,
{
}

/// From one register, no more steps than it is wide lead to registers that
/// agree in as many low bits only for the same bits.
proof fn lemma_short_distinct(kind: CrcKind, reg: u32, x: Seq<u8>, y: Seq<u8>)
    requires
        reg <= crc_mask(kind),
        x.len() == y.len(),
        x.len() <= crc_len(kind),
        is_bits(x),
        is_bits(y),
        (crc_from(kind, reg, x) ^ crc_from(kind, reg, y)) & (((1u32 << (x.len() as u32)) - 1)
            as u32) == 0,
    ensures
        x == y,
    decreases x.len(),
{
    if x.len() == 0 {
        assert(x =~= y);
    } else {
        let u = x.drop_last();
        let v = y.drop_last();
        let n = u.len();
        assert(x[n as int] <= 1 && y[n as int] <= 1);
        assert forall|i: int| 0 <= i < n implies #[trigger] u[i] <= 1 by {
            assert(x[i] <= 1);
        }
        assert forall|i: int| 0 <= i < n implies #[trigger] v[i] <= 1 by {
            assert(y[i] <= 1);
        }
        lemma_kind(kind);
        lemma_crc_range(kind, reg, u);
        lemma_crc_range(kind, reg, v);
        let k = x.len() as u32;
        lemma_step_back(
            crc_from(kind, reg, u),
            crc_from(kind, reg, v),
            x.last(),
            y.last(),
            k,
            crc_len(kind),
            low_poly(kind),
            crc_mask(kind),
        );
        assert((k - 1) as u32 == n as u32);
        lemma_short_distinct(kind, reg, u, v);
        assert(x =~= u.push(x.last()) && y =~= v.push(y.last()));
    }
}

/// Registers that the same bits lead to one register are equal.
proof fn lemma_crc_back(kind: CrcKind, a: u32, b: u32, bits: Seq<u8>)
    requires
        a <= crc_mask(kind),
        b <= crc_mask(kind),
        crc_from(kind, a, bits) == crc_from(kind, b, bits),
    ensures
        a == b,
    decreases bits.len(),
{
    if bits.len() > 0 {
        let u = bits.drop_last();
        let x = bits.last();
        lemma_kind(kind);
        lemma_crc_range(kind, a, u);
        lemma_crc_range(kind, b, u);
        crate::bits::lemma_low_bit(x);
        let p = crc_from(kind, a, u);
        let q = crc_from(kind, b, u);
        lemma_step(p, q, x & 1, x, crc_len(kind), low_poly(kind), crc_mask(kind));
        lemma_step(q, p, x & 1, x, crc_len(kind), low_poly(kind), crc_mask(kind));
        lemma_crc_back(kind, a, b, u);
    }
}

/// The remainder of a word that passes the check is zero.
pub proof fn lemma_checked_zero(kind: CrcKind, w: Seq<u8>)
    requires
        checks(kind, w),
    ensures
        crc_of(kind, w) == 0,
{
    let n = w.len() - crc_len(kind);
    let payload = w.take(n);
    let tail = w.skip(n);
    let reg = crc_of(kind, payload);
    lemma_kind(kind);
    lemma_crc_range(kind, 0, payload);
    lemma_crc_concat(kind, 0, payload, tail);
    assert(w =~= payload + tail);
    lemma_chunk(kind, reg, tail);
    let m = mixed(kind, reg, tail);
    assert forall|j: int| 0 <= j < m.len() implies m[j] == 0 by {
        lemma_number(tail, j);
        crate::bits::lemma_low_bit(tail[j]);
        let d = tail[j] & 1;
        assert((crc_len(kind) - 1 - j) as u32 == (tail.len() - 1 - j) as u32);
        assert(((reg >> ((crc_len(kind) - 1 - j) as u32)) & 1) as u8 == d);
        crate::bits::lemma_xor_bits(d, d);
    }
    lemma_crc_zero(kind, m);
    lemma_step_back(reg, 0, 0, 0, 1, crc_len(kind), low_poly(kind), crc_mask(kind));
}

/// A burst is detected: a word of bits that differs from a checked one, and
/// only within a window as long as the parity, fails the check.
pub proof fn lemma_burst_detected(kind: CrcKind, a: Seq<u8>, b: Seq<u8>, s: int)
    requires
        a.len() == b.len(),
        is_bits(a),
        is_bits(b),
        a != b,
        forall|i: int|
            0 <= i < a.len() && !(s <= i < s + crc_len(kind)) ==> #[trigger] a[i] == b[i],
        checks(kind, a),
    ensures
        !checks(kind, b),
{
    if checks(kind, b) {
        let n = a.len() as int;
        let lo = if s < 0 {
            0
        } else if s > n {
            n
        } else {
            s
        };
        let end = s + crc_len(kind);
        let hi = if end < lo {
            lo
        } else if end > n {
            n
        } else {
            end
        };
        let first = a.take(lo);
        let x = a.subrange(lo, hi);
        let y = b.subrange(lo, hi);
        let rest = a.skip(hi);
        assert(first =~= b.take(lo));
        assert(rest =~= b.skip(hi));
        assert(a =~= first + x + rest);
        assert(b =~= first + y + rest);
        assert forall|i: int| 0 <= i < x.len() implies #[trigger] x[i] <= 1 by {
            assert(a[lo + i] <= 1);
        }
        assert forall|i: int| 0 <= i < y.len() implies #[trigger] y[i] <= 1 by {
            assert(b[lo + i] <= 1);
        }
        lemma_checked_zero(kind, a);
        lemma_checked_zero(kind, b);
        let reg = crc_of(kind, first);
        lemma_crc_range(kind, 0, first);
        lemma_crc_range(kind, reg, x);
        lemma_crc_range(kind, reg, y);
        lemma_crc_concat(kind, 0, first, x);
        lemma_crc_concat(kind, 0, first, y);
        lemma_crc_concat(kind, 0, first + x, rest);
        lemma_crc_concat(kind, 0, first + y, rest);
        let p = crc_from(kind, reg, x);
        lemma_crc_back(kind, p, crc_from(kind, reg, y), rest);
        lemma_kind(kind);
        if x.len() > 0 {
            lemma_step_back(
                p,
                0,
                0,
                0,
                x.len() as u32,
                crc_len(kind),
                low_poly(kind),
                crc_mask(kind),
            );
            lemma_short_distinct(kind, reg, x, y);
        } else {
            assert(x =~= y);
        }
    }
}

/// A single flipped bit anywhere in a checked word of bits is detected.
pub proof fn lemma_flip_detected(kind: CrcKind, a: Seq<u8>, b: Seq<u8>, j: int)
    requires
        a.len() == b.len(),
        is_bits(a),
        is_bits(b),
        0 <= j < a.len(),
        a[j] != b[j],
        forall|i: int| 0 <= i < a.len() && i != j ==> a[i] == b[i],
        checks(kind, a),
    ensures
        !checks(kind, b),
{
    lemma_burst_detected(kind, a, b, j);
}

/// The sum modulo two of two words of bits.
pub open spec fn bit_sum(a: Seq<u8>, b: Seq<u8>) -> Seq<u8> {
    Seq::new(a.len(), |i: int| a[i] ^ b[i])
}

/// The remainder of a sum is the sum of the remainders.
pub proof fn lemma_crc_linear(kind: CrcKind, a: Seq<u8>, b: Seq<u8>)
    requires
        a.len() == b.len(),
        is_bits(a),
        is_bits(b),
    ensures
        crc_of(kind, bit_sum(a, b)) == crc_of(kind, a) ^ crc_of(kind, b),
    decreases a.len(),
{
    let len = crc_len(kind);
    let poly = low_poly(kind);
    let mask = crc_mask(kind);
    lemma_kind(kind);
    if a.len() == 0 {
        lemma_step(0, 0, 0, 0, len, poly, mask);
    } else {
        let s = bit_sum(a, b);
        let x = a.drop_last();
        let y = b.drop_last();
        assert forall|i: int| 0 <= i < x.len() implies #[trigger] x[i] <= 1 && y[i] <= 1 by {
            assert(a[i] <= 1 && b[i] <= 1);
        }
        lemma_crc_linear(kind, x, y);
        assert(s.drop_last() =~= bit_sum(x, y));
        lemma_crc_range(kind, 0, x);
        lemma_crc_range(kind, 0, y);
        let p = a.last();
        let q = b.last();
        assert(p <= 1 && q <= 1);
        crate::bits::lemma_low_bit(q);
        lemma_step(crc_of(kind, x), crc_of(kind, y), p, q, len, poly, mask);
    }
}

/// The generator as a word: its leading one and the rest of it, with zeros
/// before and behind.
pub open spec fn generator_word(kind: CrcKind, before: nat, behind: nat) -> Seq<u8> {
    Seq::new(before, |i: int| 0u8).push(1) + digits(low_poly(kind), crc_len(kind) as nat)
        + Seq::new(behind, |i: int| 0u8)
}

proof fn lemma_no_remainder(kind: CrcKind, w: Seq<u8>)
    requires
        w.len() >= crc_len(kind),
        is_bits(w),
        crc_of(kind, w) == 0,
    ensures
        checks(kind, w),
{
    let n = w.len() - crc_len(kind);
    let payload = w.take(n);
    let tail = w.skip(n);
    let v = crc_of(kind, payload);
    let t = digits(v, crc_len(kind) as nat);
    lemma_kind(kind);
    lemma_attach_checks(kind, payload);
    lemma_checked_zero(kind, attached(kind, payload));
    lemma_crc_range(kind, 0, payload);
    lemma_crc_concat(kind, 0, payload, tail);
    lemma_crc_concat(kind, 0, payload, t);
    assert(w =~= payload + tail);
    assert(attached(kind, payload) =~= payload + t);
    if tail != t {
        assert forall|i: int| 0 <= i < t.len() implies #[trigger] t[i] <= 1 by {
            lemma_digit(0, 0, v, (t.len() - 1 - i) as u32, 0);
        }
        assert forall|i: int| 0 <= i < tail.len() implies #[trigger] tail[i] <= 1 by {
            assert(w[n + i] <= 1);
        }
        lemma_step(0, crc_mask(kind), 0, 0, crc_len(kind), low_poly(kind), crc_mask(kind));
        lemma_short_distinct(kind, v, tail, t);
    }
    assert(tail == t);
    assert(attached(kind, payload) =~= w);
}

/// Beside a word that passes the check, a word passes it exactly when their
/// sum does.
pub proof fn lemma_checks_linear(kind: CrcKind, a: Seq<u8>, b: Seq<u8>)
    requires
        a.len() == b.len(),
        is_bits(a),
        is_bits(b),
        checks(kind, a),
    ensures
        checks(kind, b) <==> checks(kind, bit_sum(a, b)),
{
    let s = bit_sum(a, b);
    assert forall|i: int| 0 <= i < s.len() implies #[trigger] s[i] <= 1 by {
        assert(a[i] <= 1 && b[i] <= 1);
        crate::bits::lemma_xor_bits(a[i], b[i]);
    }
    lemma_kind(kind);
    lemma_crc_linear(kind, a, b);
    lemma_checked_zero(kind, a);
    lemma_crc_range(kind, 0, b);
    lemma_step(0, crc_of(kind, b), 0, 0, crc_len(kind), low_poly(kind), crc_mask(kind));
    if checks(kind, b) {
        lemma_checked_zero(kind, b);
        lemma_no_remainder(kind, s);
    }
    if checks(kind, s) {
        lemma_checked_zero(kind, s);
        lemma_no_remainder(kind, b);
    }
}

/// The generator passes the check wherever it stands in a word.
pub proof fn lemma_generator_checks(kind: CrcKind, before: nat, behind: nat)
    ensures
        checks(kind, generator_word(kind, before, behind)),
{
    let len = crc_len(kind);
    let poly = low_poly(kind);
    let zeros = Seq::new(before, |i: int| 0u8);
    let first = zeros.push(1);
    let tail = Seq::new(behind, |i: int| 0u8);
    let w = generator_word(kind, before, behind);
    lemma_kind(kind);
    lemma_crc_zero(kind, zeros);
    lemma_step(0, 0, 1, 1, len, poly, crc_mask(kind));
    assert(first.drop_last() =~= zeros);
    assert(crc_of(kind, first) == poly);
    let head = first + digits(poly, len as nat);
    lemma_attach_checks(kind, first);
    assert(attached(kind, first) =~= head);
    lemma_checked_zero(kind, head);
    lemma_crc_concat(kind, 0, head, tail);
    lemma_crc_zero(kind, tail);
    assert(w =~= head + tail);
    assert forall|i: int| 0 <= i < w.len() implies #[trigger] w[i] <= 1 by {
        if before < i <= before + len {
            lemma_digit(0, 0, poly, (len - 1 - (i - before - 1)) as u32, 0);
        }
    }
    lemma_no_remainder(kind, w);
}

} // verus!
