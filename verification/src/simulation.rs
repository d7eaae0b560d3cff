//! What the simulation programs decide and count: their payloads, their
//! error counts, when a point has seen enough frames, and single trials.

use vstd::arithmetic::power2::{lemma2_to64, lemma_pow2_adds, pow2};
use vstd::bits::{
    lemma_low_bits_mask_values, lemma_usize_low_bits_mask_is_mod, lemma_usize_shr_is_div,
};
use vstd::prelude::*;

use crate::bits::is_bits;
use crate::channel_sim::{
    common_len, differences, lemma_multiplied, received, stepped, AwgnChannel,
};
use crate::ldpc_decoder::{adds_up, cleared, hard_bits, min_sum_decoded, QcLdpcDecoder};
use crate::ldpc_dense::parity_ambiguous;
use crate::ldpc_laws::{decoded_from, lemma_ambiguity_same, lemma_round_trip};
use crate::numbers::value;
use crate::qc_ldpc::{
    encoded, info_blocks, is_encoding, is_lifting_size, lifted, BaseGraph, BaseGraphTable,
    QcLdpcEncoder, QcLdpcParams,
};

verus! {

/// The state that a generator with a seed starts in.
pub open spec fn xorshift_start(seed: u64) -> u64 {
    if seed == 0 {
        0xDEAD_BEEF_CAFE_BABE
    } else {
        seed
    }
}

/// A generator without a mixing of its seed.
pub struct Xorshift64 {
    state: u64,
}

proof fn lemma_tops(x: u64, y: u64, s: u64)
    by (bit_vector)
    ensures
        (x >> 63) as u8 <= 1,
        (x >> 63) as u8 == x / 0x8000_0000_0000_0000,
        (x >> 40) as u32 <= 0xFF_FFFF,
        (x >> 40) as u32 == x / 0x100_0000_0000,
        x ^ s == y ^ s ==> x == y,
        s ^ x == s ^ y ==> x == y,
{
}

impl Xorshift64 {
    /// The state.
    pub closed spec fn view_state(&self) -> u64 {
        self.state
    }

    /// A generator with a seed.
    pub fn new(seed: u64) -> (g: Xorshift64)
        ensures
            g.view_state() == xorshift_start(seed),
            g.view_state() != 0,
    {
        Xorshift64 { state: if seed == 0 {
            0xDEAD_BEEF_CAFE_BABE
        } else {
            seed
        } }
    }

    /// The next number.
    pub fn next_u64(&mut self) -> (x: u64)
        ensures
            x == stepped(old(self).view_state()),
            final(self).view_state() == x,
    {
        let s: u64 = self.state;
        let a: u64 = s ^ (s << 13);
        let b: u64 = a ^ (a >> 7);
        let c: u64 = b ^ (b << 17);
        self.state = c;
        c
    }

    /// The next bit: the topmost of the next number.
    pub fn next_bit(&mut self) -> (b: u8)
        ensures
            b == (stepped(old(self).view_state()) >> 63) as u8,
            b == stepped(old(self).view_state()) / 0x8000_0000_0000_0000,
            b <= 1,
            final(self).view_state() == stepped(old(self).view_state()),
    {
        let x: u64 = self.next_u64();
        proof {
            lemma_tops(x, x, x);
        }
        (x >> 63) as u8
    }

    /// The upper 24 bits of the next number.
    pub fn next_fraction(&mut self) -> (f: u32)
        ensures
            f == (stepped(old(self).view_state()) >> 40) as u32,
            f == stepped(old(self).view_state()) / 0x100_0000_0000,
            f <= 0xFF_FFFF,
            final(self).view_state() == stepped(old(self).view_state()),
    {
        let x: u64 = self.next_u64();
        proof {
            lemma_tops(x, x, x);
        }
        (x >> 40) as u32
    }
}

/// The bits that a generator gives from a state on.
pub open spec fn generated(state: u64, n: nat) -> Seq<u8> {
    Seq::new(n, |i: int| (crate::channel_sim::after(state, (i + 1) as nat) >> 63) as u8)
}

/// Bits of a generator that starts in the seed.
pub fn random_bits(len: usize, seed: u64) -> (bits: Vec<u8>)
    ensures
        bits@ == generated(seed, len as nat),
        is_bits(bits@),
{
    let mut g: Xorshift64 = Xorshift64 { state: seed };
    let mut bits: Vec<u8> = Vec::new();
    let mut i: usize = 0;
    while i < len
        invariant
            i <= len,
            bits@ == generated(seed, i as nat),
            is_bits(bits@),
            g.view_state() == crate::channel_sim::after(seed, i as nat),
        decreases len - i,
    {
        let b: u8 = g.next_bit();
        bits.push(b);
        i = i + 1;
        assert(bits@ =~= generated(seed, i as nat));
    }
    bits
}

/// Bit `i` of the spread payload.
pub open spec fn spread_bit(i: usize) -> u8 {
    if (i.wrapping_mul(2_654_435_761) >> 31) & 1 == 1 {
        1
    } else {
        0
    }
}

/// A payload whose bits are spread by a multiplication.
pub fn spread_bits(len: usize) -> (bits: Vec<u8>)
    ensures
        bits@ == Seq::new(len as nat, |i: int| spread_bit(i as usize)),
        is_bits(bits@),
{
    let mut bits: Vec<u8> = Vec::new();
    let mut i: usize = 0;
    while i < len
        invariant
            i <= len,
            bits@ == Seq::new(i as nat, |k: int| spread_bit(k as usize)),
            is_bits(bits@),
        decreases len - i,
    {
        let b: u8 = if (i.wrapping_mul(2_654_435_761) >> 31) & 1 == 1 {
            1
        } else {
            0
        };
        bits.push(b);
        i = i + 1;
        assert(bits@ =~= Seq::new(i as nat, |k: int| spread_bit(k as usize)));
    }
    bits
}

/// Weak likelihoods of alternating sign: the patterns of one half and minus
/// one half.
pub open spec fn alternating(n: nat) -> Seq<u32> {
    Seq::new(
        n,
        |i: int|
            if i % 2 == 0 {
                0x3F00_0000u32
            } else {
                0xBF00_0000u32
            },
    )
}

/// Fills in weak likelihoods of alternating sign.
pub fn init_llr(llr: &mut [u32])
    ensures
        final(llr)@.len() == old(llr)@.len(),
        final(llr)@ == alternating(old(llr)@.len()),
{
    let n: usize = llr.len();
    let mut i: usize = 0;
    while i < n
        invariant
            i <= n,
            n == llr@.len(),
            forall|k: int| 0 <= k < i ==> #[trigger] llr@[k] == alternating(n as nat)[k],
        decreases n - i,
    {
        llr[i] = if i % 2 == 0 {
            0x3F00_0000
        } else {
            0xBF00_0000
        };
        i = i + 1;
    }
    assert(llr@ =~= alternating(n as nat));
}

/// The checksum of the low bits of a word: from an offset on, each bit is
/// added without carry and the whole multiplied.
pub open spec fn checksum_of(hard: Seq<u8>) -> u64
    decreases hard.len(),
{
    if hard.len() == 0 {
        0xcbf2_9ce4_8422_2325
    } else {
        (checksum_of(hard.drop_last()) ^ ((hard.last() & 1) as u64)).wrapping_mul(
            0x0000_0100_0000_01b3,
        )
    }
}

/// The checksum of decisions.
pub fn hard_decision_checksum(hard: &[u8]) -> (h: u64)
    ensures
        h == checksum_of(hard@),
{
    let mut h: u64 = 0xcbf2_9ce4_8422_2325;
    let mut i: usize = 0;
    while i < hard.len()
        invariant
            i <= hard@.len(),
            h == checksum_of(hard@.take(i as int)),
        decreases hard@.len() - i,
    {
        h = (h ^ ((hard[i] & 1) as u64)).wrapping_mul(0x0000_0100_0000_01b3);
        i = i + 1;
        assert(hard@.take(i as int).drop_last() =~= hard@.take(i - 1));
    }
    assert(hard@.take(i as int) =~= hard@);
    h
}

/// The limits of a simulated point: it ends with this many frame errors, or
/// with this many frames.
pub const MAX_FRAME_ERRORS: u64 = 50;

/// The most frames of a simulated point.
pub const MAX_FRAMES: u64 = 500;

/// Bit errors of frames: of the information bits sent, against the start of
/// what was decided.
pub open spec fn bit_errors_in(frames: Seq<(Seq<u8>, Seq<u8>)>) -> nat
    decreases frames.len(),
{
    if frames.len() == 0 {
        0
    } else {
        bit_errors_in(frames.drop_last()) + differences(
            frames.last().0,
            frames.last().1,
            common_len(frames.last().0, frames.last().1),
        )
    }
}

/// Frames with a bit error.
pub open spec fn frame_errors_in(frames: Seq<(Seq<u8>, Seq<u8>)>) -> nat
    decreases frames.len(),
{
    if frames.len() == 0 {
        0
    } else {
        frame_errors_in(frames.drop_last()) + if differences(
            frames.last().0,
            frames.last().1,
            common_len(frames.last().0, frames.last().1),
        ) > 0 {
            1nat
        } else {
            0nat
        }
    }
}

proof fn lemma_frame_errors(frames: Seq<(Seq<u8>, Seq<u8>)>)
    ensures
        frame_errors_in(frames) <= frames.len(),
        frame_errors_in(frames) <= bit_errors_in(frames),
    decreases frames.len(),
{
    if frames.len() > 0 {
        lemma_frame_errors(frames.drop_last());
    }
}

/// The counts of a simulated point.
pub struct FrameTally {
    bit_errors: u64,
    frame_errors: u64,
    frames: u64,
    seen: Ghost<Seq<(Seq<u8>, Seq<u8>)>>,
}

impl FrameTally {
    /// The frames recorded: what was sent, and what was decided.
    pub closed spec fn recorded(&self) -> Seq<(Seq<u8>, Seq<u8>)> {
        self.seen@
    }

    /// The counts are those of the frames recorded.
    pub closed spec fn wf(&self) -> bool {
        &&& self.bit_errors == bit_errors_in(self.seen@)
        &&& self.frame_errors == frame_errors_in(self.seen@)
        &&& self.frames == self.seen@.len()
        &&& self.seen@.len() <= MAX_FRAMES
        &&& self.frame_errors <= MAX_FRAME_ERRORS
    }

    /// A point without frames.
    pub fn new() -> (t: FrameTally)
        ensures
            t.wf(),
            t.recorded() == Seq::<(Seq<u8>, Seq<u8>)>::empty(),
    {
        FrameTally { bit_errors: 0, frame_errors: 0, frames: 0, seen: Ghost(Seq::empty()) }
    }

    /// Whether another frame is wanted.
    pub fn wants_more(&self) -> (b: bool)
        requires
            self.wf(),
        ensures
            b == (frame_errors_in(self.recorded()) < MAX_FRAME_ERRORS && self.recorded().len()
                < MAX_FRAMES),
    {
        self.frame_errors < MAX_FRAME_ERRORS && self.frames < MAX_FRAMES
    }

    /// Records a frame that was wanted.
    pub fn record(&mut self, sent: &[u8], decided: &[u8])
        requires
            old(self).wf(),
            frame_errors_in(old(self).recorded()) < MAX_FRAME_ERRORS,
            old(self).recorded().len() < MAX_FRAMES,
            bit_errors_in(old(self).recorded()) + sent@.len() <= u64::MAX,
        ensures
            final(self).wf(),
            final(self).recorded() == old(self).recorded().push((sent@, decided@)),
    {
        let errors: usize = AwgnChannel::count_errors(sent, decided);
        let ghost before = self.seen@;
        let ghost after = before.push((sent@, decided@));
        self.bit_errors = self.bit_errors + errors as u64;
        if errors > 0 {
            self.frame_errors = self.frame_errors + 1;
        }
        self.frames = self.frames + 1;
        self.seen = Ghost(after);
        proof {
            assert(after.drop_last() =~= before);
            assert(after.last() == (sent@, decided@));
        }
    }

    /// Number of bit errors.
    pub fn bit_errors(&self) -> (n: u64)
        requires
            self.wf(),
        ensures
            n == bit_errors_in(self.recorded()),
    {
        self.bit_errors
    }

    /// Number of frames with a bit error.
    pub fn frame_errors(&self) -> (n: u64)
        requires
            self.wf(),
        ensures
            n == frame_errors_in(self.recorded()),
            n <= bit_errors_in(self.recorded()),
            n <= self.recorded().len(),
    {
        proof {
            lemma_frame_errors(self.seen@);
        }
        self.frame_errors
    }

    /// Number of frames.
    pub fn frames(&self) -> (n: u64)
        requires
            self.wf(),
        ensures
            n == self.recorded().len(),
    {
        self.frames
    }
}

/// Whether a trial shows a decoding at work: visible errors at first, none at
/// the end, and neither too few passes nor all of them.
pub fn is_good_trial(pre_decode_errors: usize, iterations_used: usize, final_errors: usize) -> (b:
    bool)
    ensures
        b == (final_errors == 0 && 25 <= pre_decode_errors <= 160 && 4 <= iterations_used <= 13),
{
    final_errors == 0 && 25 <= pre_decode_errors && pre_decode_errors <= 160 && 4
        <= iterations_used && iterations_used <= 13
}

/// What came of a trial.
pub struct TrialResult {
    /// The codeword sent.
    pub codeword: Vec<u8>,
    /// The decisions before decoding.
    pub pre_hard: Vec<u8>,
    /// Their errors.
    pub pre_errors: usize,
    /// The decisions after decoding.
    pub hard: Vec<u8>,
    /// Their errors.
    pub final_errors: usize,
    /// The number of passes.
    pub iterations_used: usize,
    /// Whether fewer passes were needed than allowed.
    pub converged: bool,
}

fn patterns(n: usize) -> (v: Vec<u32>)
    ensures
        v@.len() == n,
{
    let mut v: Vec<u32> = Vec::new();
    let mut i: usize = 0;
    while i < n
        invariant
            i <= n,
            v@.len() == i,
        decreases n - i,
    {
        v.push(0);
        i = i + 1;
    }
    v
}

fn blank(n: usize) -> (v: Vec<u8>)
    ensures
        v@.len() == n,
{
    let mut v: Vec<u8> = Vec::new();
    let mut i: usize = 0;
    while i < n
        invariant
            i <= n,
            v@.len() == i,
        decreases n - i,
    {
        v.push(0);
        i = i + 1;
    }
    v
}

/// Decodes likelihoods with buffers of its own.
fn decode_once<F: Fn(u32, u32) -> u32>(
    d: &QcLdpcDecoder,
    llr: &Vec<u32>,
    iterations: usize,
    plus: &F,
) -> (r: (usize, Vec<u8>))
    requires
        d.wf(),
        llr@.len() == d.params().num_col_blocks * d.params().z,
        forall|a: u32, b: u32| call_requires(*plus, (a, b)),
    ensures
        decoded_from(*plus, *d, iterations as nat, llr@, r.0 as nat, r.1@),
        r.1@.len() == llr@.len(),
        r.0 <= iterations,
{
    let n: usize = d.variable_node_count();
    let mut work: Vec<u32> = Vec::new();
    let mut i: usize = 0;
    while i < n
        invariant
            i <= n,
            n == llr@.len(),
            work@ == llr@.take(i as int),
        decreases n - i,
    {
        work.push(llr[i]);
        i = i + 1;
        assert(llr@.take(i as int) =~= llr@.take(i - 1).push(llr@[i - 1]));
    }
    assert(llr@.take(n as int) =~= llr@);
    let mut edge_r: Vec<u32> = patterns(d.required_edge_buffer());
    let mut scratch: Vec<u32> = patterns(d.required_layer_buffer());
    let mut hard: Vec<u8> = blank(n);
    let ghost edges = edge_r@;
    let r: Result<usize, crate::error::FecError> = d.decode_layered_offset_min_sum(
        work.as_mut_slice(),
        edge_r.as_mut_slice(),
        scratch.as_mut_slice(),
        hard.as_mut_slice(),
        iterations,
        plus,
    );
    match r {
        Ok(used) => {
            proof {
                assert(min_sum_decoded(
                    *plus,
                    d.params(),
                    d.offset(),
                    iterations as nat,
                    llr@,
                    cleared(edges, d.edge_entries()),
                    used as nat,
                    work@,
                    edge_r@,
                ));
            }
            (used, hard)
        },
        Err(_) => {
            assert(false);
            (0, hard)
        },
    }
}

/// Sends a payload over a channel and decodes what arrives.
pub fn run_trial<R: Fn(u32, u32, u32, u32) -> u32, F: Fn(u32, u32) -> u32>(
    enc: &QcLdpcEncoder,
    dec: &QcLdpcDecoder,
    info_bits: &[u8],
    channel: &mut AwgnChannel,
    receive: &R,
    max_iterations: usize,
    plus: &F,
) -> (t: TrialResult)
    requires
        enc.wf(),
        dec.wf(),
        enc.params().bg == dec.params().bg,
        enc.params().z == dec.params().z,
        info_bits@.len() == info_blocks(enc.params().bg) * enc.params().z,
        forall|x: u32, p: u32, q: u32, sigma: u32| call_requires(*receive, (x, p, q, sigma)),
        forall|a: u32, b: u32| call_requires(*plus, (a, b)),
    ensures
        encoded(*enc, info_bits@, t.codeword@),
        final(channel).view_sigma() == old(channel).view_sigma(),
        final(channel).state() == crate::channel_sim::after(
            old(channel).state(),
            2 * t.codeword@.len(),
        ),
        exists|llr: Seq<u32>|
            {
                &&& llr.len() == t.codeword@.len()
                &&& #[trigger] received(
                    *receive,
                    t.codeword@,
                    llr,
                    old(channel).view_sigma(),
                    old(channel).state(),
                )
                &&& t.pre_hard@ == hard_bits(llr)
                &&& decoded_from(
                    *plus,
                    *dec,
                    max_iterations as nat,
                    llr,
                    t.iterations_used as nat,
                    t.hard@,
                )
            },
        t.pre_errors == differences(t.pre_hard@, t.codeword@, t.codeword@.len()),
        t.final_errors == differences(t.hard@, t.codeword@, t.codeword@.len()),
        t.converged == (t.iterations_used < max_iterations),
{
    proof {
        enc.lemma_wf();
    }
    let n: usize = dec.variable_node_count();
    let mut codeword: Vec<u8> = blank(n);
    let sent: Result<(), crate::error::FecError> = enc.encode(info_bits, codeword.as_mut_slice());
    proof {
        assert(sent is Ok);
    }
    let ghost start = channel.state();
    let ghost sigma = channel.view_sigma();
    let llr: Vec<u32> = channel.transmit(codeword.as_slice(), receive);
    assert(received(*receive, codeword@, llr@, sigma, start));
    let mut pre_hard: Vec<u8> = blank(n);
    let decided: Result<(), crate::error::FecError> = crate::bits::hard_decision(
        llr.as_slice(),
        pre_hard.as_mut_slice(),
    );
    proof {
        assert(decided is Ok);
        assert(pre_hard@ =~= hard_bits(llr@));
    }
    let pre_errors: usize = AwgnChannel::count_errors(pre_hard.as_slice(), codeword.as_slice());
    let (iterations_used, hard): (usize, Vec<u8>) = decode_once(dec, &llr, max_iterations, plus);
    let final_errors: usize = AwgnChannel::count_errors(hard.as_slice(), codeword.as_slice());
    let converged: bool = iterations_used < max_iterations;
    let t: TrialResult = TrialResult {
        codeword,
        pre_hard,
        pre_errors,
        hard,
        final_errors,
        iterations_used,
        converged,
    };
    assert(received(*receive, t.codeword@, llr@, sigma, start));
    assert(t.pre_hard@ == hard_bits(llr@));
    assert(decoded_from(
        *plus,
        *dec,
        max_iterations as nat,
        llr@,
        t.iterations_used as nat,
        t.hard@,
    ));
    t
}

/// The payload of the demonstration.
pub open spec fn demo_info(k: nat) -> Seq<u8> {
    Seq::new(
        k,
        |i: int|
            if (i * 7) % 3 == 0 {
                1u8
            } else {
                0u8
            },
    )
}

/// Likelihoods that decide clearly for a word: the patterns of five and minus
/// five.
pub open spec fn clear_llr(w: Seq<u8>) -> Seq<u32> {
    Seq::new(
        w.len(),
        |i: int|
            if w[i] == 0 {
                0x40A0_0000u32
            } else {
                0xC0A0_0000u32
            },
    )
}

/// The demonstration's decoding: with an offset of one half, of clear
/// likelihoods, in at most ten passes.
pub open spec fn demo_decoded<F: Fn(u32, u32) -> u32>(
    plus: F,
    table: BaseGraphTable,
    p: QcLdpcParams,
    w: Seq<u8>,
    d: QcLdpcDecoder,
    used: nat,
    hard: Seq<u8>,
) -> bool {
    &&& lifted(table, 128, p)
    &&& is_encoding(p, demo_info((info_blocks(p.bg) * 128) as nat), w)
    &&& lifted(table, 128, d.params())
    &&& d.offset() == 0x3F00_0000
    &&& decoded_from(plus, d, 10, clear_llr(w), used, hard)
}

/// Encodes a payload with the smaller base graph, decodes the clear codeword
/// and tells whether the payload came back. It does whenever the table
/// determines the parity and the addition keeps to signs.
pub fn run_ldpc_round_trip<F: Fn(u32, u32) -> u32>(table: &BaseGraphTable, plus: &F) -> (b: bool)
    requires
        table.wf(),
        table.graph() == BaseGraph::Bg2,
        table.entries().len() * 17664 <= usize::MAX,
        forall|x: u32, y: u32| call_requires(*plus, (x, y)),
    ensures
        (exists|p: QcLdpcParams| #[trigger] lifted(*table, 128, p) && parity_ambiguous(p)) ==> !b,
        adds_up(*plus, 0x3F00_0000) && !(exists|p: QcLdpcParams| #[trigger]
            lifted(*table, 128, p) && parity_ambiguous(p)) ==> b,
        !(exists|p: QcLdpcParams| #[trigger] lifted(*table, 128, p) && parity_ambiguous(p))
            ==> exists|p: QcLdpcParams, w: Seq<u8>, d: QcLdpcDecoder, used: nat, hard: Seq<u8>|
            #[trigger] demo_decoded(*plus, *table, p, w, d, used, hard) && b == (hard.take(1280)
                == demo_info(1280)),
{
    proof {
        assert(crate::qc_ldpc::in_lifting_set(0, 128));
        assert(is_lifting_size(128));
    }
    let enc: QcLdpcEncoder = match QcLdpcEncoder::new(table, 128) {
        Ok(enc) => enc,
        Err(_) => {
            return false;
        },
    };
    let dec: QcLdpcDecoder = match QcLdpcDecoder::with_lifting_size(table, 128, 0x3F00_0000) {
        Ok(dec) => dec,
        Err(_) => {
            return false;
        },
    };
    proof {
        enc.lemma_wf();
        assert forall|p: QcLdpcParams| #[trigger] lifted(*table, 128, p) implies !parity_ambiguous(
            p,
        ) by {
            lemma_ambiguity_same(*table, 128, p, enc.params());
        }
    }
    let k: usize = enc.info_bit_count();
    let n: usize = enc.codeword_bit_count();
    let mut info: Vec<u8> = Vec::new();
    let mut i: usize = 0;
    while i < k
        invariant
            i <= k,
            k == 1280,
            info@ == demo_info(i as nat),
            is_bits(info@),
        decreases k - i,
    {
        let bit: u8 = if (i * 7) % 3 == 0 {
            1
        } else {
            0
        };
        info.push(bit);
        i = i + 1;
        assert(info@ =~= demo_info(i as nat));
    }
    let mut codeword: Vec<u8> = blank(n);
    let sent: Result<(), crate::error::FecError> = enc.encode(
        info.as_slice(),
        codeword.as_mut_slice(),
    );
    if sent.is_err() {
        assert(false);
        return false;
    }
    let mut llr: Vec<u32> = Vec::new();
    let mut j: usize = 0;
    while j < n
        invariant
            j <= n,
            n == codeword@.len(),
            llr@ == clear_llr(codeword@.take(j as int)),
        decreases n - j,
    {
        let p: u32 = if codeword[j] == 0 {
            0x40A0_0000
        } else {
            0xC0A0_0000
        };
        llr.push(p);
        j = j + 1;
        assert(llr@ =~= clear_llr(codeword@.take(j as int)));
    }
    assert(codeword@.take(n as int) =~= codeword@);
    let (used, hard): (usize, Vec<u8>) = decode_once(&dec, &llr, 10, plus);
    let mut same: bool = true;
    let mut t: usize = 0;
    assert(hard@.take(0) =~= info@.take(0));
    while t < k
        invariant
            t <= k,
            k == info@.len(),
            k <= hard@.len(),
            same == (hard@.take(t as int) == info@.take(t as int)),
        decreases k - t,
    {
        proof {
            let a = hard@.take(t + 1);
            let c = info@.take(t + 1);
            assert(a.drop_last() =~= hard@.take(t as int));
            assert(c.drop_last() =~= info@.take(t as int));
            assert(a == a.drop_last().push(hard@[t as int]));
            assert(c == c.drop_last().push(info@[t as int]));
            assert((a == c) == (a.drop_last() == c.drop_last() && hard@[t as int]
                == info@[t as int])) by {
                if a == c {
                    assert(a.last() == c.last());
                }
            }
        }
        if hard[t] != info[t] {
            same = false;
        }
        t = t + 1;
    }
    proof {
        assert(info@.take(k as int) =~= info@);
        assert(demo_decoded(
            *plus,
            *table,
            enc.params(),
            codeword@,
            dec,
            used as nat,
            hard@,
        ));
        if adds_up(*plus, 0x3F00_0000) {
            lemma_round_trip(
                *plus,
                *table,
                128,
                enc.params(),
                dec,
                10,
                info@,
                codeword@,
                llr@,
                used as nat,
                hard@,
            );
        }
    }
    same
}

/// The checksum tells words apart that differ in the low bit of a single
/// position.
pub proof fn lemma_checksum_flip(a: Seq<u8>, b: Seq<u8>, at: int)
    requires
        a.len() == b.len(),
        0 <= at < a.len(),
        a[at] & 1 != b[at] & 1,
        forall|i: int| 0 <= i < a.len() && i != at ==> a[i] == b[i],
    ensures
        checksum_of(a) != checksum_of(b),
    decreases a.len(),
{
    let x = checksum_of(a.drop_last());
    let y = checksum_of(b.drop_last());
    let p = (a.last() & 1) as u64;
    let q = (b.last() & 1) as u64;
    lemma_tops(x, y, p);
    lemma_tops(x, y, q);
    lemma_tops(p, q, x);
    if at < a.len() - 1 {
        lemma_checksum_flip(a.drop_last(), b.drop_last(), at);
    } else {
        assert(a.drop_last() =~= b.drop_last());
    }
    if checksum_of(a) == checksum_of(b) {
        assert((0x0000_0100_0000_01b3int * 0xce96_5057_aff6_957bint) % 0x1_0000_0000_0000_0000
            == 1);
        lemma_multiplied(x ^ p, y ^ q, 0x0000_0100_0000_01b3, 0xce96_5057_aff6_957b);
    }
}

/// A generated bit is one exactly where the state is in the upper half.
pub proof fn lemma_generated(state: u64, n: nat, i: int)
    requires
        0 <= i < n,
    ensures
        generated(state, n)[i] == crate::channel_sim::after(state, (i + 1) as nat)
            / 0x8000_0000_0000_0000,
{
    let x = crate::channel_sim::after(state, (i + 1) as nat);
    lemma_tops(x, x, x);
}

/// The weak likelihoods, as numbers: one half, with the sign changing from
/// each to the next.
pub proof fn lemma_alternating_values(n: nat, i: int)
    requires
        0 <= i < n,
    ensures
        value(alternating(n)[0]) == pow2(148),
        i + 1 < n ==> value(alternating(n)[i + 1]) == -value(alternating(n)[i]),
{
    lemma2_to64();
    lemma_pow2_adds(23, 125);
    assert(0x3F00_0000int / 0x80_0000 == 126 && 0x3F00_0000int % 0x80_0000 == 0);
}

/// A bit of the spread payload is binary digit `31` of a product, where the
/// product fits.
pub proof fn lemma_spread_bit(i: usize)
    requires
        i * 2_654_435_761 <= usize::MAX,
    ensures
        spread_bit(i) == ((i * 2_654_435_761) / 0x8000_0000) % 2,
{
    let x = (i * 2_654_435_761) as usize;
    vstd::arithmetic::div_mod::lemma_small_mod(
        (i * 2_654_435_761) as nat,
        (usize::MAX + 1) as nat,
    );
    assert(i.wrapping_mul(2_654_435_761) == x);
    lemma_usize_shr_is_div(x, 31);
    lemma_usize_low_bits_mask_is_mod(x >> 31, 1);
    lemma2_to64();
    lemma_low_bits_mask_values();
}

/// Whether two words differ at a position that both have.
pub open spec fn frame_differs(frame: (Seq<u8>, Seq<u8>)) -> bool {
    exists|i: int| 0 <= i < common_len(frame.0, frame.1) && #[trigger] frame.0[i] != frame.1[i]
}

/// The frames that were not decided as sent.
pub open spec fn wrong_frames(frames: Seq<(Seq<u8>, Seq<u8>)>) -> Set<int> {
    Set::new(|k: int| 0 <= k < frames.len() && frame_differs(frames[k]))
}

proof fn lemma_some_difference(a: Seq<u8>, b: Seq<u8>, n: nat)
    ensures
        differences(a, b, n) > 0 <==> exists|i: int| 0 <= i < n && #[trigger] a[i] != b[i],
    decreases n,
{
    if n > 0 {
        lemma_some_difference(a, b, (n - 1) as nat);
        if a[n - 1] != b[n - 1] {
            assert(differences(a, b, n) > 0);
        }
    }
}

/// The frame errors count the frames that were not decided as sent.
pub proof fn lemma_wrong_frames(frames: Seq<(Seq<u8>, Seq<u8>)>)
    ensures
        wrong_frames(frames).finite(),
        wrong_frames(frames).len() == frame_errors_in(frames),
    decreases frames.len(),
{
    let n = frames.len() as int;
    if n == 0 {
        assert(wrong_frames(frames) =~= Set::<int>::empty());
    } else {
        let f = frames.last();
        let first = frames.drop_last();
        lemma_wrong_frames(first);
        lemma_some_difference(f.0, f.1, common_len(f.0, f.1));
        if frame_differs(f) {
            assert(wrong_frames(frames) =~= wrong_frames(first).insert(n - 1));
        } else {
            assert(wrong_frames(frames) =~= wrong_frames(first));
        }
    }
}

/// Every frame counts: the bit errors of two runs of frames add up.
pub proof fn lemma_bit_errors_add(
    a: Seq<(Seq<u8>, Seq<u8>)>,
    b: Seq<(Seq<u8>, Seq<u8>)>,
)
    ensures
        bit_errors_in(a + b) == bit_errors_in(a) + bit_errors_in(b),
        frame_errors_in(a + b) == frame_errors_in(a) + frame_errors_in(b),
    decreases b.len(),
{
    if b.len() == 0 {
        assert(a + b =~= a);
    } else {
        lemma_bit_errors_add(a, b.drop_last());
        assert((a + b).drop_last() =~= a + b.drop_last());
    }
}

} // verus!
