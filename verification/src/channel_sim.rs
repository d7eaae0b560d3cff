//! The generator behind the simulated channels: its seeding, its steps, the
//! order in which a channel draws from it, and the counting of errors.
//!
//! What a channel makes of the numbers drawn is the caller's: a function from
//! a symbol, the draws and the noise's deviation to a likelihood.

use crate::numbers::value;
use vstd::arithmetic::power2::{lemma2_to64, lemma_pow2_adds, pow2};
use vstd::prelude::*;

verus! {

/// The mixing of a seed.
pub open spec fn mixed(seed: u64) -> u64 {
    let a = seed.wrapping_add(0x9E37_79B9_7F4A_7C15);
    let b = (a ^ (a >> 30)).wrapping_mul(0xBF58_476D_1CE4_E5B9);
    let c = (b ^ (b >> 27)).wrapping_mul(0x94D0_49BB_1331_11EB);
    c ^ (c >> 31)
}

/// The first state of a seed: its mixing, and one where that is zero.
pub open spec fn seeded(seed: u64) -> u64 {
    if mixed(seed) == 0 {
        1
    } else {
        mixed(seed)
    }
}

/// One step of the generator.
pub open spec fn stepped(state: u64) -> u64 {
    let a = state ^ (state << 13);
    let b = a ^ (a >> 7);
    b ^ (b << 17)
}

/// The state after `n` steps.
pub open spec fn after(state: u64, n: nat) -> u64
    decreases n,
{
    if n == 0 {
        state
    } else {
        stepped(after(state, (n - 1) as nat))
    }
}

/// The number drawn with a state: the pattern of a single-precision number
/// from one up to two, with the upper bits of the state as its fraction.
pub open spec fn drawn(state: u64) -> u32 {
    0x3F80_0000 | ((state >> 41) as u32)
}

/// Draw `k` from a state, counted from zero.
pub open spec fn draw(state: u64, k: nat) -> u32 {
    drawn(after(state, k + 1))
}

proof fn lemma_shifts(x: u64, y: u64)
    by (bit_vector)
    ensures
        (x ^ (x << 13)) == (y ^ (y << 13)) ==> x == y,
        (x ^ (x >> 7)) == (y ^ (y >> 7)) ==> x == y,
        (x ^ (x << 17)) == (y ^ (y << 17)) ==> x == y,
        (x ^ (x >> 30)) == (y ^ (y >> 30)) ==> x == y,
        (x ^ (x >> 27)) == (y ^ (y >> 27)) ==> x == y,
        (x ^ (x >> 31)) == (y ^ (y >> 31)) ==> x == y,
        0x3F80_0000 <= drawn(x) <= 0x3FFF_FFFF,
        drawn(x) == 0x3F80_0000 + x / 0x200_0000_0000,
        (0u64 ^ (0u64 << 13)) == 0,
        (0u64 ^ (0u64 >> 7)) == 0,
        (0u64 ^ (0u64 << 17)) == 0,
        (x ^ y) ^ ((x ^ y) << 13) == (x ^ (x << 13)) ^ (y ^ (y << 13)),
        (x ^ y) ^ ((x ^ y) >> 7) == (x ^ (x >> 7)) ^ (y ^ (y >> 7)),
        (x ^ y) ^ ((x ^ y) << 17) == (x ^ (x << 17)) ^ (y ^ (y << 17)),
{
}

/// Different states have different successors, and only zero is followed by
/// zero.
pub proof fn lemma_step_injective(x: u64, y: u64)
    ensures
        stepped(x) == stepped(y) ==> x == y,
        x != 0 ==> stepped(x) != 0,
{
    let a = x ^ (x << 13);
    let b = y ^ (y << 13);
    lemma_shifts(x, y);
    lemma_shifts(a, b);
    lemma_shifts(a ^ (a >> 7), b ^ (b >> 7));
    lemma_shifts(x, 0);
    lemma_shifts(a, 0);
    lemma_shifts(a ^ (a >> 7), 0);
}

/// A step is linear: the successor of a sum without carries is the sum of the
/// successors.
pub proof fn lemma_step_linear(x: u64, y: u64)
    ensures
        stepped(x ^ y) == stepped(x) ^ stepped(y),
{
    let a = x ^ (x << 13);
    let b = y ^ (y << 13);
    lemma_shifts(x, y);
    lemma_shifts(a, b);
    lemma_shifts(a ^ (a >> 7), b ^ (b >> 7));
}

/// Steps add up.
pub proof fn lemma_after_add(state: u64, m: nat, n: nat)
    ensures
        after(after(state, m), n) == after(state, m + n),
    decreases n,
{
    if n > 0 {
        lemma_after_add(state, m, (n - 1) as nat);
    }
}

proof fn lemma_draw_add(state: u64, m: nat, k: nat)
    ensures
        draw(after(state, m), k) == draw(state, m + k),
{
    lemma_after_add(state, m, k + 1);
}

/// Multiplication by a number that has an inverse loses nothing.
pub proof fn lemma_multiplied(x: u64, y: u64, c: u64, d: u64)
    requires
        (c as int * d as int) % 0x1_0000_0000_0000_0000 == 1,
        x.wrapping_mul(c) == y.wrapping_mul(c),
    ensures
        x == y,
{
    lemma_unmultiplied(x, c, d);
    lemma_unmultiplied(y, c, d);
}

proof fn lemma_unmultiplied(x: u64, c: u64, d: u64)
    requires
        (c as int * d as int) % 0x1_0000_0000_0000_0000 == 1,
    ensures
        (x.wrapping_mul(c) as int * d as int) % 0x1_0000_0000_0000_0000 == x,
{
    let m = 0x1_0000_0000_0000_0000int;
    let p = x as int * c as int;
    assert(x.wrapping_mul(c) as int == p % m);
    vstd::arithmetic::div_mod::lemma_mul_mod_noop_left(p, d as int, m);
    assert(p * d as int == x as int * (c as int * d as int)) by (nonlinear_arith)
        requires
            p == x as int * c as int,
    ;
    vstd::arithmetic::div_mod::lemma_mul_mod_noop_right(x as int, c as int * d as int, m);
    vstd::arithmetic::div_mod::lemma_small_mod(x as nat, m as nat);
}

/// Different seeds are mixed to different numbers.
pub proof fn lemma_mixed_injective(s: u64, t: u64)
    requires
        mixed(s) == mixed(t),
    ensures
        s == t,
{
    let a = s.wrapping_add(0x9E37_79B9_7F4A_7C15);
    let b = (a ^ (a >> 30)).wrapping_mul(0xBF58_476D_1CE4_E5B9);
    let c = (b ^ (b >> 27)).wrapping_mul(0x94D0_49BB_1331_11EB);
    let p = t.wrapping_add(0x9E37_79B9_7F4A_7C15);
    let q = (p ^ (p >> 30)).wrapping_mul(0xBF58_476D_1CE4_E5B9);
    let r = (q ^ (q >> 27)).wrapping_mul(0x94D0_49BB_1331_11EB);
    lemma_shifts(c, r);
    assert((0x94D0_49BB_1331_11EBint * 0x3196_42B2_D24D_8EC3int) % 0x1_0000_0000_0000_0000 == 1);
    lemma_multiplied(b ^ (b >> 27), q ^ (q >> 27), 0x94D0_49BB_1331_11EB, 0x3196_42B2_D24D_8EC3);
    lemma_shifts(b, q);
    assert((0xBF58_476D_1CE4_E5B9int * 0x96DE_1B17_3F11_9089int) % 0x1_0000_0000_0000_0000 == 1);
    lemma_multiplied(a ^ (a >> 30), p ^ (p >> 30), 0xBF58_476D_1CE4_E5B9, 0x96DE_1B17_3F11_9089);
    lemma_shifts(a, p);
}

/// Different seeds give different first states, but for the one seed that is
/// mixed to zero and the one that is mixed to one.
pub proof fn lemma_seeds_distinct(s: u64, t: u64)
    requires
        s != t,
        !(mixed(s) == 0 && mixed(t) == 1),
        !(mixed(s) == 1 && mixed(t) == 0),
    ensures
        seeded(s) != seeded(t),
        seeded(s) != 0,
{
    if mixed(s) == mixed(t) {
        lemma_mixed_injective(s, t);
    }
}

/// Two runs of a generator from different states stay different.
pub proof fn lemma_runs_distinct(x: u64, y: u64, n: nat)
    requires
        x != y,
    ensures
        after(x, n) != after(y, n),
    decreases n,
{
    if n > 0 {
        lemma_runs_distinct(x, y, (n - 1) as nat);
        lemma_step_injective(after(x, (n - 1) as nat), after(y, (n - 1) as nat));
    }
}

/// The first state of a seed.
pub fn splitmix64(seed: u64) -> (state: u64)
    ensures
        state == seeded(seed),
        state != 0,
{
    let a: u64 = seed.wrapping_add(0x9E37_79B9_7F4A_7C15);
    let b: u64 = (a ^ (a >> 30)).wrapping_mul(0xBF58_476D_1CE4_E5B9);
    let c: u64 = (b ^ (b >> 27)).wrapping_mul(0x94D0_49BB_1331_11EB);
    let z: u64 = c ^ (c >> 31);
    if z == 0 {
        1
    } else {
        z
    }
}

/// Steps the generator and draws a number: the pattern of a single-precision
/// number from one up to two.
pub fn next_uniform(state: &mut u64) -> (p: u32)
    ensures
        *final(state) == stepped(*old(state)),
        p == drawn(*final(state)),
        0x3F80_0000 <= p <= 0x3FFF_FFFF,
        *old(state) != 0 ==> *final(state) != 0,
{
    let x: u64 = *state;
    let a: u64 = x ^ (x << 13);
    let b: u64 = a ^ (a >> 7);
    let c: u64 = b ^ (b << 17);
    proof {
        lemma_step_injective(x, x);
        lemma_shifts(c, c);
    }
    *state = c;
    0x3F80_0000 | ((c >> 41) as u32)
}

/// Number of positions, among those that both have, where two words differ.
pub open spec fn differences(a: Seq<u8>, b: Seq<u8>, n: nat) -> nat
    decreases n,
{
    if n == 0 {
        0
    } else {
        differences(a, b, (n - 1) as nat) + if a[n - 1] != b[n - 1] {
            1nat
        } else {
            0nat
        }
    }
}

/// The shorter of two lengths.
pub open spec fn common_len(a: Seq<u8>, b: Seq<u8>) -> nat {
    if a.len() <= b.len() {
        a.len()
    } else {
        b.len()
    }
}

/// A word does not differ from itself.
pub proof fn lemma_no_differences(a: Seq<u8>, n: nat)
    ensures
        differences(a, a, n) == 0,
    decreases n,
{
    if n > 0 {
        lemma_no_differences(a, (n - 1) as nat);
    }
}

/// Words that differ everywhere differ in every position.
pub proof fn lemma_all_differences(a: Seq<u8>, b: Seq<u8>, n: nat)
    requires
        forall|i: int| 0 <= i < n ==> a[i] != b[i],
    ensures
        differences(a, b, n) == n,
    decreases n,
{
    if n > 0 {
        lemma_all_differences(a, b, (n - 1) as nat);
    }
}

/// The pattern of the symbol of a bit: one for zero, minus one for the rest.
pub open spec fn symbol_of(bit: u8) -> u32 {
    if bit == 0 {
        0x3F80_0000
    } else {
        0xBF80_0000
    }
}

/// The symbol of a bit.
pub fn symbol(bit: u8) -> (x: u32)
    ensures
        x == symbol_of(bit),
{
    if bit == 0 {
        0x3F80_0000
    } else {
        0xBF80_0000
    }
}

/// The likelihoods of the symbols of a run without fading that starts in a
/// state.
pub open spec fn received<F: Fn(u32, u32, u32, u32) -> u32>(
    receive: F,
    bits: Seq<u8>,
    llrs: Seq<u32>,
    sigma: u32,
    start: u64,
) -> bool {
    forall|i: int|
        0 <= i < llrs.len() ==> call_ensures(
            receive,
            (
                symbol_of(bits[i]),
                draw(start, (2 * i) as nat),
                draw(start, (2 * i + 1) as nat),
                sigma,
            ),
            #[trigger] llrs[i],
        )
}

/// A channel that adds noise: the state of its generator, and the pattern of
/// the noise's standard deviation.
pub struct AwgnChannel {
    state: u64,
    sigma: u32,
}

impl AwgnChannel {
    /// The state of the generator.
    pub closed spec fn state(&self) -> u64 {
        self.state
    }

    /// The pattern of the noise's standard deviation.
    pub closed spec fn view_sigma(&self) -> u32 {
        self.sigma
    }

    /// A channel with a standard deviation and a seed.
    pub fn new(sigma: u32, seed: u64) -> (c: AwgnChannel)
        ensures
            c.state() == seeded(seed),
            c.view_sigma() == sigma,
    {
        AwgnChannel { state: splitmix64(seed), sigma }
    }

    /// The pattern of the noise's standard deviation.
    pub fn sigma(&self) -> (p: u32)
        ensures
            p == self.view_sigma(),
    {
        self.sigma
    }

    /// Sends bits. For each, two numbers are drawn, and `receive` makes a
    /// likelihood of the bit's symbol, of them and of the standard deviation.
    pub fn transmit<F: Fn(u32, u32, u32, u32) -> u32>(&mut self, coded_bits: &[u8], receive: &F) -> (
        llrs: Vec<u32>)
        requires
            forall|x: u32, p: u32, q: u32, sigma: u32|
                call_requires(*receive, (x, p, q, sigma)),
        ensures
            final(self).view_sigma() == old(self).view_sigma(),
            final(self).state() == after(old(self).state(), 2 * coded_bits@.len()),
            llrs@.len() == coded_bits@.len(),
            received(
                *receive,
                coded_bits@,
                llrs@,
                old(self).view_sigma(),
                old(self).state(),
            ),
    {
        let ghost start = self.state;
        let sigma: u32 = self.sigma;
        let mut state: u64 = self.state;
        let mut llrs: Vec<u32> = Vec::new();
        let mut i: usize = 0;
        while i < coded_bits.len()
            invariant
                i <= coded_bits@.len(),
                llrs@.len() == i,
                state == after(start, (2 * i) as nat),
                forall|x: u32, p: u32, q: u32, s: u32| call_requires(*receive, (x, p, q, s)),
                forall|k: int|
                    0 <= k < i ==> call_ensures(
                        *receive,
                        (
                            symbol_of(coded_bits@[k]),
                            draw(start, (2 * k) as nat),
                            draw(start, (2 * k + 1) as nat),
                            sigma,
                        ),
                        #[trigger] llrs@[k],
                    ),
            decreases coded_bits@.len() - i,
        {
            let p: u32 = next_uniform(&mut state);
            let q: u32 = next_uniform(&mut state);
            proof {
                assert(after(start, (2 * i + 1) as nat) == stepped(after(start, (2 * i) as nat)));
                assert(after(start, (2 * i + 2) as nat) == stepped(
                    after(start, (2 * i + 1) as nat),
                ));
            }
            let value: u32 = receive(symbol(coded_bits[i]), p, q, sigma);
            llrs.push(value);
            i = i + 1;
        }
        self.state = state;
        llrs
    }

    /// Sends bits without noise: nothing is drawn.
    pub fn transmit_noiseless<F: Fn(u32, u32) -> u32>(&self, coded_bits: &[u8], receive: &F) -> (
        llrs: Vec<u32>)
        requires
            forall|x: u32, sigma: u32| call_requires(*receive, (x, sigma)),
        ensures
            llrs@.len() == coded_bits@.len(),
            forall|i: int|
                0 <= i < coded_bits@.len() ==> call_ensures(
                    *receive,
                    (symbol_of(coded_bits@[i]), self.view_sigma()),
                    #[trigger] llrs@[i],
                ),
    {
        let mut llrs: Vec<u32> = Vec::new();
        let mut i: usize = 0;
        while i < coded_bits.len()
            invariant
                i <= coded_bits@.len(),
                llrs@.len() == i,
                forall|x: u32, sigma: u32| call_requires(*receive, (x, sigma)),
                forall|k: int|
                    0 <= k < i ==> call_ensures(
                        *receive,
                        (symbol_of(coded_bits@[k]), self.view_sigma()),
                        #[trigger] llrs@[k],
                    ),
            decreases coded_bits@.len() - i,
        {
            let value: u32 = receive(symbol(coded_bits[i]), self.sigma);
            llrs.push(value);
            i = i + 1;
        }
        llrs
    }

    /// Counts the positions where two words differ.
    pub fn count_errors(decoded: &[u8], original: &[u8]) -> (n: usize)
        ensures
            n == differences(decoded@, original@, common_len(decoded@, original@)),
            n <= common_len(decoded@, original@),
    {
        let len: usize = if decoded.len() <= original.len() {
            decoded.len()
        } else {
            original.len()
        };
        let mut n: usize = 0;
        let mut i: usize = 0;
        while i < len
            invariant
                i <= len,
                len == common_len(decoded@, original@),
                n <= i,
                n == differences(decoded@, original@, i as nat),
            decreases len - i,
        {
            if decoded[i] != original[i] {
                n = n + 1;
            }
            i = i + 1;
        }
        n
    }

    /// The number of positions where two words differ and the number of
    /// positions that both have, unless there is none.
    pub fn bit_errors(decoded: &[u8], original: &[u8]) -> (r: Option<(usize, usize)>)
        ensures
            r == (if common_len(decoded@, original@) == 0 {
                None
            } else {
                Some(
                    (
                        differences(decoded@, original@, common_len(decoded@, original@)) as usize,
                        common_len(decoded@, original@) as usize,
                    ),
                )
            }),
    {
        let errors: usize = Self::count_errors(decoded, original);
        let len: usize = if decoded.len() <= original.len() {
            decoded.len()
        } else {
            original.len()
        };
        if len == 0 {
            None
        } else {
            Some((errors, len))
        }
    }
}

/// A channel that fades block by block: the state of its generator, the
/// pattern of the noise's standard deviation, and the number of symbols of a
/// block.
pub struct RayleighBlockChannel {
    state: u64,
    sigma: u32,
    block_len: usize,
}

/// Number of blocks that `n` symbols fill or begin.
pub open spec fn fading_blocks(n: int, block_len: int) -> int {
    (n + block_len - 1) / block_len
}

/// Position, among the numbers drawn, of the first of the four that make the
/// gain of a block.
pub open spec fn gain_draw(block: int, block_len: int) -> int {
    2 * (block * block_len) + 4 * block
}

/// Position, among the numbers drawn, of the first of the two that make the
/// noise of a symbol.
pub open spec fn noise_draw(i: int, block_len: int) -> int {
    2 * i + 4 * (i / block_len + 1)
}

/// The gains of the blocks of a run that starts in a state.
pub open spec fn gains_drawn<G: Fn(u32, u32, u32, u32) -> u32>(
    gain: G,
    gains: Seq<u32>,
    start: u64,
    block_len: int,
) -> bool {
    forall|b: int|
        0 <= b < gains.len() ==> call_ensures(
            gain,
            (
                draw(start, gain_draw(b, block_len) as nat),
                draw(start, (gain_draw(b, block_len) + 1) as nat),
                draw(start, (gain_draw(b, block_len) + 2) as nat),
                draw(start, (gain_draw(b, block_len) + 3) as nat),
            ),
            #[trigger] gains[b],
        )
}

/// The likelihoods of the symbols of a run that starts in a state: each with
/// the gain of its block.
pub open spec fn symbols_drawn<F: Fn(u32, u32, u32, u32, u32) -> u32>(
    receive: F,
    bits: Seq<u8>,
    llrs: Seq<u32>,
    gains: Seq<u32>,
    sigma: u32,
    start: u64,
    block_len: int,
) -> bool {
    forall|i: int|
        0 <= i < llrs.len() ==> call_ensures(
            receive,
            (
                symbol_of(bits[i]),
                gains[i / block_len],
                draw(start, noise_draw(i, block_len) as nat),
                draw(start, (noise_draw(i, block_len) + 1) as nat),
                sigma,
            ),
            #[trigger] llrs[i],
        )
}

impl RayleighBlockChannel {
    /// The state of the generator.
    pub closed spec fn state(&self) -> u64 {
        self.state
    }

    /// The pattern of the noise's standard deviation.
    pub closed spec fn view_sigma(&self) -> u32 {
        self.sigma
    }

    /// The number of symbols of a block.
    pub closed spec fn view_block_len(&self) -> usize {
        self.block_len
    }

    /// A block holds a symbol.
    pub open spec fn wf(&self) -> bool {
        self.view_block_len() > 0
    }

    /// A channel with a standard deviation, a block length and a seed.
    pub fn new(sigma: u32, block_len: usize, seed: u64) -> (c: RayleighBlockChannel)
        requires
            block_len > 0,
        ensures
            c.wf(),
            c.state() == seeded(seed),
            c.view_sigma() == sigma,
            c.view_block_len() == block_len,
    {
        RayleighBlockChannel { state: splitmix64(seed), sigma, block_len }
    }

    /// The pattern of the noise's standard deviation.
    pub fn sigma(&self) -> (p: u32)
        ensures
            p == self.view_sigma(),
    {
        self.sigma
    }

    /// The number of symbols of a block.
    pub fn block_len(&self) -> (n: usize)
        ensures
            n == self.view_block_len(),
    {
        self.block_len
    }

    /// Sends bits. For each block four numbers are drawn, of which `gain`
    /// makes its gain; for each symbol two, of which `receive` makes a
    /// likelihood, with the symbol, the gain and the standard deviation.
    /// Returns the likelihoods and the gains.
    pub fn transmit_with_gains<
        G: Fn(u32, u32, u32, u32) -> u32,
        F: Fn(u32, u32, u32, u32, u32) -> u32,
    >(&mut self, coded_bits: &[u8], gain: &G, receive: &F) -> (r: (Vec<u32>, Vec<u32>))
        requires
            old(self).wf(),
            forall|p: u32, q: u32, u: u32, v: u32| call_requires(*gain, (p, q, u, v)),
            forall|x: u32, h: u32, p: u32, q: u32, sigma: u32|
                call_requires(*receive, (x, h, p, q, sigma)),
        ensures
            final(self).wf(),
            final(self).view_sigma() == old(self).view_sigma(),
            final(self).view_block_len() == old(self).view_block_len(),
            final(self).state() == after(
                old(self).state(),
                (2 * coded_bits@.len() + 4 * fading_blocks(
                    coded_bits@.len() as int,
                    old(self).view_block_len() as int,
                )) as nat,
            ),
            r.0@.len() == coded_bits@.len(),
            r.1@.len() == fading_blocks(
                coded_bits@.len() as int,
                old(self).view_block_len() as int,
            ),
            gains_drawn(*gain, r.1@, old(self).state(), old(self).view_block_len() as int),
            symbols_drawn(
                *receive,
                coded_bits@,
                r.0@,
                r.1@,
                old(self).view_sigma(),
                old(self).state(),
                old(self).view_block_len() as int,
            ),
    {
        let ghost start = self.state;
        let sigma: u32 = self.sigma;
        let block_len: usize = self.block_len;
        let mut state: u64 = self.state;
        let mut llrs: Vec<u32> = Vec::new();
        let mut gains: Vec<u32> = Vec::new();
        let mut left: usize = 0;
        let mut h: u32 = 0;
        let mut i: usize = 0;
        while i < coded_bits.len()
            invariant
                block_len > 0,
                i <= coded_bits@.len(),
                llrs@.len() == i,
                left < block_len,
                gains@.len() * block_len == i + left,
                i > 0 ==> gains@.len() > 0 && h == gains@.last(),
                state == after(start, (2 * i + 4 * gains@.len()) as nat),
                forall|p: u32, q: u32, u: u32, v: u32| call_requires(*gain, (p, q, u, v)),
                forall|x: u32, h: u32, p: u32, q: u32, s: u32|
                    call_requires(*receive, (x, h, p, q, s)),
                gains_drawn(*gain, gains@, start, block_len as int),
                symbols_drawn(*receive, coded_bits@, llrs@, gains@, sigma, start, block_len as int),
            decreases coded_bits@.len() - i,
        {
            let ghost before = gains@;
            if left == 0 {
                let ghost at = (2 * i + 4 * gains@.len()) as nat;
                let p: u32 = next_uniform(&mut state);
                let q: u32 = next_uniform(&mut state);
                let u: u32 = next_uniform(&mut state);
                let v: u32 = next_uniform(&mut state);
                h = gain(p, q, u, v);
                gains.push(h);
                left = block_len;
                proof {
                    lemma_four_steps(start, at);
                    let b = before.len() as int;
                    assert(gain_draw(b, block_len as int) == at);
                    assert(gains@.len() * block_len == before.len() * block_len + block_len)
                        by (nonlinear_arith)
                        requires
                            gains@.len() == before.len() + 1,
                    ;
                    assert forall|k: int| 0 <= k < gains@.len() implies call_ensures(
                        *gain,
                        (
                            draw(start, gain_draw(k, block_len as int) as nat),
                            draw(start, (gain_draw(k, block_len as int) + 1) as nat),
                            draw(start, (gain_draw(k, block_len as int) + 2) as nat),
                            draw(start, (gain_draw(k, block_len as int) + 3) as nat),
                        ),
                        #[trigger] gains@[k],
                    ) by {
                        if k < before.len() {
                            assert(gains@[k] == before[k]);
                        }
                    }
                }
            }
            let ghost blocks = gains@.len() as int;
            let ghost sent = llrs@;
            proof {
                let bl = block_len as int;
                lemma_four_steps(start, (2 * i + 4 * blocks) as nat);
                assert((blocks - 1) * bl == blocks * bl - bl) by (nonlinear_arith);
                vstd::arithmetic::div_mod::lemma_fundamental_div_mod_converse(
                    i as int,
                    bl,
                    blocks - 1,
                    i - (blocks - 1) * bl,
                );
                assert(noise_draw(i as int, bl) == 2 * i + 4 * blocks);
            }
            let p: u32 = next_uniform(&mut state);
            let q: u32 = next_uniform(&mut state);
            let value: u32 = receive(symbol(coded_bits[i]), h, p, q, sigma);
            llrs.push(value);
            left = left - 1;
            i = i + 1;
            proof {
                let bl = block_len as int;
                assert forall|k: int| 0 <= k < llrs@.len() implies call_ensures(
                    *receive,
                    (
                        symbol_of(coded_bits@[k]),
                        gains@[k / bl],
                        draw(start, noise_draw(k, bl) as nat),
                        draw(start, (noise_draw(k, bl) + 1) as nat),
                        sigma,
                    ),
                    #[trigger] llrs@[k],
                ) by {
                    if k < sent.len() {
                        assert(llrs@[k] == sent[k]);
                        lemma_block_index(k, before.len() as int, bl);
                        assert(gains@[k / bl] == before[k / bl]);
                    }
                }
            }
        }
        proof {
            let bl = block_len as int;
            let blocks = gains@.len() as int;
            vstd::arithmetic::div_mod::lemma_fundamental_div_mod_converse(
                i + bl - 1,
                bl,
                blocks,
                bl - 1 - left,
            );
        }
        self.state = state;
        (llrs, gains)
    }

    /// Sends bits, and returns the likelihoods alone.
    pub fn transmit<
        G: Fn(u32, u32, u32, u32) -> u32,
        F: Fn(u32, u32, u32, u32, u32) -> u32,
    >(&mut self, coded_bits: &[u8], gain: &G, receive: &F) -> (llrs: Vec<u32>)
        requires
            old(self).wf(),
            forall|p: u32, q: u32, u: u32, v: u32| call_requires(*gain, (p, q, u, v)),
            forall|x: u32, h: u32, p: u32, q: u32, sigma: u32|
                call_requires(*receive, (x, h, p, q, sigma)),
        ensures
            final(self).wf(),
            final(self).view_sigma() == old(self).view_sigma(),
            final(self).view_block_len() == old(self).view_block_len(),
            final(self).state() == after(
                old(self).state(),
                (2 * coded_bits@.len() + 4 * fading_blocks(
                    coded_bits@.len() as int,
                    old(self).view_block_len() as int,
                )) as nat,
            ),
            llrs@.len() == coded_bits@.len(),
            exists|gains: Seq<u32>|
                {
                    &&& gains.len() == fading_blocks(
                        coded_bits@.len() as int,
                        old(self).view_block_len() as int,
                    )
                    &&& #[trigger] gains_drawn(
                        *gain,
                        gains,
                        old(self).state(),
                        old(self).view_block_len() as int,
                    )
                    &&& symbols_drawn(
                        *receive,
                        coded_bits@,
                        llrs@,
                        gains,
                        old(self).view_sigma(),
                        old(self).state(),
                        old(self).view_block_len() as int,
                    )
                },
    {
        self.transmit_with_gains(coded_bits, gain, receive).0
    }
}

proof fn lemma_four_steps(start: u64, at: nat)
    ensures
        after(start, at + 1) == stepped(after(start, at)),
        after(start, at + 2) == stepped(after(start, at + 1)),
        after(start, at + 3) == stepped(after(start, at + 2)),
        after(start, at + 4) == stepped(after(start, at + 3)),
{
}

proof fn lemma_block_index(k: int, blocks: int, block_len: int)
    requires
        block_len > 0,
        0 <= k < blocks * block_len,
    ensures
        0 <= k / block_len < blocks,
{
    vstd::arithmetic::div_mod::lemma_div_pos_is_pos(k, block_len);
    vstd::arithmetic::div_mod::lemma_fundamental_div_mod(k, block_len);
    assert(k / block_len < blocks) by (nonlinear_arith)
        requires
            k == block_len * (k / block_len) + k % block_len,
            k % block_len >= 0,
            k < blocks * block_len,
            block_len > 0,
    ;
}

/// Channels in one state, with one standard deviation, make the same of the
/// same bits, as long as `receive` makes the same of the same numbers.
pub proof fn lemma_reproducible<F: Fn(u32, u32, u32, u32) -> u32>(
    receive: F,
    bits: Seq<u8>,
    a: Seq<u32>,
    b: Seq<u32>,
    sigma: u32,
    start: u64,
)
    requires
        forall|args: (u32, u32, u32, u32), u: u32, v: u32| #[trigger]
            call_ensures(receive, args, u) && #[trigger] call_ensures(receive, args, v) ==> u == v,
        a.len() == b.len(),
        received(receive, bits, a, sigma, start),
        received(receive, bits, b, sigma, start),
    ensures
        a == b,
{
    assert forall|i: int| 0 <= i < a.len() implies a[i] == b[i] by {
        let args = (
            symbol_of(bits[i]),
            draw(start, (2 * i) as nat),
            draw(start, (2 * i + 1) as nat),
            sigma,
        );
        assert(call_ensures(receive, args, a[i]));
        assert(call_ensures(receive, args, b[i]));
    }
    assert(a =~= b);
}

/// The same of the channels that fade.
pub proof fn lemma_fading_reproducible<
    G: Fn(u32, u32, u32, u32) -> u32,
    F: Fn(u32, u32, u32, u32, u32) -> u32,
>(
    gain: G,
    receive: F,
    bits: Seq<u8>,
    a: Seq<u32>,
    g: Seq<u32>,
    b: Seq<u32>,
    h: Seq<u32>,
    sigma: u32,
    start: u64,
    block_len: int,
)
    requires
        block_len > 0,
        forall|args: (u32, u32, u32, u32), u: u32, v: u32| #[trigger]
            call_ensures(gain, args, u) && #[trigger] call_ensures(gain, args, v) ==> u == v,
        forall|args: (u32, u32, u32, u32, u32), u: u32, v: u32| #[trigger]
            call_ensures(receive, args, u) && #[trigger] call_ensures(receive, args, v) ==> u == v,
        a.len() == b.len(),
        g.len() == fading_blocks(a.len() as int, block_len),
        h.len() == g.len(),
        gains_drawn(gain, g, start, block_len),
        gains_drawn(gain, h, start, block_len),
        symbols_drawn(receive, bits, a, g, sigma, start, block_len),
        symbols_drawn(receive, bits, b, h, sigma, start, block_len),
    ensures
        a == b,
        g == h,
{
    assert forall|k: int| 0 <= k < g.len() implies g[k] == h[k] by {
        let at = gain_draw(k, block_len);
        let args = (
            draw(start, at as nat),
            draw(start, (at + 1) as nat),
            draw(start, (at + 2) as nat),
            draw(start, (at + 3) as nat),
        );
        assert(call_ensures(gain, args, g[k]));
        assert(call_ensures(gain, args, h[k]));
    }
    assert(g =~= h);
    assert forall|i: int| 0 <= i < a.len() implies a[i] == b[i] by {
        let args = (
            symbol_of(bits[i]),
            g[i / block_len],
            draw(start, noise_draw(i, block_len) as nat),
            draw(start, (noise_draw(i, block_len) + 1) as nat),
            sigma,
        );
        assert(call_ensures(receive, args, a[i]));
        assert(call_ensures(receive, args, b[i]));
    }
    assert(a =~= b);
}

/// Sending a word in two parts, one after the other, is sending it at once.
pub proof fn lemma_sent_in_parts<F: Fn(u32, u32, u32, u32) -> u32>(
    receive: F,
    a: Seq<u8>,
    b: Seq<u8>,
    x: Seq<u32>,
    y: Seq<u32>,
    sigma: u32,
    start: u64,
)
    requires
        x.len() == a.len(),
        y.len() == b.len(),
    ensures
        received(receive, a + b, x + y, sigma, start) <==> received(receive, a, x, sigma, start)
            && received(receive, b, y, sigma, after(start, 2 * a.len())),
        after(after(start, 2 * a.len()), 2 * b.len()) == after(start, 2 * (a + b).len()),
{
    let n = a.len() as int;
    let mid = after(start, 2 * a.len());
    lemma_after_add(start, 2 * a.len(), 2 * b.len());
    assert forall|i: int| 0 <= i < b.len() implies draw(mid, (2 * i) as nat) == draw(
        start,
        (2 * (n + i)) as nat,
    ) && #[trigger] draw(mid, (2 * i + 1) as nat) == draw(start, (2 * (n + i) + 1) as nat) by {
        lemma_draw_add(start, 2 * a.len(), (2 * i) as nat);
        lemma_draw_add(start, 2 * a.len(), (2 * i + 1) as nat);
    }
    if received(receive, a + b, x + y, sigma, start) {
        assert forall|i: int| 0 <= i < x.len() implies call_ensures(
            receive,
            (symbol_of(a[i]), draw(start, (2 * i) as nat), draw(start, (2 * i + 1) as nat), sigma),
            #[trigger] x[i],
        ) by {
            assert((x + y)[i] == x[i] && (a + b)[i] == a[i]);
        }
        assert forall|i: int| 0 <= i < y.len() implies call_ensures(
            receive,
            (symbol_of(b[i]), draw(mid, (2 * i) as nat), draw(mid, (2 * i + 1) as nat), sigma),
            #[trigger] y[i],
        ) by {
            assert((x + y)[n + i] == y[i] && (a + b)[n + i] == b[i]);
        }
    }
    if received(receive, a, x, sigma, start) && received(receive, b, y, sigma, mid) {
        assert forall|i: int| 0 <= i < (x + y).len() implies call_ensures(
            receive,
            (
                symbol_of((a + b)[i]),
                draw(start, (2 * i) as nat),
                draw(start, (2 * i + 1) as nat),
                sigma,
            ),
            #[trigger] (x + y)[i],
        ) by {
            if i < n {
                assert((x + y)[i] == x[i] && (a + b)[i] == a[i]);
            } else {
                assert((x + y)[i] == y[i - n] && (a + b)[i] == b[i - n]);
                assert(draw(mid, (2 * (i - n)) as nat) == draw(start, (2 * (n + (i - n))) as nat)
                    && draw(mid, (2 * (i - n) + 1) as nat) == draw(
                    start,
                    (2 * (n + (i - n)) + 1) as nat,
                ));
            }
        }
    }
}

proof fn lemma_draws_shift(i: int, m: int, block_len: int)
    requires
        block_len > 0,
    ensures
        gain_draw(m + i, block_len) == gain_draw(m, block_len) + gain_draw(i, block_len),
        noise_draw(m * block_len + i, block_len) == gain_draw(m, block_len) + noise_draw(
            i,
            block_len,
        ),
        (m * block_len + i) / block_len == m + i / block_len,
{
    assert((m + i) * block_len == m * block_len + i * block_len) by (nonlinear_arith);
    vstd::arithmetic::div_mod::lemma_hoist_over_denominator(i, m, block_len as nat);
    assert(m * block_len + i == i + m * block_len);
}

/// In a run over a channel that fades, the blocks follow one another: past
/// the first `m` blocks, the run goes on as one that starts there.
pub proof fn lemma_faded_in_parts<
    G: Fn(u32, u32, u32, u32) -> u32,
    F: Fn(u32, u32, u32, u32, u32) -> u32,
>(
    gain: G,
    receive: F,
    bits: Seq<u8>,
    llrs: Seq<u32>,
    gains: Seq<u32>,
    sigma: u32,
    start: u64,
    block_len: int,
    m: int,
)
    requires
        block_len > 0,
        0 <= m * block_len <= bits.len(),
        0 <= m <= gains.len(),
        llrs.len() == bits.len(),
        gains.len() == fading_blocks(bits.len() as int, block_len),
        gains_drawn(gain, gains, start, block_len),
        symbols_drawn(receive, bits, llrs, gains, sigma, start, block_len),
    ensures
        ({
            let mid = after(start, (2 * (m * block_len) + 4 * m) as nat);
            &&& gains_drawn(gain, gains.skip(m), mid, block_len)
            &&& symbols_drawn(
                receive,
                bits.skip(m * block_len),
                llrs.skip(m * block_len),
                gains.skip(m),
                sigma,
                mid,
                block_len,
            )
        }),
{
    let at = (2 * (m * block_len) + 4 * m) as nat;
    let mid = after(start, at);
    let n = m * block_len;
    let later = gains.skip(m);
    let rest = llrs.skip(n);
    assert forall|b: int| 0 <= b < later.len() implies call_ensures(
        gain,
        (
            draw(mid, gain_draw(b, block_len) as nat),
            draw(mid, (gain_draw(b, block_len) + 1) as nat),
            draw(mid, (gain_draw(b, block_len) + 2) as nat),
            draw(mid, (gain_draw(b, block_len) + 3) as nat),
        ),
        #[trigger] later[b],
    ) by {
        let g = gain_draw(b, block_len);
        assert(0 <= b * block_len) by (nonlinear_arith)
            requires
                0 <= b,
                0 < block_len,
        ;
        lemma_draws_shift(b, m, block_len);
        lemma_draw_add(start, at, g as nat);
        lemma_draw_add(start, at, (g + 1) as nat);
        lemma_draw_add(start, at, (g + 2) as nat);
        lemma_draw_add(start, at, (g + 3) as nat);
        assert(gains[m + b] == later[b]);
    }
    assert forall|i: int| 0 <= i < rest.len() implies call_ensures(
        receive,
        (
            symbol_of(bits.skip(n)[i]),
            later[i / block_len],
            draw(mid, noise_draw(i, block_len) as nat),
            draw(mid, (noise_draw(i, block_len) + 1) as nat),
            sigma,
        ),
        #[trigger] rest[i],
    ) by {
        let d = noise_draw(i, block_len);
        lemma_draws_shift(i, m, block_len);
        vstd::arithmetic::div_mod::lemma_div_pos_is_pos(i, block_len);
        lemma_draw_add(start, at, d as nat);
        lemma_draw_add(start, at, (d + 1) as nat);
        assert(llrs[n + i] == rest[i]);
        let total = bits.len() as int;
        assert(n + i < gains.len() * block_len) by {
            let k = total + block_len - 1;
            vstd::arithmetic::div_mod::lemma_fundamental_div_mod(k, block_len);
            vstd::arithmetic::div_mod::lemma_mod_bound(k, block_len);
            assert(gains.len() * block_len == block_len * (k / block_len)) by (nonlinear_arith)
                requires
                    gains.len() == k / block_len,
            ;
        }
        lemma_block_index(n + i, gains.len() as int, block_len);
        assert(later[i / block_len] == gains[m + i / block_len]);
    }
}

/// Every number drawn in a run over a channel that fades has one use: a
/// block's gain takes the next four, each of its symbols the next two.
pub proof fn lemma_draws_consecutive(b: int, j: int, block_len: int)
    requires
        0 <= b,
        0 <= j < block_len,
    ensures
        gain_draw(0, block_len) == 0,
        noise_draw(b * block_len + j, block_len) == gain_draw(b, block_len) + 4 + 2 * j,
        gain_draw(b + 1, block_len) == gain_draw(b, block_len) + 4 + 2 * block_len,
{
    lemma_draws_shift(j, b, block_len);
    lemma_draws_shift(1, b, block_len);
    vstd::arithmetic::div_mod::lemma_basic_div(j, block_len);
    assert(0 * block_len == 0 && 1 * block_len == block_len);
}

/// The positions where two words differ.
pub open spec fn differing(a: Seq<u8>, b: Seq<u8>, n: nat) -> Set<int> {
    Set::new(|i: int| 0 <= i < n && a[i] != b[i])
}

/// The number of differences counts the positions where two words differ.
pub proof fn lemma_differences_count(a: Seq<u8>, b: Seq<u8>, n: nat)
    ensures
        differing(a, b, n).finite(),
        differing(a, b, n).len() == differences(a, b, n),
    decreases n,
{
    if n == 0 {
        assert(differing(a, b, n) =~= Set::<int>::empty());
    } else {
        let before = differing(a, b, (n - 1) as nat);
        lemma_differences_count(a, b, (n - 1) as nat);
        if a[n - 1] != b[n - 1] {
            assert(differing(a, b, n) =~= before.insert(n - 1));
        } else {
            assert(differing(a, b, n) =~= before);
        }
    }
}

proof fn lemma_one()
    ensures
        0x80_0000 * pow2(126) == pow2(149),
{
    lemma2_to64();
    lemma_pow2_adds(23, 126);
}

/// What is drawn, as a number: one, and beyond it the state's share of all
/// states, in steps of `2^-23`.
pub proof fn lemma_drawn_value(state: u64)
    ensures
        value(drawn(state)) == pow2(149) + (state / 0x200_0000_0000) * pow2(126),
{
    let f = (state / 0x200_0000_0000) as int;
    lemma_shifts(state, state);
    lemma_one();
    let p = drawn(state) as int;
    assert(p / 0x80_0000 == 127 && p % 0x80_0000 == f);
    assert((0x80_0000 + f) * pow2(126) == 0x80_0000 * pow2(126) + f * pow2(126))
        by (nonlinear_arith);
}

/// The symbols, as numbers: one for a zero, and minus one for the rest.
pub proof fn lemma_symbol_value(bit: u8)
    ensures
        value(symbol_of(bit)) == (if bit == 0 {
            pow2(149) as int
        } else {
            -(pow2(149) as int)
        }),
{
    lemma_one();
    assert(0x3F80_0000int / 0x80_0000 == 127 && 0x3F80_0000int % 0x80_0000 == 0);
}

/// Sending a single bit takes two numbers, in the order in which they are
/// drawn.
pub proof fn lemma_sent_alone<F: Fn(u32, u32, u32, u32) -> u32>(
    receive: F,
    bit: u8,
    x: u32,
    sigma: u32,
    start: u64,
)
    ensures
        received(receive, seq![bit], seq![x], sigma, start) <==> call_ensures(
            receive,
            (
                symbol_of(bit),
                drawn(stepped(start)),
                drawn(stepped(stepped(start))),
                sigma,
            ),
            x,
        ),
{
    reveal_with_fuel(after, 3);
    assert(seq![x][0] == x && seq![bit][0] == bit);
    assert(draw(start, 0) == drawn(stepped(start)));
    assert(draw(start, 1) == drawn(stepped(stepped(start))));
    if call_ensures(
        receive,
        (symbol_of(bit), drawn(stepped(start)), drawn(stepped(stepped(start))), sigma),
        x,
    ) {
        assert forall|i: int| 0 <= i < seq![x].len() implies call_ensures(
            receive,
            (
                symbol_of(seq![bit][i]),
                draw(start, (2 * i) as nat),
                draw(start, (2 * i + 1) as nat),
                sigma,
            ),
            #[trigger] seq![x][i],
        ) by {
            assert(i == 0);
        }
    }
}

/// Over a channel that fades, a run begins with the four numbers of the first
/// gain, and goes on with the two of the first symbol, which has that gain.
pub proof fn lemma_faded_first<
    G: Fn(u32, u32, u32, u32) -> u32,
    F: Fn(u32, u32, u32, u32, u32) -> u32,
>(
    gain: G,
    receive: F,
    bits: Seq<u8>,
    llrs: Seq<u32>,
    gains: Seq<u32>,
    sigma: u32,
    start: u64,
    block_len: int,
)
    requires
        block_len > 0,
        bits.len() > 0,
        llrs.len() == bits.len(),
        gains.len() > 0,
        gains_drawn(gain, gains, start, block_len),
        symbols_drawn(receive, bits, llrs, gains, sigma, start, block_len),
    ensures
        call_ensures(
            gain,
            (
                drawn(after(start, 1)),
                drawn(after(start, 2)),
                drawn(after(start, 3)),
                drawn(after(start, 4)),
            ),
            gains[0],
        ),
        call_ensures(
            receive,
            (
                symbol_of(bits[0]),
                gains[0],
                drawn(after(start, 5)),
                drawn(after(start, 6)),
                sigma,
            ),
            llrs[0],
        ),
{
    lemma_draws_consecutive(0, 0, block_len);
    assert(0 * block_len == 0);
    vstd::arithmetic::div_mod::lemma_basic_div(0, block_len);
    assert(gains[0] == gains[0int / block_len]);
}

} // verus!
