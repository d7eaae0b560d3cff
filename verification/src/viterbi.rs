//! Convolutional codes of rate one half.

use crate::bits::{is_bits, lemma_low_bit, lemma_xor_bits};
use crate::error::FecError;
use vstd::prelude::*;

verus! {

/// The sum modulo two of the taps of generator `g` on the `k` newest inputs
/// at time `t`: tap `j` from the top looks `j` steps back, and inputs before
/// the first or after the last are zero.
pub open spec fn tapped(g: u32, u: Seq<u8>, t: int, k: nat, j: nat) -> u8
    decreases j,
{
    if j == 0 {
        0
    } else {
        let back = t - (j - 1);
        let rest = tapped(g, u, t, k, (j - 1) as nat);
        if (g >> ((k - j) as u32)) & 1 == 1 && 0 <= back < u.len() {
            rest ^ (u[back] & 1)
        } else {
            rest
        }
    }
}

/// The coded bits: two for each input and for each of the `k - 1` zeros that
/// end the block, the one of the first generator first.
pub open spec fn convolved(k: nat, g0: u32, g1: u32, u: Seq<u8>) -> Seq<u8> {
    Seq::new(
        2 * (u.len() + k - 1) as nat,
        |i: int|
            tapped(
                if i % 2 == 0 {
                    g0
                } else {
                    g1
                },
                u,
                i / 2,
                k,
                k,
            ),
    )
}

/// A convolutional code: its constraint length and its two generators, the
/// newest input at a generator's most significant bit.
pub struct ViterbiDecoder {
    constraint_length: usize,
    g0: u32,
    g1: u32,
}

impl ViterbiDecoder {
    /// The constraint length.
    pub closed spec fn length(&self) -> nat {
        self.constraint_length as nat
    }

    /// The generators.
    pub closed spec fn generators(&self) -> (u32, u32) {
        (self.g0, self.g1)
    }

    /// The register has at least one and at most 32 places.
    pub closed spec fn wf(&self) -> bool {
        1 <= self.constraint_length <= 32
    }

    /// A code with these generators. The register is held in 32 bits, so
    /// longer constraint lengths are rejected.
    pub fn with_generators(constraint_length: usize, g0: u32, g1: u32) -> (r: Result<
        ViterbiDecoder,
        FecError,
    >)
        ensures
            r is Ok <==> 1 <= constraint_length <= 32,
            match r {
                Ok(c) => c.wf() && c.length() == constraint_length && c.generators() == (g0, g1),
                Err(e) => e == FecError::InvalidParam("constraint length must be 1 to 32"),
            },
    {
        if constraint_length < 1 || constraint_length > 32 {
            return Err(FecError::InvalidParam("constraint length must be 1 to 32"));
        }
        Ok(ViterbiDecoder { constraint_length, g0, g1 })
    }

    fn output(&self, g: u32, info: &[u8], t: usize) -> (b: u8)
        requires
            self.wf(),
        ensures
            b == tapped(g, info@, t as int, self.length(), self.length()),
    {
        let k: usize = self.constraint_length;
        let mut sum: u8 = 0;
        let mut j: usize = 0;
        while j < k
            invariant
                j <= k,
                1 <= k <= 32,
                k == self.constraint_length,
                sum == tapped(g, info@, t as int, k as nat, j as nat),
            decreases k - j,
        {
            if (g >> ((k - (j + 1)) as u32)) & 1 == 1 {
                if j <= t {
                    if t - j < info.len() {
                        sum = sum ^ (info[t - j] & 1);
                    }
                }
            }
            j = j + 1;
        }
        sum
    }

    /// Encodes a block and ends it with zeros.
    pub fn encode(&self, info: &[u8]) -> (coded: Vec<u8>)
        requires
            self.wf(),
            2 * (info@.len() + self.length() - 1) <= usize::MAX,
        ensures
            coded@ == convolved(self.length(), self.generators().0, self.generators().1, info@),
    {
        let k: usize = self.constraint_length;
        let total: usize = info.len() + (k - 1);
        let mut coded: Vec<u8> = Vec::new();
        let ghost whole = convolved(k as nat, self.g0, self.g1, info@);
        let mut t: usize = 0;
        while t < total
            invariant
                self.wf(),
                t <= total,
                k == self.constraint_length,
                2 * total <= usize::MAX,
                total == info@.len() + k - 1,
                whole == convolved(k as nat, self.g0, self.g1, info@),
                coded@ == whole.take(2 * t),
            decreases total - t,
        {
            let a: u8 = self.output(self.g0, info, t);
            let b: u8 = self.output(self.g1, info, t);
            assert((2 * t) / 2 == t && (2 * t + 1) / 2 == t && (2 * t) % 2 == 0 && (2 * t + 1) % 2
                == 1);
            assert(whole[2 * t] == a && whole[2 * t + 1] == b);
            coded.push(a);
            coded.push(b);
            assert(whole.take(2 * (t + 1)) =~= whole.take(2 * t).push(a).push(b));
            t = t + 1;
        }
        assert(whole.take(2 * t) =~= whole);
        coded
    }
}

/// The sum modulo two of two words of bits.
pub open spec fn summed(u: Seq<u8>, v: Seq<u8>) -> Seq<u8> {
    Seq::new(u.len(), |i: int| u[i] ^ v[i])
}

/// A word with a single one, at position `at`.
pub open spec fn lone_one(n: nat, at: int) -> Seq<u8> {
    Seq::new(
        n,
        |i: int|
            if i == at {
                1u8
            } else {
                0u8
            },
    )
}

proof fn lemma_tapped_sum(g: u32, u: Seq<u8>, v: Seq<u8>, t: int, k: nat, j: nat)
    requires
        u.len() == v.len(),
        is_bits(u),
        is_bits(v),
    ensures
        tapped(g, summed(u, v), t, k, j) == tapped(g, u, t, k, j) ^ tapped(g, v, t, k, j),
        tapped(g, u, t, k, j) <= 1,
    decreases j,
{
    if j == 0 {
        lemma_xor_bits(0, 0);
    } else {
        let back = t - (j - 1);
        let i = (j - 1) as nat;
        lemma_tapped_sum(g, u, v, t, k, i);
        lemma_tapped_sum(g, v, u, t, k, i);
        let p = tapped(g, u, t, k, i);
        let q = tapped(g, v, t, k, i);
        if 0 <= back < u.len() {
            let a = u[back];
            let b = v[back];
            assert(a <= 1 && b <= 1);
            lemma_low_bit(a);
            lemma_low_bit(b);
            lemma_low_bit(a ^ b);
            lemma_xor_bits(a, b);
            lemma_xor_bits(p, q);
            lemma_xor_bits(p, a);
            lemma_xor_bits(q, b);
            lemma_xor_bits(p ^ q, a ^ b);
            lemma_xor_bits(p ^ a, q ^ b);
            assert(summed(u, v)[back] == a ^ b);
        }
    }
}

/// Encoding is linear: the coded bits of a sum are the sum of the coded bits.
pub proof fn lemma_convolved_linear(k: nat, g0: u32, g1: u32, u: Seq<u8>, v: Seq<u8>)
    requires
        k >= 1,
        u.len() == v.len(),
        is_bits(u),
        is_bits(v),
    ensures
        convolved(k, g0, g1, summed(u, v)) == summed(
            convolved(k, g0, g1, u),
            convolved(k, g0, g1, v),
        ),
        is_bits(convolved(k, g0, g1, u)),
{
    let s = convolved(k, g0, g1, summed(u, v));
    let w = convolved(k, g0, g1, u);
    assert forall|i: int| 0 <= i < s.len() implies s[i] == summed(
        convolved(k, g0, g1, u),
        convolved(k, g0, g1, v),
    )[i] && #[trigger] w[i] <= 1 by {
        lemma_tapped_sum(g0, u, v, i / 2, k, k);
        lemma_tapped_sum(g1, u, v, i / 2, k, k);
    }
    assert(s =~= summed(convolved(k, g0, g1, u), convolved(k, g0, g1, v)));
}

proof fn lemma_tapped_lone(g: u32, n: nat, at: int, t: int, k: nat, j: nat)
    requires
        0 <= at < n,
        j <= k <= 32,
    ensures
        tapped(g, lone_one(n, at), t, k, j) <= 1,
        tapped(g, lone_one(n, at), t, k, j) == 1 <==> 0 <= t - at < j && (g >> ((k - 1 - (t - at))
            as u32)) & 1 == 1,
    decreases j,
{
    if j > 0 {
        let back = t - (j - 1);
        let u = lone_one(n, at);
        let rest = tapped(g, u, t, k, (j - 1) as nat);
        lemma_tapped_lone(g, n, at, t, k, (j - 1) as nat);
        lemma_low_bit(0);
        lemma_low_bit(1);
        lemma_xor_bits(rest, 0);
        lemma_xor_bits(rest, 1);
        if 0 <= back < n {
            assert(u[back] == if back == at {
                1u8
            } else {
                0u8
            });
        }
        if back == at {
            assert((k - j) as u32 == (k - 1 - (t - at)) as u32);
        }
    }
}

/// What a generator is: a single one spells it out, its most significant bit
/// with the one itself and the others behind it, and nothing comes before
/// or after.
pub proof fn lemma_convolved_lone(k: nat, g0: u32, g1: u32, n: nat, at: int, t: int)
    requires
        1 <= k <= 32,
        0 <= at < n,
        0 <= t < n + k - 1,
    ensures
        convolved(k, g0, g1, lone_one(n, at))[2 * t] <= 1,
        convolved(k, g0, g1, lone_one(n, at))[2 * t + 1] <= 1,
        convolved(k, g0, g1, lone_one(n, at))[2 * t] == 1 <==> 0 <= t - at < k && (g0 >> ((k - 1
            - (t - at)) as u32)) & 1 == 1,
        convolved(k, g0, g1, lone_one(n, at))[2 * t + 1] == 1 <==> 0 <= t - at < k && (g1 >> ((k
            - 1 - (t - at)) as u32)) & 1 == 1,
{
    lemma_tapped_lone(g0, n, at, t, k, k);
    lemma_tapped_lone(g1, n, at, t, k, k);
    assert((2 * t) / 2 == t && (2 * t + 1) / 2 == t && (2 * t) % 2 == 0 && (2 * t + 1) % 2 == 1);
}

} // verus!
