//! Polar codes: the transform, the encoder, and decoding by successive
//! cancellation, with one path or with a list of them.
//!
//! Log-likelihood ratios are bit patterns of single-precision numbers,
//! positive for a zero bit. The caller hands over the addition of two such
//! patterns.

use crate::bits::{is_bits, lemma_low_bit, lemma_low_bits, lemma_xor_bits, low_bits};
use crate::crc::{checks, Crc24, CrcKind};
use crate::error::FecError;
use crate::polar_list::{
    first_list,
    leads,
    lemma_scl_noiseless,
    path_views,
    scl_decides,
    scl_decode,
    sums_costs,
    PathView,
    ScPath,
};
use crate::reliability::{free_below, frozen_mask, is_frozen_mask, lemma_mask_unique};
use crate::soft::{
    all_finite,
    check_node,
    combine,
    decides,
    finite,
    hard,
    hard_bit,
    lemma_patterns,
    negative,
    positive,
    signed,
    with_sign,
};
use vstd::arithmetic::power2::pow2;
use vstd::prelude::*;

verus! {

/// A power of two.
pub open spec fn is_power(n: int) -> bool
    decreases n,
{
    n == 1 || (n > 1 && n % 2 == 0 && is_power(n / 2))
}

/// Entrywise sum of bits.
pub open spec fn xored(a: Seq<u8>, b: Seq<u8>) -> Seq<u8> {
    Seq::new(a.len(), |i: int| a[i] ^ b[i])
}

/// The polar transform: the transforms of the two halves, the second one
/// added to the first.
pub open spec fn polar(u: Seq<u8>) -> Seq<u8>
    decreases u.len(),
{
    if u.len() <= 1 {
        u
    } else {
        let h = u.len() as int / 2;
        let a = polar(u.take(h));
        let b = polar(u.skip(h));
        xored(a, b) + b
    }
}

/// Facts about the length of a transform.
pub proof fn lemma_polar_len(u: Seq<u8>)
    requires
        is_power(u.len() as int),
    ensures
        polar(u).len() == u.len(),
    decreases u.len(),
{
    if u.len() > 1 {
        let h = u.len() as int / 2;
        lemma_polar_len(u.take(h));
        lemma_polar_len(u.skip(h));
    }
}

/// The transform of bits are bits.
pub proof fn lemma_polar_bits(u: Seq<u8>)
    requires
        is_power(u.len() as int),
        is_bits(u),
    ensures
        is_bits(polar(u)),
    decreases u.len(),
{
    lemma_polar_len(u);
    if u.len() > 1 {
        let h = u.len() as int / 2;
        assert forall|i: int| 0 <= i < h implies #[trigger] u.take(h)[i] <= 1 by {
            assert(u[i] <= 1);
        }
        assert forall|i: int| 0 <= i < h implies #[trigger] u.skip(h)[i] <= 1 by {
            assert(u[h + i] <= 1);
        }
        lemma_polar_len(u.take(h));
        lemma_polar_len(u.skip(h));
        lemma_polar_bits(u.take(h));
        lemma_polar_bits(u.skip(h));
        let a = polar(u.take(h));
        let b = polar(u.skip(h));
        assert forall|i: int| 0 <= i < u.len() implies #[trigger] polar(u)[i] <= 1 by {
            if i < h {
                assert(a[i] <= 1 && b[i] <= 1);
                lemma_xor_bits(a[i], b[i]);
            } else {
                assert(b[i - h] <= 1);
            }
        }
    }
}

proof fn lemma_xor_cancel(a: u8, b: u8, c: u8, d: u8)
    by (bit_vector)
    ensures
        (a ^ b) ^ b == a,
        (a ^ b) ^ (c ^ d) == (a ^ c) ^ (b ^ d),
        a ^ 0 == a,
        0u8 ^ 0u8 == 0,
        a ^ a == 0,
{
}

/// The transform of a sum is the sum of the transforms.
pub proof fn lemma_polar_linear(u: Seq<u8>, v: Seq<u8>)
    requires
        u.len() == v.len(),
        is_power(u.len() as int),
    ensures
        polar(xored(u, v)) == xored(polar(u), polar(v)),
    decreases u.len(),
{
    let w = xored(u, v);
    lemma_polar_len(u);
    lemma_polar_len(v);
    if u.len() <= 1 {
        assert(polar(w) =~= xored(polar(u), polar(v)));
    } else {
        let h = u.len() as int / 2;
        assert(w.take(h) =~= xored(u.take(h), v.take(h)));
        assert(w.skip(h) =~= xored(u.skip(h), v.skip(h)));
        lemma_polar_linear(u.take(h), v.take(h));
        lemma_polar_linear(u.skip(h), v.skip(h));
        lemma_polar_len(u.take(h));
        lemma_polar_len(u.skip(h));
        lemma_polar_len(v.take(h));
        lemma_polar_len(v.skip(h));
        let a = polar(u.take(h));
        let b = polar(u.skip(h));
        let c = polar(v.take(h));
        let d = polar(v.skip(h));
        let x = polar(w);
        let y = xored(polar(u), polar(v));
        assert forall|i: int| 0 <= i < u.len() implies x[i] == y[i] by {
            if i < h {
                lemma_xor_cancel(a[i], b[i], c[i], d[i]);
                lemma_xor_cancel(a[i], c[i], b[i], d[i]);
            }
        }
        assert(x =~= y);
    }
}

/// The transform undoes itself.
pub proof fn lemma_polar_involution(u: Seq<u8>)
    requires
        is_power(u.len() as int),
    ensures
        polar(polar(u)) == u,
    decreases u.len(),
{
    lemma_polar_len(u);
    if u.len() > 1 {
        let h = u.len() as int / 2;
        let a = polar(u.take(h));
        let b = polar(u.skip(h));
        lemma_polar_len(u.take(h));
        lemma_polar_len(u.skip(h));
        lemma_polar_len(a);
        lemma_polar_len(b);
        lemma_polar_involution(u.take(h));
        lemma_polar_involution(u.skip(h));
        let x = polar(u);
        assert(x.take(h) =~= xored(a, b));
        assert(x.skip(h) =~= b);
        lemma_polar_linear(a, b);
        let p = polar(a);
        let q = polar(b);
        assert(p == u.take(h) && q == u.skip(h));
        let y = polar(x);
        assert forall|i: int| 0 <= i < u.len() implies y[i] == u[i] by {
            if i < h {
                lemma_xor_cancel(p[i], q[i], 0, 0);
            }
        }
        assert(y =~= u);
    }
}

/// The transform of zeros is zero.
pub proof fn lemma_polar_zero(u: Seq<u8>)
    requires
        is_power(u.len() as int),
        forall|i: int| 0 <= i < u.len() ==> u[i] == 0,
    ensures
        polar(u) == u,
    decreases u.len(),
{
    lemma_polar_len(u);
    if u.len() > 1 {
        let h = u.len() as int / 2;
        lemma_polar_zero(u.take(h));
        lemma_polar_zero(u.skip(h));
        lemma_xor_cancel(0, 0, 0, 0);
        assert(polar(u) =~= u);
    }
}

/// Whether `n` is a power of two.
pub fn is_power_of_two(n: usize) -> (r: bool)
    ensures
        r == is_power(n as int),
{
    if n == 0 {
        return false;
    }
    let mut m: usize = n;
    while m > 1
        invariant
            m >= 1,
            is_power(n as int) == is_power(m as int),
        decreases m,
    {
        if m % 2 != 0 {
            return false;
        }
        m = m / 2;
    }
    true
}

/// Transforms the `len` entries from `start` on.
pub fn polar_transform(u: &mut Vec<u8>, start: usize, len: usize)
    requires
        start + len <= old(u)@.len(),
        is_power(len as int),
    ensures
        final(u)@.len() == old(u)@.len(),
        final(u)@.subrange(start as int, start + len) == polar(
            old(u)@.subrange(start as int, start + len),
        ),
        forall|i: int|
            0 <= i < old(u)@.len() && !(start <= i < start + len) ==> #[trigger] final(u)@[i] == old(
                u,
            )@[i],
    decreases len,
{
    let ghost before = u@;
    let ghost whole = before.subrange(start as int, start + len);
    let total: usize = u.len();
    if len > 1 {
        let h: usize = len / 2;
        polar_transform(u, start, h);
        let ghost once = u@;
        polar_transform(u, start + h, h);
        let ghost twice = u@;
        let ghost a = polar(whole.take(h as int));
        let ghost b = polar(whole.skip(h as int));
        proof {
            assert(whole.take(h as int) =~= before.subrange(start as int, start + h));
            assert(whole.skip(h as int) =~= before.subrange(start + h, start + len));
            assert(once.subrange(start + h, start + len) =~= before.subrange(start + h, start + len));
            assert(twice.subrange(start as int, start + h) =~= once.subrange(start as int, start + h));
            lemma_polar_len(whole.take(h as int));
            lemma_polar_len(whole.skip(h as int));
            assert forall|j: int| 0 <= j < h implies #[trigger] a[j] == twice[start + j] by {
                assert(twice.subrange(start as int, start + h)[j] == a[j]);
            }
            assert forall|j: int| 0 <= j < h implies #[trigger] b[j] == twice[start + h + j] by {
                assert(twice.subrange(start + h, start + len)[j] == b[j]);
            }
        }
        let mut i: usize = 0;
        while i < h
            invariant
                i <= h,
                len == 2 * h,
                start + len <= total,
                total == u@.len(),
                before.len() == total,
                twice.len() == total,
                a.len() == h,
                b.len() == h,
                forall|j: int| 0 <= j < h ==> #[trigger] a[j] == twice[start + j],
                forall|j: int| 0 <= j < h ==> #[trigger] b[j] == twice[start + h + j],
                forall|j: int| 0 <= j < i ==> #[trigger] u@[start + j] == a[j] ^ b[j],
                forall|j: int|
                    0 <= j < total && !(start <= j < start + i) ==> #[trigger] u@[j] == twice[j],
            decreases h - i,
        {
            assert(a[i as int] == twice[start + i] && b[i as int] == twice[start + h + i]);
            let x: u8 = u[start + i] ^ u[start + h + i];
            u.set(start + i, x);
            i = i + 1;
        }
        proof {
            let now = u@.subrange(start as int, start + len);
            let want = polar(whole);
            assert forall|j: int| 0 <= j < len implies now[j] == want[j] by {
                if j < h {
                    assert(u@[start + j] == a[j] ^ b[j]);
                } else {
                    assert(b[j - h] == twice[start + h + (j - h)]);
                }
            }
            assert(now =~= want);
            assert forall|j: int| 0 <= j < total && !(start <= j < start + len) implies #[trigger] u@[j]
                == before[j] by {
                assert(u@[j] == twice[j]);
                assert(twice[j] == once[j]);
            }
        }
    }
}

/// The input of the transform: information bits at the free positions, in
/// order, and zeros at the frozen ones.
pub open spec fn placed(frozen: Seq<bool>, info: Seq<u8>) -> Seq<u8> {
    Seq::new(
        frozen.len(),
        |i: int|
            if frozen[i] {
                0
            } else {
                info[free_below(frozen, i) as int] & 1
            },
    )
}

/// The entries at the free positions below `n`, in order.
pub open spec fn gathered(frozen: Seq<bool>, u: Seq<u8>, n: int) -> Seq<u8>
    decreases n,
{
    if n <= 0 {
        Seq::empty()
    } else if frozen[n - 1] {
        gathered(frozen, u, n - 1)
    } else {
        gathered(frozen, u, n - 1).push(u[n - 1])
    }
}

/// Zero at every frozen position.
pub open spec fn respects(frozen: Seq<bool>, u: Seq<u8>) -> bool {
    forall|i: int| 0 <= i < frozen.len() && frozen[i] ==> #[trigger] u[i] == 0
}

proof fn lemma_gathered_len(frozen: Seq<bool>, u: Seq<u8>, n: int)
    requires
        0 <= n,
    ensures
        gathered(frozen, u, n).len() == free_below(frozen, n),
    decreases n,
{
    if n > 0 {
        lemma_gathered_len(frozen, u, n - 1);
    }
}

proof fn lemma_free_monotone(frozen: Seq<bool>, i: int, n: int)
    requires
        0 <= i <= n,
    ensures
        free_below(frozen, i) <= free_below(frozen, n),
        i < n && !frozen[i] ==> free_below(frozen, i) < free_below(frozen, n),
    decreases n - i,
{
    if i < n {
        lemma_free_monotone(frozen, i + 1, n);
    }
}

/// Gathering what was placed gives the low bits of the information back.
pub proof fn lemma_gather_placed(frozen: Seq<bool>, info: Seq<u8>)
    requires
        free_below(frozen, frozen.len() as int) == info.len(),
    ensures
        gathered(frozen, placed(frozen, info), frozen.len() as int) == low_bits(info),
{
    let n = frozen.len() as int;
    lemma_gather_prefix(frozen, info, n);
    assert(low_bits(info).take(info.len() as int) =~= low_bits(info));
}

proof fn lemma_gather_prefix(frozen: Seq<bool>, info: Seq<u8>, n: int)
    requires
        0 <= n <= frozen.len(),
        free_below(frozen, frozen.len() as int) == info.len(),
    ensures
        gathered(frozen, placed(frozen, info), n) == low_bits(info).take(
            free_below(frozen, n) as int,
        ),
    decreases n,
{
    lemma_free_monotone(frozen, n, frozen.len() as int);
    if n > 0 {
        lemma_gather_prefix(frozen, info, n - 1);
        lemma_free_monotone(frozen, n - 1, frozen.len() as int);
        if !frozen[n - 1] {
            let k = free_below(frozen, n - 1) as int;
            assert(low_bits(info).take(k + 1) =~= low_bits(info).take(k).push(low_bits(info)[k]));
        }
    } else {
        assert(low_bits(info).take(0) =~= Seq::<u8>::empty());
    }
}

/// Placed information is a word of bits that is zero at the frozen positions.
pub proof fn lemma_placed(frozen: Seq<bool>, info: Seq<u8>)
    ensures
        is_bits(placed(frozen, info)),
        respects(frozen, placed(frozen, info)),
{
    let u = placed(frozen, info);
    assert forall|i: int| 0 <= i < u.len() implies #[trigger] u[i] <= 1 by {
        lemma_low_bit(info[free_below(frozen, i) as int]);
    }
}

/// Which parameters of a code are rejected, and how.
pub open spec fn code_error(n: int, k: int) -> Option<FecError> {
    if !is_power(n) {
        Some(FecError::InvalidParam("polar N must be a positive power of 2"))
    } else if k >= n {
        Some(FecError::InvalidParam("k must be < n"))
    } else {
        None
    }
}

/// The encoder of a code of length `n` with `k` information bits.
pub struct PolarEncoder {
    n: usize,
    k: usize,
    is_frozen: Vec<bool>,
}

impl PolarEncoder {
    /// The length.
    pub closed spec fn length(&self) -> nat {
        self.n as nat
    }

    /// The number of information bits.
    pub closed spec fn dimension(&self) -> nat {
        self.k as nat
    }

    /// The frozen positions.
    pub closed spec fn frozen(&self) -> Seq<bool> {
        self.is_frozen@
    }

    /// The mask freezes all but the `k` most reliable of `n` positions.
    pub open spec fn wf(&self) -> bool {
        &&& is_power(self.length() as int)
        &&& self.dimension() < self.length()
        &&& is_frozen_mask(self.length(), self.dimension(), self.frozen())
        &&& self.frozen().len() == self.length()
        &&& free_below(self.frozen(), self.length() as int) == self.dimension()
    }

    /// An encoder.
    pub fn new(n: usize, k: usize) -> (r: Result<PolarEncoder, FecError>)
        ensures
            match r {
                Ok(c) => code_error(n as int, k as int) is None && c.wf() && c.length() == n
                    && c.dimension() == k,
                Err(e) => code_error(n as int, k as int) == Some(e),
            },
    {
        if !is_power_of_two(n) {
            return Err(FecError::InvalidParam("polar N must be a positive power of 2"));
        }
        if k >= n {
            return Err(FecError::InvalidParam("k must be < n"));
        }
        let is_frozen: Vec<bool> = frozen_mask(n, k);
        Ok(PolarEncoder { n, k, is_frozen })
    }

    /// The length.
    pub fn n(&self) -> (n: usize)
        ensures
            n == self.length(),
    {
        self.n
    }

    /// The number of information bits.
    pub fn k(&self) -> (k: usize)
        ensures
            k == self.dimension(),
    {
        self.k
    }

    /// Encodes the low bits of `k` entries.
    pub fn encode(&self, info_bits: &[u8], codeword: &mut [u8]) -> (r: Result<(), FecError>)
        requires
            self.wf(),
        ensures
            final(codeword)@.len() == old(codeword)@.len(),
            match r {
                Ok(_) => info_bits@.len() == self.dimension() && old(codeword)@.len()
                    == self.length() && final(codeword)@ == polar(
                    placed(self.frozen(), info_bits@),
                ),
                Err(e) => final(codeword)@ == old(codeword)@ && lengths_error(
                    self.dimension(),
                    info_bits@.len(),
                    self.length(),
                    old(codeword)@.len(),
                ) == Some(e),
            },
    {
        if info_bits.len() != self.k {
            return Err(
                FecError::BufferTooSmall { required: self.k, provided: info_bits.len() },
            );
        }
        if codeword.len() != self.n {
            return Err(
                FecError::BufferTooSmall { required: self.n, provided: codeword.len() },
            );
        }
        let mut u: Vec<u8> = Vec::new();
        let mut at: usize = 0;
        let mut i: usize = 0;
        while i < self.n
            invariant
                self.wf(),
                i <= self.n,
                info_bits@.len() == self.k,
                at == free_below(self.is_frozen@, i as int),
                u@ == placed(self.is_frozen@, info_bits@).take(i as int),
            decreases self.n - i,
        {
            let ghost whole = placed(self.is_frozen@, info_bits@);
            proof {
                lemma_free_monotone(self.is_frozen@, i as int, self.n as int);
                assert(whole.take(i + 1) =~= whole.take(i as int).push(whole[i as int]));
            }
            if self.is_frozen[i] {
                u.push(0);
            } else {
                u.push(info_bits[at] & 1);
                at = at + 1;
            }
            i = i + 1;
        }
        let ghost whole = placed(self.is_frozen@, info_bits@);
        assert(whole.take(i as int) =~= whole);
        polar_transform(&mut u, 0, self.n);
        proof {
            lemma_polar_len(whole);
            assert(whole.subrange(0, self.n as int) =~= whole);
            assert(u@.subrange(0, self.n as int) =~= u@);
        }
        crate::slices::copy_into(&u, 0, codeword);
        assert(u@.skip(0) =~= u@);
        Ok(())
    }
}

/// Which lengths are rejected, and how: the first pair is tested first.
pub open spec fn lengths_error(
    required: nat,
    provided: nat,
    required_2: nat,
    provided_2: nat,
) -> Option<FecError> {
    if provided != required {
        Some(
            FecError::BufferTooSmall { required: required as usize, provided: provided as usize },
        )
    } else if provided_2 != required_2 {
        Some(
            FecError::BufferTooSmall {
                required: required_2 as usize,
                provided: provided_2 as usize,
            },
        )
    } else {
        None
    }
}

/// The likelihoods of the sums of the two halves.
pub open spec fn left_llr(llr: Seq<u32>) -> Seq<u32> {
    let h = llr.len() / 2;
    Seq::new(h, |i: int| check_node(llr[i], llr[h + i]))
}

/// `right` holds possible sums of each second-half likelihood and the
/// first-half one, with its sign turned by the partial sum `x`.
pub open spec fn is_right_llr<F: Fn(u32, u32) -> u32>(
    plus: F,
    llr: Seq<u32>,
    x: Seq<u8>,
    right: Seq<u32>,
) -> bool {
    let h = llr.len() as int / 2;
    right.len() == h && forall|i: int|
        0 <= i < h ==> call_ensures(
            plus,
            (llr[h + i], signed(llr[i], x[i])),
            #[trigger] right[i],
        )
}

/// `u` is what successive cancellation decides: at a single position, zero
/// where it is frozen and the hard decision elsewhere; otherwise the first
/// half by the combined likelihoods, then the second half given the
/// transform of the first.
pub open spec fn sc_decides<F: Fn(u32, u32) -> u32>(
    plus: F,
    llr: Seq<u32>,
    frozen: Seq<bool>,
    u: Seq<u8>,
) -> bool
    decreases llr.len(),
{
    if llr.len() <= 1 {
        u == seq![
            if frozen[0] {
                0u8
            } else {
                hard(llr[0])
            },
        ]
    } else {
        let h = llr.len() as int / 2;
        &&& u.len() == llr.len()
        &&& sc_decides(plus, left_llr(llr), frozen.take(h), u.take(h))
        &&& exists|right: Seq<u32>| #[trigger]
            is_right_llr(plus, llr, polar(u.take(h)), right) && sc_decides(
                plus,
                right,
                frozen.skip(h),
                u.skip(h),
            )
    }
}

/// Decides the positions from `start` on. Returns the bits and their
/// transform.
fn sc_decode_recursive<F: Fn(u32, u32) -> u32>(
    llr: &Vec<u32>,
    is_frozen: &Vec<bool>,
    start: usize,
    plus: &F,
) -> (r: (Vec<u8>, Vec<u8>))
    requires
        is_power(llr@.len() as int),
        start + llr@.len() <= is_frozen@.len(),
        forall|a: u32, b: u32| call_requires(*plus, (a, b)),
    ensures
        r.0@.len() == llr@.len(),
        r.1@ == polar(r.0@),
        sc_decides(
            *plus,
            llr@,
            is_frozen@.subrange(start as int, start + llr@.len()),
            r.0@,
        ),
        is_bits(r.0@),
    decreases llr@.len(),
{
    let n: usize = llr.len();
    let total: usize = is_frozen.len();
    let ghost frozen = is_frozen@.subrange(start as int, start + n);
    if n == 1 {
        let bit: u8 = if is_frozen[start] {
            0
        } else {
            hard_bit(llr[0])
        };
        let mut u: Vec<u8> = Vec::new();
        u.push(bit);
        let mut x: Vec<u8> = Vec::new();
        x.push(bit);
        assert(u@ =~= seq![bit]);
        assert(x@ =~= u@);
        return (u, x);
    }
    let h: usize = n / 2;
    let mut left: Vec<u32> = Vec::new();
    let mut i: usize = 0;
    while i < h
        invariant
            i <= h,
            n == 2 * h,
            n == llr@.len(),
            left@ == left_llr(llr@).take(i as int),
        decreases h - i,
    {
        left.push(combine(llr[i], llr[h + i]));
        assert(left_llr(llr@).take(i + 1) =~= left_llr(llr@).take(i as int).push(
            left_llr(llr@)[i as int],
        ));
        i = i + 1;
    }
    assert(left_llr(llr@).take(h as int) =~= left_llr(llr@));
    let (u1, x1) = sc_decode_recursive(&left, is_frozen, start, plus);
    assert(frozen.take(h as int) =~= is_frozen@.subrange(start as int, start + h));
    proof {
        lemma_polar_len(u1@);
    }
    let mut right: Vec<u32> = Vec::new();
    let mut j: usize = 0;
    while j < h
        invariant
            j <= h,
            n == 2 * h,
            n == llr@.len(),
            x1@.len() == h,
            forall|a: u32, b: u32| call_requires(*plus, (a, b)),
            right@.len() == j,
            forall|k: int|
                0 <= k < j ==> call_ensures(
                    *plus,
                    (llr@[h + k], signed(llr@[k], x1@[k])),
                    #[trigger] right@[k],
                ),
        decreases h - j,
    {
        let a: u32 = with_sign(llr[j], x1[j]);
        let value: u32 = plus(llr[h + j], a);
        right.push(value);
        j = j + 1;
    }
    assert(is_right_llr(*plus, llr@, polar(u1@), right@));
    let (u2, x2) = sc_decode_recursive(&right, is_frozen, start + h, plus);
    proof {
        assert(frozen.skip(h as int) =~= is_frozen@.subrange(start + h, start + n));
        lemma_polar_len(u2@);
    }
    let mut u: Vec<u8> = u1;
    let mut x: Vec<u8> = Vec::new();
    let mut k: usize = 0;
    while k < h
        invariant
            k <= h,
            x1@.len() == h,
            x2@.len() == h,
            x@.len() == k,
            forall|t: int| 0 <= t < k ==> #[trigger] x@[t] == x1@[t] ^ x2@[t],
            u@ == u1@ + u2@.take(k as int),
            u2@.len() == h,
        decreases h - k,
    {
        x.push(x1[k] ^ x2[k]);
        u.push(u2[k]);
        assert(u2@.take(k + 1) =~= u2@.take(k as int).push(u2@[k as int]));
        k = k + 1;
    }
    let ghost sums = x@;
    let mut k: usize = 0;
    while k < h
        invariant
            k <= h,
            x2@.len() == h,
            x@ == sums + x2@.take(k as int),
        decreases h - k,
    {
        x.push(x2[k]);
        assert(x2@.take(k + 1) =~= x2@.take(k as int).push(x2@[k as int]));
        k = k + 1;
    }
    proof {
        assert(x2@.take(h as int) =~= x2@);
        assert(u2@.take(h as int) =~= u2@);
        assert(u@.take(h as int) =~= u1@);
        assert(u@.skip(h as int) =~= u2@);
        assert(sums =~= xored(x1@, x2@));
        assert forall|t: int| 0 <= t < n implies #[trigger] u@[t] <= 1 by {
            if t < h {
                assert(u1@[t] <= 1);
            } else {
                assert(u2@[t - h] <= 1);
            }
        }
    }
    (u, x)
}

/// Adding two values of one sign gives a value of that sign.
pub open spec fn keeps_sign<F: Fn(u32, u32) -> u32>(plus: F) -> bool {
    forall|a: u32, b: u32, r: u32|
        #[trigger] call_ensures(plus, (a, b), r) ==> (positive(a) && positive(b) ==> positive(r)) && (
        negative(a) && negative(b) ==> negative(r))
}

/// Every likelihood clearly decides for the bit sent.
pub open spec fn all_decide(llr: Seq<u32>, x: Seq<u8>) -> bool {
    llr.len() == x.len() && forall|i: int| 0 <= i < x.len() ==> decides(#[trigger] llr[i], x[i])
}

/// The combined likelihoods of the first half decide for its transform.
pub proof fn lemma_left_decides(llr: Seq<u32>, v: Seq<u8>)
    requires
        is_power(v.len() as int),
        v.len() > 1,
        is_bits(v),
        all_decide(llr, polar(v)),
    ensures
        all_decide(left_llr(llr), polar(v.take(v.len() as int / 2))),
        is_bits(v.take(v.len() as int / 2)),
        is_bits(v.skip(v.len() as int / 2)),
{
    let h = v.len() as int / 2;
    let a = polar(v.take(h));
    let b = polar(v.skip(h));
    assert forall|i: int| 0 <= i < h implies #[trigger] v.take(h)[i] <= 1 by {
        assert(v[i] <= 1);
    }
    assert forall|i: int| 0 <= i < h implies #[trigger] v.skip(h)[i] <= 1 by {
        assert(v[h + i] <= 1);
    }
    lemma_polar_len(v);
    lemma_polar_len(v.take(h));
    lemma_polar_len(v.skip(h));
    lemma_polar_bits(v.take(h));
    lemma_polar_bits(v.skip(h));
    let l = left_llr(llr);
    assert forall|i: int| 0 <= i < h implies decides(#[trigger] l[i], a[i]) by {
        assert(a[i] <= 1 && b[i] <= 1);
        assert(polar(v)[i] == a[i] ^ b[i] && polar(v)[h + i] == b[i]);
        assert(decides(llr[i], a[i] ^ b[i]));
        assert(decides(llr[h + i], b[i]));
        lemma_xor_bits(a[i], b[i]);
        lemma_patterns(llr[i], llr[h + i]);
    }
}

/// Given the transform of the first half, the added likelihoods decide for
/// the transform of the second.
pub proof fn lemma_right_decides<F: Fn(u32, u32) -> u32>(
    plus: F,
    llr: Seq<u32>,
    v: Seq<u8>,
    right: Seq<u32>,
)
    requires
        is_power(v.len() as int),
        v.len() > 1,
        is_bits(v),
        all_decide(llr, polar(v)),
        keeps_sign(plus),
        is_right_llr(plus, llr, polar(v.take(v.len() as int / 2)), right),
    ensures
        all_decide(right, polar(v.skip(v.len() as int / 2))),
{
    let h = v.len() as int / 2;
    let a = polar(v.take(h));
    let b = polar(v.skip(h));
    lemma_left_decides(llr, v);
    lemma_polar_len(v);
    lemma_polar_len(v.take(h));
    lemma_polar_len(v.skip(h));
    lemma_polar_bits(v.take(h));
    lemma_polar_bits(v.skip(h));
    assert forall|i: int| 0 <= i < h implies decides(#[trigger] right[i], b[i]) by {
        assert(a[i] <= 1 && b[i] <= 1);
        assert(polar(v)[i] == a[i] ^ b[i] && polar(v)[h + i] == b[i]);
        assert(decides(llr[i], a[i] ^ b[i]));
        assert(decides(llr[h + i], b[i]));
        lemma_xor_bits(a[i], b[i]);
        lemma_patterns(llr[i], llr[h + i]);
        assert(call_ensures(plus, (llr[h + i], signed(llr[i], a[i])), right[i]));
    }
}

/// Where every likelihood decides for the bit sent, successive cancellation
/// finds the input of the transform.
pub proof fn lemma_sc_noiseless<F: Fn(u32, u32) -> u32>(
    plus: F,
    llr: Seq<u32>,
    frozen: Seq<bool>,
    v: Seq<u8>,
    u: Seq<u8>,
)
    requires
        is_power(v.len() as int),
        is_bits(v),
        frozen.len() == v.len(),
        respects(frozen, v),
        all_decide(llr, polar(v)),
        keeps_sign(plus),
        sc_decides(plus, llr, frozen, u),
    ensures
        u == v,
    decreases v.len(),
{
    lemma_polar_len(v);
    if v.len() <= 1 {
        assert(decides(llr[0], v[0]));
        assert(v[0] <= 1);
        lemma_patterns(llr[0], 0);
        assert(u =~= v);
    } else {
        let h = v.len() as int / 2;
        lemma_left_decides(llr, v);
        assert forall|i: int| 0 <= i < h && frozen.take(h)[i] implies #[trigger] v.take(h)[i] == 0 by {
            assert(frozen[i] && v[i] == 0);
        }
        assert forall|i: int| 0 <= i < h && frozen.skip(h)[i] implies #[trigger] v.skip(h)[i] == 0 by {
            assert(frozen[h + i] && v[h + i] == 0);
        }
        lemma_sc_noiseless(plus, left_llr(llr), frozen.take(h), v.take(h), u.take(h));
        let right = choose|right: Seq<u32>| #[trigger]
            is_right_llr(plus, llr, polar(u.take(h)), right) && sc_decides(
                plus,
                right,
                frozen.skip(h),
                u.skip(h),
            );
        lemma_right_decides(plus, llr, v, right);
        lemma_sc_noiseless(plus, right, frozen.skip(h), v.skip(h), u.skip(h));
        assert(u =~= u.take(h) + u.skip(h));
        assert(v =~= v.take(h) + v.skip(h));
    }
}

/// `out` holds the information bits that successive cancellation decides.
pub open spec fn sc_decoded<F: Fn(u32, u32) -> u32>(
    plus: F,
    llr: Seq<u32>,
    frozen: Seq<bool>,
    out: Seq<u8>,
) -> bool {
    exists|u: Seq<u8>| #[trigger]
        sc_decides(plus, llr, frozen, u) && out == gathered(frozen, u, frozen.len() as int)
}

/// The information bits of a path pass the check.
pub open spec fn passes(kind: CrcKind, frozen: Seq<bool>, p: PathView) -> bool {
    checks(kind, gathered(frozen, p.decoded, frozen.len() as int))
}

/// Path `i` is the one chosen: the first that passes the check, or the first
/// of all where none does or there is no check.
pub open spec fn is_chosen(
    crc: Option<CrcKind>,
    frozen: Seq<bool>,
    paths: Seq<PathView>,
    i: int,
) -> bool {
    match crc {
        Some(kind) => {
            &&& forall|j: int| 0 <= j < i ==> !passes(kind, frozen, #[trigger] paths[j])
            &&& passes(kind, frozen, paths[i]) || (i == 0 && forall|j: int|
                0 <= j < paths.len() ==> !passes(kind, frozen, #[trigger] paths[j]))
        },
        None => i == 0,
    }
}

/// `out` holds the information bits of the path chosen from the list.
pub open spec fn scl_decoded<F: Fn(u32, u32) -> u32>(
    plus: F,
    llr: Seq<u32>,
    frozen: Seq<bool>,
    size: nat,
    crc: Option<CrcKind>,
    out: Seq<u8>,
) -> bool {
    exists|paths: Seq<PathView>, i: int|
        #![trigger scl_decides(plus, frozen, size, first_list(llr), paths), paths[i]]
        {
            &&& scl_decides(plus, frozen, size, first_list(llr), paths)
            &&& 0 <= i < paths.len()
            &&& is_chosen(crc, frozen, paths, i)
            &&& out == gathered(frozen, paths[i].decoded, frozen.len() as int)
        }
}

/// All likelihoods are finite.
pub open spec fn all_are_finite(llr: Seq<u32>) -> bool {
    forall|i: int| 0 <= i < llr.len() ==> finite(#[trigger] llr[i])
}

/// Writes the bits at the free positions.
fn gather(is_frozen: &Vec<bool>, u: &Vec<u8>) -> (info: Vec<u8>)
    requires
        u@.len() == is_frozen@.len(),
    ensures
        info@ == gathered(is_frozen@, u@, is_frozen@.len() as int),
{
    let mut info: Vec<u8> = Vec::new();
    let mut i: usize = 0;
    while i < is_frozen.len()
        invariant
            i <= is_frozen@.len(),
            u@.len() == is_frozen@.len(),
            info@ == gathered(is_frozen@, u@, i as int),
        decreases is_frozen@.len() - i,
    {
        if !is_frozen[i] {
            info.push(u[i]);
        }
        i = i + 1;
    }
    info
}

/// The decoder of a code of length `n` with `k` information bits.
pub struct PolarDecoder {
    n: usize,
    k: usize,
    list_size: usize,
    is_frozen: Vec<bool>,
    crc: Option<Crc24>,
}

impl PolarDecoder {
    /// The length.
    pub closed spec fn length(&self) -> nat {
        self.n as nat
    }

    /// The number of information bits.
    pub closed spec fn dimension(&self) -> nat {
        self.k as nat
    }

    /// The largest number of paths.
    pub closed spec fn paths(&self) -> nat {
        self.list_size as nat
    }

    /// The frozen positions.
    pub closed spec fn frozen(&self) -> Seq<bool> {
        self.is_frozen@
    }

    /// The check that chooses a path.
    pub closed spec fn crc_kind(&self) -> Option<CrcKind> {
        match self.crc {
            Some(c) => Some(c.view_kind()),
            None => None,
        }
    }

    /// The mask freezes all but the `k` most reliable of `n` positions, and
    /// the tables of the check are in order.
    pub closed spec fn wf(&self) -> bool {
        &&& is_power(self.n as int)
        &&& self.k < self.n
        &&& is_frozen_mask(self.n as nat, self.k as nat, self.is_frozen@)
        &&& self.is_frozen@.len() == self.n
        &&& free_below(self.is_frozen@, self.n as int) == self.k
        &&& self.list_size >= 1
        &&& self.crc is Some ==> self.crc.unwrap().wf()
    }

    /// What a decoder in order has.
    pub proof fn lemma_wf(&self)
        requires
            self.wf(),
        ensures
            is_power(self.length() as int),
            self.dimension() < self.length(),
            is_frozen_mask(self.length(), self.dimension(), self.frozen()),
            self.frozen().len() == self.length(),
            free_below(self.frozen(), self.length() as int) == self.dimension(),
            self.paths() >= 1,
    {
    }

    /// The sizes of a decoder are machine numbers.
    pub proof fn lemma_sizes(&self)
        ensures
            self.length() <= usize::MAX,
            self.paths() <= usize::MAX,
    {
    }

    /// A decoder. With a check, the list decoder chooses the path that
    /// passes it.
    pub fn new(n: usize, k: usize, list_size: usize, crc_kind: Option<CrcKind>) -> (r: Result<
        PolarDecoder,
        FecError,
    >)
        ensures
            match r {
                Ok(c) => code_error(n as int, k as int) is None && list_size >= 1 && c.wf()
                    && c.length() == n && c.dimension() == k && c.paths() == list_size
                    && c.crc_kind() == crc_kind,
                Err(e) => match code_error(n as int, k as int) {
                    Some(f) => e == f,
                    None => list_size == 0 && e == FecError::InvalidParam(
                        "list_size must be >= 1 (0 would leave the SCL path list empty)",
                    ),
                },
            },
    {
        if !is_power_of_two(n) {
            return Err(FecError::InvalidParam("polar N must be a positive power of 2"));
        }
        if k >= n {
            return Err(FecError::InvalidParam("k must be < n"));
        }
        if list_size == 0 {
            return Err(
                FecError::InvalidParam(
                    "list_size must be >= 1 (0 would leave the SCL path list empty)",
                ),
            );
        }
        let is_frozen: Vec<bool> = frozen_mask(n, k);
        let crc: Option<Crc24> = match crc_kind {
            Some(kind) => Some(Crc24::new(kind)),
            None => None,
        };
        Ok(PolarDecoder { n, k, list_size, is_frozen, crc })
    }

    /// What decoding by successive cancellation writes and returns.
    pub open spec fn sc_result<F: Fn(u32, u32) -> u32>(
        &self,
        plus: F,
        llr: Seq<u32>,
        before: Seq<u8>,
        after: Seq<u8>,
        r: Result<(), FecError>,
    ) -> bool {
        let lengths = lengths_error(self.length(), llr.len(), self.dimension(), before.len());
        match r {
            Ok(_) => lengths is None && all_are_finite(llr) && sc_decoded(
                plus,
                llr,
                self.frozen(),
                after,
            ),
            Err(e) => after == before && (match lengths {
                Some(f) => e == f,
                None => !all_are_finite(llr) && e == FecError::InvalidParam(
                    "polar decode_sc: llr contains NaN or infinite value",
                ),
            }),
        }
    }

    /// What list decoding writes and returns.
    pub open spec fn scl_result<F: Fn(u32, u32) -> u32>(
        &self,
        plus: F,
        llr: Seq<u32>,
        before: Seq<u8>,
        after: Seq<u8>,
        r: Result<(), FecError>,
    ) -> bool {
        let lengths = lengths_error(self.length(), llr.len(), self.dimension(), before.len());
        match r {
            Ok(_) => lengths is None && all_are_finite(llr) && (if self.paths() == 1 {
                sc_decoded(plus, llr, self.frozen(), after)
            } else {
                scl_decoded(plus, llr, self.frozen(), self.paths(), self.crc_kind(), after)
            }),
            Err(e) => after == before && (match lengths {
                Some(f) => e == f,
                None => !all_are_finite(llr) && e == FecError::InvalidParam(
                    "polar decode_scl: llr contains NaN or infinite value",
                ),
            }),
        }
    }

    /// Decodes by successive cancellation.
    pub fn decode_sc<F: Fn(u32, u32) -> u32>(
        &self,
        llr: &[u32],
        out: &mut [u8],
        plus: &F,
    ) -> (r: Result<(), FecError>)
        requires
            self.wf(),
            forall|a: u32, b: u32| call_requires(*plus, (a, b)),
        ensures
            final(out)@.len() == old(out)@.len(),
            self.sc_result(*plus, llr@, old(out)@, final(out)@, r),
    {
        if llr.len() != self.n {
            return Err(FecError::BufferTooSmall { required: self.n, provided: llr.len() });
        }
        if out.len() != self.k {
            return Err(FecError::BufferTooSmall { required: self.k, provided: out.len() });
        }
        if !all_finite(llr) {
            return Err(
                FecError::InvalidParam("polar decode_sc: llr contains NaN or infinite value"),
            );
        }
        self.write_sc(llr, out, plus);
        Ok(())
    }

    fn write_sc<F: Fn(u32, u32) -> u32>(&self, llr: &[u32], out: &mut [u8], plus: &F)
        requires
            self.wf(),
            llr@.len() == self.n,
            old(out)@.len() == self.k,
            forall|a: u32, b: u32| call_requires(*plus, (a, b)),
        ensures
            final(out)@.len() == old(out)@.len(),
            sc_decoded(*plus, llr@, self.is_frozen@, final(out)@),
    {
        let mut words: Vec<u32> = Vec::new();
        let mut i: usize = 0;
        while i < llr.len()
            invariant
                i <= llr@.len(),
                words@ == llr@.take(i as int),
            decreases llr@.len() - i,
        {
            words.push(llr[i]);
            assert(llr@.take(i + 1) =~= llr@.take(i as int).push(llr@[i as int]));
            i = i + 1;
        }
        assert(llr@.take(i as int) =~= llr@);
        let (u, _x) = sc_decode_recursive(&words, &self.is_frozen, 0, plus);
        assert(self.is_frozen@.subrange(0, self.n as int) =~= self.is_frozen@);
        let info: Vec<u8> = gather(&self.is_frozen, &u);
        proof {
            lemma_gathered_len(self.is_frozen@, u@, self.n as int);
        }
        crate::slices::copy_into(&info, 0, out);
        assert(info@.skip(0) =~= info@);
    }

    /// Index of the path chosen.
    fn choose_path(&self, paths: &Vec<ScPath>) -> (c: usize)
        requires
            self.wf(),
            paths@.len() >= 1,
            forall|i: int|
                0 <= i < paths@.len() ==> (#[trigger] paths@[i]).decoded@.len() == self.n,
        ensures
            c < paths@.len(),
            is_chosen(self.crc_kind(), self.is_frozen@, path_views(paths@), c as int),
    {
        match &self.crc {
            None => 0,
            Some(engine) => {
                let ghost kind = engine.view_kind();
                let mut i: usize = 0;
                while i < paths.len()
                    invariant
                        i <= paths@.len(),
                        engine.wf(),
                        kind == engine.view_kind(),
                        self.is_frozen@.len() == self.n,
                        forall|j: int|
                            0 <= j < paths@.len() ==> (#[trigger] paths@[j]).decoded@.len()
                                == self.n,
                        forall|j: int|
                            0 <= j < i ==> !passes(
                                kind,
                                self.is_frozen@,
                                #[trigger] path_views(paths@)[j],
                            ),
                        self.crc_kind() == Some(kind),
                    decreases paths@.len() - i,
                {
                    let info: Vec<u8> = gather(&self.is_frozen, &paths[i].decoded);
                    assert(path_views(paths@)[i as int].decoded == paths@[i as int].decoded@);
                    if engine.check(info.as_slice()) {
                        return i;
                    }
                    i = i + 1;
                }
                0
            },
        }
    }

    /// Decodes with a list of paths.
    pub fn decode_scl<F: Fn(u32, u32) -> u32>(
        &self,
        llr: &[u32],
        out: &mut [u8],
        plus: &F,
    ) -> (r: Result<(), FecError>)
        requires
            self.wf(),
            forall|a: u32, b: u32| call_requires(*plus, (a, b)),
        ensures
            final(out)@.len() == old(out)@.len(),
            self.scl_result(*plus, llr@, old(out)@, final(out)@, r),
    {
        if llr.len() != self.n {
            return Err(FecError::BufferTooSmall { required: self.n, provided: llr.len() });
        }
        if out.len() != self.k {
            return Err(FecError::BufferTooSmall { required: self.k, provided: out.len() });
        }
        if !all_finite(llr) {
            return Err(
                FecError::InvalidParam("polar decode_scl: llr contains NaN or infinite value"),
            );
        }
        if self.list_size == 1 {
            self.write_sc(llr, out, plus);
            return Ok(());
        }
        let paths: Vec<ScPath> = scl_decode(llr, &self.is_frozen, self.list_size, plus);
        let chosen: usize = self.choose_path(&paths);
        let info: Vec<u8> = gather(&self.is_frozen, &paths[chosen].decoded);
        proof {
            lemma_gathered_len(
                self.is_frozen@,
                paths@[chosen as int].decoded@,
                self.n as int,
            );
            assert(path_views(paths@)[chosen as int].decoded == paths@[chosen as int].decoded@);
        }
        crate::slices::copy_into(&info, 0, out);
        assert(info@.skip(0) =~= info@);
        Ok(())
    }
}

/// Over likelihoods that all decide for the bits sent, successive
/// cancellation gives the information back.
pub proof fn lemma_sc_roundtrip<F: Fn(u32, u32) -> u32>(
    plus: F,
    frozen: Seq<bool>,
    info: Seq<u8>,
    llr: Seq<u32>,
    out: Seq<u8>,
)
    requires
        is_power(frozen.len() as int),
        free_below(frozen, frozen.len() as int) == info.len(),
        keeps_sign(plus),
        all_decide(llr, polar(placed(frozen, info))),
        sc_decoded(plus, llr, frozen, out),
    ensures
        out == low_bits(info),
{
    let v = placed(frozen, info);
    lemma_placed(frozen, info);
    let u = choose|u: Seq<u8>| #[trigger]
        sc_decides(plus, llr, frozen, u) && out == gathered(frozen, u, frozen.len() as int);
    lemma_sc_noiseless(plus, llr, frozen, v, u);
    lemma_gather_placed(frozen, info);
}

/// Over likelihoods that all decide for the bits sent, the list decoder gives
/// the information back; with a check, where the information passes it.
pub proof fn lemma_scl_roundtrip<F: Fn(u32, u32) -> u32>(
    plus: F,
    frozen: Seq<bool>,
    size: nat,
    crc: Option<CrcKind>,
    info: Seq<u8>,
    llr: Seq<u32>,
    out: Seq<u8>,
)
    requires
        is_power(frozen.len() as int),
        free_below(frozen, frozen.len() as int) == info.len(),
        size >= 1,
        keeps_sign(plus),
        sums_costs(plus),
        all_decide(llr, polar(placed(frozen, info))),
        crc is Some ==> checks(crc.unwrap(), low_bits(info)),
        scl_decoded(plus, llr, frozen, size, crc, out),
    ensures
        out == low_bits(info),
{
    let v = placed(frozen, info);
    lemma_placed(frozen, info);
    lemma_gather_placed(frozen, info);
    let (paths, i) = choose|paths: Seq<PathView>, i: int|
        #![trigger scl_decides(plus, frozen, size, first_list(llr), paths), paths[i]]
        {
            &&& scl_decides(plus, frozen, size, first_list(llr), paths)
            &&& 0 <= i < paths.len()
            &&& is_chosen(crc, frozen, paths, i)
            &&& out == gathered(frozen, paths[i].decoded, frozen.len() as int)
        };
    let start = first_list(llr);
    let truths = seq![polar(v)];
    assert(start[0].levels[0] == llr);
    assert(leads(start, Seq::empty(), truths));
    lemma_scl_noiseless(plus, frozen, size, start, paths, Seq::empty(), truths, v);
    assert(Seq::<u8>::empty() + v =~= v);
    assert(paths[0].decoded == v);
    if crc is Some {
        assert(passes(crc.unwrap(), frozen, paths[0]));
    }
}

/// The encoder and the decoder of one length and number of information bits
/// freeze the same positions.
pub proof fn lemma_one_mask(enc: PolarEncoder, dec: PolarDecoder)
    requires
        enc.wf(),
        dec.wf(),
        enc.length() == dec.length(),
        enc.dimension() == dec.dimension(),
    ensures
        enc.frozen() == dec.frozen(),
{
    dec.lemma_wf();
    lemma_mask_unique(enc.length(), enc.dimension(), enc.frozen(), dec.frozen());
}

/// Successive cancellation undoes encoding: over finite likelihoods that all
/// decide for the bits of the codeword, it succeeds and gives the information
/// back.
pub proof fn lemma_sc_undoes_encoding<F: Fn(u32, u32) -> u32>(
    plus: F,
    enc: PolarEncoder,
    dec: PolarDecoder,
    info: Seq<u8>,
    llr: Seq<u32>,
    before: Seq<u8>,
    after: Seq<u8>,
    r: Result<(), FecError>,
)
    requires
        enc.wf(),
        dec.wf(),
        enc.length() == dec.length(),
        enc.dimension() == dec.dimension(),
        info.len() == enc.dimension(),
        before.len() == dec.dimension(),
        keeps_sign(plus),
        all_are_finite(llr),
        all_decide(llr, polar(placed(enc.frozen(), info))),
        dec.sc_result(plus, llr, before, after, r),
    ensures
        r is Ok,
        after == low_bits(info),
        is_bits(info) ==> after == info,
{
    lemma_one_mask(enc, dec);
    lemma_polar_len(placed(enc.frozen(), info));
    lemma_sc_roundtrip(plus, enc.frozen(), info, llr, after);
    if is_bits(info) {
        lemma_low_bits(info);
    }
}

/// List decoding undoes encoding: over finite likelihoods that all decide for
/// the bits of the codeword, it succeeds and gives the information back; with
/// a check, where the information passes it.
pub proof fn lemma_scl_undoes_encoding<F: Fn(u32, u32) -> u32>(
    plus: F,
    enc: PolarEncoder,
    dec: PolarDecoder,
    info: Seq<u8>,
    llr: Seq<u32>,
    before: Seq<u8>,
    after: Seq<u8>,
    r: Result<(), FecError>,
)
    requires
        enc.wf(),
        dec.wf(),
        enc.length() == dec.length(),
        enc.dimension() == dec.dimension(),
        info.len() == enc.dimension(),
        before.len() == dec.dimension(),
        keeps_sign(plus),
        sums_costs(plus),
        all_are_finite(llr),
        all_decide(llr, polar(placed(enc.frozen(), info))),
        dec.crc_kind() is Some ==> checks(dec.crc_kind().unwrap(), low_bits(info)),
        dec.scl_result(plus, llr, before, after, r),
    ensures
        r is Ok,
        after == low_bits(info),
        is_bits(info) ==> after == info,
{
    lemma_one_mask(enc, dec);
    dec.lemma_wf();
    lemma_polar_len(placed(enc.frozen(), info));
    if dec.paths() == 1 {
        lemma_sc_roundtrip(plus, enc.frozen(), info, llr, after);
    } else {
        lemma_scl_roundtrip(
            plus,
            enc.frozen(),
            dec.paths(),
            dec.crc_kind(),
            info,
            llr,
            after,
        );
    }
    if is_bits(info) {
        lemma_low_bits(info);
    }
}

/// The lengths that a code can have are the powers of two.
pub proof fn lemma_is_power(n: int)
    ensures
        is_power(n) <==> exists|m: nat| n == #[trigger] pow2(m),
    decreases n,
{
    vstd::arithmetic::power2::lemma2_to64();
    if n > 1 && n % 2 == 0 {
        lemma_is_power(n / 2);
        if is_power(n) {
            let m = choose|m: nat| n / 2 == #[trigger] pow2(m);
            vstd::arithmetic::power2::lemma_pow2_unfold(m + 1);
            assert(n == pow2(m + 1));
        }
        if exists|m: nat| n == #[trigger] pow2(m) {
            let m = choose|m: nat| n == #[trigger] pow2(m);
            assert(m > 0);
            vstd::arithmetic::power2::lemma_pow2_unfold(m);
            assert(n / 2 == pow2((m - 1) as nat));
        }
    } else if n == 1 {
        assert(n == pow2(0));
    } else {
        assert forall|m: nat| n != #[trigger] pow2(m) by {
            vstd::arithmetic::power2::lemma_pow2_pos(m);
            if m > 0 {
                vstd::arithmetic::power2::lemma_pow2_unfold(m);
            }
        }
    }
}

} // verus!
