//! The check-node rule of min-sum decoding on bit patterns: to each edge the
//! smallest magnitude among the other edges, with the product of their
//! signs.

use crate::soft::{magnitude, negative};
use vstd::prelude::*;

verus! {

/// The largest finite magnitude, from which minima start.
pub const LARGEST: u32 = 0x7F7F_FFFF;

/// Entry of edge `e` in lane `i` of rows of `z` lanes.
pub open spec fn lane(q: Seq<u32>, z: int, i: int, e: int) -> u32 {
    q[e * z + i]
}

/// The smaller of two.
pub open spec fn smaller(a: u32, b: u32) -> u32 {
    if a <= b {
        a
    } else {
        b
    }
}

/// The smallest magnitude in lane `i` among the first `n` edges.
pub open spec fn min_all(q: Seq<u32>, z: int, i: int, n: nat) -> u32
    decreases n,
{
    if n == 0 {
        LARGEST
    } else {
        smaller(min_all(q, z, i, (n - 1) as nat), magnitude(lane(q, z, i, n - 1)))
    }
}

/// The smallest magnitude in lane `i` among the first `n` edges but `e`.
pub open spec fn min_others(q: Seq<u32>, z: int, i: int, e: int, n: nat) -> u32
    decreases n,
{
    if n == 0 {
        LARGEST
    } else if n - 1 == e {
        min_others(q, z, i, e, (n - 1) as nat)
    } else {
        smaller(min_others(q, z, i, e, (n - 1) as nat), magnitude(lane(q, z, i, n - 1)))
    }
}

/// The sign bits of lane `i`, added over the first `n` edges.
pub open spec fn sign_sum(q: Seq<u32>, z: int, i: int, n: nat) -> u32
    decreases n,
{
    if n == 0 {
        0
    } else {
        sign_sum(q, z, i, (n - 1) as nat) ^ (lane(q, z, i, n - 1) & 0x8000_0000)
    }
}

/// The magnitude that edge `e` gets: the smallest of the others; its own
/// where no other one is finite; zero where none is.
pub open spec fn excluded_min(q: Seq<u32>, z: int, i: int, e: int, n: nat) -> u32 {
    let others = min_others(q, z, i, e, n);
    let own = magnitude(lane(q, z, i, e));
    if others < LARGEST {
        others
    } else if own < LARGEST {
        own
    } else {
        0
    }
}

/// The sign that edge `e` gets: the sum of the signs of the others.
pub open spec fn excluded_sign(q: Seq<u32>, z: int, i: int, e: int, n: nat) -> u32 {
    sign_sum(q, z, i, n) ^ (lane(q, z, i, e) & 0x8000_0000)
}

/// The message with a magnitude, or zero where that is below zero.
pub open spec fn message(raw: u32, sign: u32) -> u32 {
    (if negative(raw) {
        0
    } else {
        raw
    }) | sign
}

/// The two smallest magnitudes of a lane, as the scan tracks them.
spec fn tracked_minima(q: Seq<u32>, z: int, i: int, n: nat, m1: u32, m2: u32) -> bool {
    &&& m1 == min_all(q, z, i, n)
    &&& m1 <= m2 <= LARGEST
    &&& forall|e: int|
        0 <= e < n ==> #[trigger] min_others(q, z, i, e, n) == (if magnitude(lane(q, z, i, e)) == m1 {
            m2
        } else {
            m1
        })
}

proof fn lemma_others_above(q: Seq<u32>, z: int, i: int, e: int, n: nat)
    requires
        e >= n,
    ensures
        min_others(q, z, i, e, n) == min_all(q, z, i, n),
    decreases n,
{
    if n > 0 {
        lemma_others_above(q, z, i, e, (n - 1) as nat);
    }
}

/// The smallest magnitude of the others is at most the largest finite one.
pub proof fn lemma_min_others_small(q: Seq<u32>, z: int, i: int, e: int, n: nat)
    ensures
        min_others(q, z, i, e, n) <= LARGEST,
    decreases n,
{
    if n > 0 {
        lemma_min_others_small(q, z, i, e, (n - 1) as nat);
    }
}

proof fn lemma_min_all(q: Seq<u32>, z: int, i: int, e: int, n: nat)
    requires
        0 <= e < n,
    ensures
        min_all(q, z, i, n) <= magnitude(lane(q, z, i, e)),
    decreases n,
{
    if e < n - 1 {
        lemma_min_all(q, z, i, e, (n - 1) as nat);
    }
}

proof fn lemma_track_step(q: Seq<u32>, z: int, i: int, n: nat, m1: u32, m2: u32)
    requires
        tracked_minima(q, z, i, n, m1, m2),
    ensures
        ({
            let a = magnitude(lane(q, z, i, n as int));
            if a <= m1 {
                tracked_minima(q, z, i, n + 1, a, m1)
            } else if a < m2 {
                tracked_minima(q, z, i, n + 1, m1, a)
            } else {
                tracked_minima(q, z, i, n + 1, m1, m2)
            }
        }),
{
    let a = magnitude(lane(q, z, i, n as int));
    let (p1, p2) = if a <= m1 {
        (a, m1)
    } else if a < m2 {
        (m1, a)
    } else {
        (m1, m2)
    };
    assert forall|e: int| 0 <= e < n + 1 implies #[trigger] min_others(q, z, i, e, n + 1) == (
    if magnitude(lane(q, z, i, e)) == p1 {
        p2
    } else {
        p1
    }) by {
        if e == n {
            lemma_others_above(q, z, i, e, n);
        } else {
            lemma_min_all(q, z, i, e, n);
            assert(min_others(q, z, i, e, n) == (if magnitude(lane(q, z, i, e)) == m1 {
                m2
            } else {
                m1
            }));
        }
    }
}

/// Scans lane `i`: the smallest magnitude, the one that the edges holding
/// the smallest get instead, and the sum of the signs.
pub fn scan_lane(q: &[u32], z: usize, degree: usize, i: usize) -> (r: (u32, u32, u32))
    requires
        i < z,
        degree * z <= q@.len(),
    ensures
        r.2 == sign_sum(q@, z as int, i as int, degree as nat),
        forall|e: int|
            0 <= e < degree ==> #[trigger] excluded_min(
                q@,
                z as int,
                i as int,
                e,
                degree as nat,
            ) == (if magnitude(lane(q@, z as int, i as int, e)) == r.0 {
                r.1
            } else {
                r.0
            }),
{
    let total: usize = q.len();
    let mut m1: u32 = LARGEST;
    let mut m2: u32 = LARGEST;
    let mut s: u32 = 0;
    let mut e: usize = 0;
    let mut base: usize = 0;
    assert(tracked_minima(q@, z as int, i as int, 0, m1, m2));
    while e < degree
        invariant
            i < z,
            e <= degree,
            base == e * z,
            degree * z <= total,
            total == q@.len(),
            s == sign_sum(q@, z as int, i as int, e as nat),
            tracked_minima(q@, z as int, i as int, e as nat, m1, m2),
        decreases degree - e,
    {
        proof {
            lemma_row_bound(e as int, degree as int, z as int);
            lemma_track_step(q@, z as int, i as int, e as nat, m1, m2);
        }
        let bits: u32 = q[base + i];
        assert(bits == lane(q@, z as int, i as int, e as int));
        let a: u32 = bits & 0x7FFF_FFFF;
        s = s ^ (bits & 0x8000_0000);
        if a <= m1 {
            m2 = m1;
            m1 = a;
        } else if a < m2 {
            m2 = a;
        }
        base = base + z;
        e = e + 1;
    }
    let first: u32 = if m1 == LARGEST {
        0
    } else {
        m1
    };
    let second: u32 = if m2 == LARGEST {
        first
    } else {
        m2
    };
    proof {
        assert forall|f: int| 0 <= f < degree implies #[trigger] excluded_min(
            q@,
            z as int,
            i as int,
            f,
            degree as nat,
        ) == (if magnitude(lane(q@, z as int, i as int, f)) == first {
            second
        } else {
            first
        }) by {
            lemma_min_all(q@, z as int, i as int, f, degree as nat);
            assert(min_others(q@, z as int, i as int, f, degree as nat) == (if magnitude(
                lane(q@, z as int, i as int, f),
            ) == m1 {
                m2
            } else {
                m1
            }));
        }
    }
    (first, second, s)
}

/// Row `e` of `n` rows of length `z` lies within them, and the next one
/// begins where it ends.
pub proof fn lemma_row_bound(e: int, n: int, z: int)
    requires
        0 <= e < n,
        0 <= z,
    ensures
        0 <= e * z,
        e * z + z <= n * z,
        (e + 1) * z == e * z + z,
{
    assert((e + 1) * z == e * z + z) by (nonlinear_arith);
    assert(0 <= e * z) by (nonlinear_arith)
        requires
            0 <= e,
            0 <= z,
    ;
    assert((e + 1) * z <= n * z) by (nonlinear_arith)
        requires
            e + 1 <= n,
            0 <= z,
    ;
}

} // verus!
