//! Copying between slices and vectors of bytes.

use vstd::prelude::*;

verus! {

/// A vector with the entries of the slice.
pub fn to_vector(s: &[u8]) -> (v: Vec<u8>)
    ensures
        v@ == s@,
{
    let mut v: Vec<u8> = Vec::new();
    let mut i: usize = 0;
    while i < s.len()
        invariant
            i <= s@.len(),
            v@ == s@.take(i as int),
        decreases s@.len() - i,
    {
        v.push(s[i]);
        i = i + 1;
        assert(s@.take(i as int) =~= s@.take(i as int - 1).push(s@[i as int - 1]));
    }
    assert(s@.take(i as int) =~= s@);
    v
}

/// Copies the entries of `from`, from index `start` on, over `to`.
pub fn copy_into(from: &Vec<u8>, start: usize, to: &mut [u8])
    requires
        from@.len() == start + old(to)@.len(),
    ensures
        final(to)@ == from@.skip(start as int),
{
    let total: usize = from.len();
    let mut i: usize = 0;
    while i < to.len()
        invariant
            i <= to@.len(),
            total == from@.len(),
            total == start + to@.len(),
            forall|j: int| 0 <= j < i ==> #[trigger] to@[j] == from@[start + j],
        decreases to@.len() - i,
    {
        to[i] = from[start + i];
        i = i + 1;
    }
    assert(to@ =~= from@.skip(start as int));
}

} // verus!
