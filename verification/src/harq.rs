//! The buffer in which a receiver combines the likelihoods of repeated
//! transmissions of a code block.
//!
//! Likelihoods are single-precision bit patterns. The scattering of a
//! transmission over the buffer is a function that the caller hands in.

use vstd::prelude::*;

use crate::error::FecError;
use crate::qc_ldpc::BaseGraph;

verus! {

/// Column blocks of the circular buffer of a base graph.
pub open spec fn buffer_blocks(bg: BaseGraph) -> nat {
    match bg {
        BaseGraph::Bg1 => 66,
        BaseGraph::Bg2 => 50,
    }
}

/// A buffer with nothing received.
pub open spec fn silent(n: nat) -> Seq<u32> {
    Seq::new(n, |i: int| 0u32)
}

/// The combined likelihoods of the transmissions of one code block.
pub struct HarqBuffer {
    bg: BaseGraph,
    z: usize,
    n_filler: usize,
    acc: Vec<u32>,
    tx_count: usize,
}

fn zeros(n: usize) -> (v: Vec<u32>)
    ensures
        v@ == silent(n as nat),
{
    let mut v: Vec<u32> = Vec::new();
    let mut i: usize = 0;
    while i < n
        invariant
            i <= n,
            v@ == silent(i as nat),
        decreases n - i,
    {
        v.push(0);
        i = i + 1;
        assert(v@ =~= silent(i as nat));
    }
    v
}

impl HarqBuffer {
    /// The base graph.
    pub closed spec fn graph(&self) -> BaseGraph {
        self.bg
    }

    /// The lifting size.
    pub closed spec fn lifting_size(&self) -> usize {
        self.z
    }

    /// The number of filler bits.
    pub closed spec fn fillers(&self) -> usize {
        self.n_filler
    }

    /// The combined likelihoods.
    pub closed spec fn combined(&self) -> Seq<u32> {
        self.acc@
    }

    /// The number of transmissions combined.
    pub closed spec fn transmissions(&self) -> usize {
        self.tx_count
    }

    /// The buffer has the length that its base graph and lifting size give.
    pub open spec fn wf(&self) -> bool {
        self.combined().len() == buffer_blocks(self.graph()) * self.lifting_size()
    }

    /// An empty buffer without filler bits.
    pub fn new(bg: BaseGraph, z: usize) -> (h: HarqBuffer)
        requires
            buffer_blocks(bg) * z <= usize::MAX,
        ensures
            h.wf(),
            h.graph() == bg,
            h.lifting_size() == z,
            h.fillers() == 0,
            h.combined() == silent((buffer_blocks(bg) * z) as nat),
            h.transmissions() == 0,
    {
        HarqBuffer::with_filler(bg, z, 0)
    }

    /// An empty buffer with filler bits.
    pub fn with_filler(bg: BaseGraph, z: usize, n_filler: usize) -> (h: HarqBuffer)
        requires
            buffer_blocks(bg) * z <= usize::MAX,
        ensures
            h.wf(),
            h.graph() == bg,
            h.lifting_size() == z,
            h.fillers() == n_filler,
            h.combined() == silent((buffer_blocks(bg) * z) as nat),
            h.transmissions() == 0,
    {
        let blocks: usize = match bg {
            BaseGraph::Bg1 => 66,
            BaseGraph::Bg2 => 50,
        };
        let acc: Vec<u32> = zeros(blocks * z);
        HarqBuffer { bg, z, n_filler, acc, tx_count: 0 }
    }

    /// Length of the circular buffer.
    pub fn ncb(&self) -> (n: usize)
        requires
            self.wf(),
        ensures
            n == buffer_blocks(self.graph()) * self.lifting_size(),
    {
        self.acc.len()
    }

    /// The number of transmissions combined.
    pub fn tx_count(&self) -> (n: usize)
        ensures
            n == self.transmissions(),
    {
        self.tx_count
    }

    /// The filler count of a transmission: the override, unless it is zero.
    pub open spec fn fillers_of(&self, n_filler_override: usize) -> usize {
        if n_filler_override > 0 {
            n_filler_override
        } else {
            self.fillers()
        }
    }

    /// Combines a transmission. `dematch` takes the received likelihoods, the
    /// buffer, the redundancy version, the modulation order, the base graph,
    /// the lifting size and the filler count, and gives the new buffer. An
    /// error leaves everything as it was.
    pub fn combine<
        F: Fn(&[u32], &Vec<u32>, usize, usize, BaseGraph, usize, usize) -> Result<
            Vec<u32>,
            FecError,
        >,
    >(
        &mut self,
        e_llr: &[u32],
        rv: usize,
        qm: usize,
        n_filler_override: usize,
        dematch: &F,
    ) -> (r: Result<(), FecError>)
        requires
            old(self).wf(),
            old(self).transmissions() < usize::MAX,
            forall|e: &[u32], a: &Vec<u32>, v: usize, q: usize, b: BaseGraph, z: usize, f: usize|
                call_requires(*dematch, (e, a, v, q, b, z, f)),
            forall|
                e: &[u32],
                a: &Vec<u32>,
                v: usize,
                q: usize,
                b: BaseGraph,
                z: usize,
                f: usize,
                o: Vec<u32>,
            |
                call_ensures(*dematch, (e, a, v, q, b, z, f), Ok(o)) ==> o@.len() == a@.len(),
        ensures
            final(self).wf(),
            final(self).graph() == old(self).graph(),
            final(self).lifting_size() == old(self).lifting_size(),
            final(self).fillers() == old(self).fillers(),
            old(self).lifting_size() == 0 ==> r == Err::<(), _>(
                FecError::InvalidParam("lifting size must be positive"),
            ),
            r is Err ==> *final(self) == *old(self),
            r is Ok ==> final(self).transmissions() == old(self).transmissions() + 1,
            old(self).lifting_size() > 0 ==> exists|a: Vec<u32>, o: Result<Vec<u32>, FecError>|
                {
                    &&& a@ == old(self).combined()
                    &&& #[trigger] call_ensures(
                        *dematch,
                        (
                            e_llr,
                            &a,
                            rv,
                            qm,
                            old(self).graph(),
                            old(self).lifting_size(),
                            old(self).fillers_of(n_filler_override),
                        ),
                        o,
                    )
                    &&& match o {
                        Ok(v) => r is Ok && final(self).combined() == v@,
                        Err(e) => r == Err::<(), _>(e),
                    }
                },
    {
        if self.z == 0 {
            return Err(FecError::InvalidParam("lifting size must be positive"));
        }
        let fillers: usize = if n_filler_override > 0 {
            n_filler_override
        } else {
            self.n_filler
        };
        let ghost before = self.acc;
        let o: Result<Vec<u32>, FecError> = dematch(
            e_llr,
            &self.acc,
            rv,
            qm,
            self.bg,
            self.z,
            fillers,
        );
        assert(before@ == old(self).combined());
        assert(call_ensures(
            *dematch,
            (
                e_llr,
                &before,
                rv,
                qm,
                old(self).graph(),
                old(self).lifting_size(),
                old(self).fillers_of(n_filler_override),
            ),
            o,
        ));
        match o {
            Ok(v) => {
                self.acc = v;
                self.tx_count = self.tx_count + 1;
                Ok(())
            },
            Err(e) => Err(e),
        }
    }

    /// The combined likelihoods.
    pub fn llr_buffer(&self) -> (v: &Vec<u32>)
        ensures
            v@ == self.combined(),
    {
        &self.acc
    }

    /// Copies the combined likelihoods to the start of `dst`.
    pub fn copy_llr_into(&self, dst: &mut [u32]) -> (r: Result<(), FecError>)
        ensures
            final(dst)@.len() == old(dst)@.len(),
            match r {
                Ok(_) => {
                    &&& old(dst)@.len() >= self.combined().len()
                    &&& final(dst)@ == self.combined() + old(dst)@.skip(
                        self.combined().len() as int,
                    )
                },
                Err(e) => {
                    &&& old(dst)@.len() < self.combined().len()
                    &&& final(dst)@ == old(dst)@
                    &&& e == FecError::BufferTooSmall {
                        required: self.combined().len() as usize,
                        provided: old(dst)@.len() as usize,
                    }
                },
            },
    {
        let n: usize = self.acc.len();
        if dst.len() < n {
            return Err(FecError::BufferTooSmall { required: n, provided: dst.len() });
        }
        let ghost before = dst@;
        let mut i: usize = 0;
        while i < n
            invariant
                i <= n,
                n == self.acc@.len(),
                n <= before.len(),
                dst@ == self.acc@.take(i as int) + before.skip(i as int),
            decreases n - i,
        {
            dst[i] = self.acc[i];
            i = i + 1;
            assert(dst@ =~= self.acc@.take(i as int) + before.skip(i as int));
        }
        assert(self.acc@.take(n as int) =~= self.acc@);
        Ok(())
    }

    /// Forgets every transmission.
    pub fn flush(&mut self)
        requires
            old(self).wf(),
        ensures
            final(self).wf(),
            final(self).graph() == old(self).graph(),
            final(self).lifting_size() == old(self).lifting_size(),
            final(self).fillers() == old(self).fillers(),
            final(self).combined() == silent(old(self).combined().len()),
            final(self).transmissions() == 0,
    {
        let n: usize = self.acc.len();
        self.acc = zeros(n);
        self.tx_count = 0;
    }
}

/// The circular buffer holds all of a codeword but its first two column
/// blocks, which are never sent.
pub proof fn lemma_buffer_blocks(bg: BaseGraph)
    ensures
        buffer_blocks(bg) + 2 == crate::qc_ldpc::col_blocks(bg),
{
}

} // verus!
