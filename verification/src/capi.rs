//! What the foreign interface to the LDPC codec decides: the status of each
//! call, and what the calls do between their checks.
//!
//! Pointers stay outside: a caller says which of them were given.

use vstd::prelude::*;

use crate::bits::{is_bits, lemma_low_bits};
use crate::error::FecError;
use crate::ldpc_decoder::{cleared, hard_bits, min_sum_decoded, QcLdpcDecoder};
use crate::qc_ldpc::{
    col_blocks, encoded, info_blocks, is_lifting_size, lifted, BaseGraph, BaseGraphTable,
    QcLdpcEncoder,
};

verus! {

/// The status of a call.
#[derive(Clone, Copy, Debug, PartialEq, Eq, Structural)]
pub enum SyndromeStatus {
    /// Success.
    Success,
    /// A parameter lies outside its valid range.
    InvalidParam,
    /// A check sum does not match.
    CrcMismatch,
    /// The decoder found no codeword.
    DecoderNotConverged,
    /// A buffer is too short.
    BufferTooSmall,
    /// A pointer was not given.
    NullPointer,
    /// The call was abandoned.
    Panic,
}

impl SyndromeStatus {
    /// The number that stands for a status.
    pub open spec fn number(&self) -> i32 {
        (match self {
            SyndromeStatus::Success => 0,
            SyndromeStatus::InvalidParam => -1,
            SyndromeStatus::CrcMismatch => -2,
            SyndromeStatus::DecoderNotConverged => -3,
            SyndromeStatus::BufferTooSmall => -4,
            SyndromeStatus::NullPointer => -5,
            SyndromeStatus::Panic => -6,
        }) as i32
    }

    /// The number that stands for a status.
    pub fn code(&self) -> (n: i32)
        ensures
            n == self.number(),
    {
        match self {
            SyndromeStatus::Success => 0,
            SyndromeStatus::InvalidParam => -1,
            SyndromeStatus::CrcMismatch => -2,
            SyndromeStatus::DecoderNotConverged => -3,
            SyndromeStatus::BufferTooSmall => -4,
            SyndromeStatus::NullPointer => -5,
            SyndromeStatus::Panic => -6,
        }
    }
}

/// Different statuses have different numbers, and only success has zero.
pub proof fn lemma_numbers_distinct(a: SyndromeStatus, b: SyndromeStatus)
    ensures
        a.number() == b.number() <==> a == b,
        a.number() == 0 <==> a == SyndromeStatus::Success,
{
}

/// The status of an error.
pub open spec fn status_of(e: FecError) -> SyndromeStatus {
    match e {
        FecError::InvalidParam(_) => SyndromeStatus::InvalidParam,
        FecError::CrcMismatch => SyndromeStatus::CrcMismatch,
        FecError::DecoderNotConverged => SyndromeStatus::DecoderNotConverged,
        FecError::BufferTooSmall { .. } => SyndromeStatus::BufferTooSmall,
    }
}

impl From<FecError> for SyndromeStatus {
    fn from(e: FecError) -> (s: SyndromeStatus) {
        match e {
            FecError::InvalidParam(_) => SyndromeStatus::InvalidParam,
            FecError::CrcMismatch => SyndromeStatus::CrcMismatch,
            FecError::DecoderNotConverged => SyndromeStatus::DecoderNotConverged,
            FecError::BufferTooSmall { .. } => SyndromeStatus::BufferTooSmall,
        }
    }
}

impl vstd::std_specs::convert::FromSpecImpl<FecError> for SyndromeStatus {
    open spec fn obeys_from_spec() -> bool {
        true
    }

    open spec fn from_spec(e: FecError) -> SyndromeStatus {
        status_of(e)
    }
}

/// The base graph that a number selects.
pub fn base_graph_from_i32(bg: i32) -> (r: Result<BaseGraph, SyndromeStatus>)
    ensures
        r == (if bg == 0 {
            Ok(BaseGraph::Bg1)
        } else if bg == 1 {
            Ok(BaseGraph::Bg2)
        } else {
            Err(SyndromeStatus::InvalidParam)
        }),
{
    if bg == 0 {
        Ok(BaseGraph::Bg1)
    } else if bg == 1 {
        Ok(BaseGraph::Bg2)
    } else {
        Err(SyndromeStatus::InvalidParam)
    }
}

/// The status that missing pointers give: success where all were given.
pub fn pointer_status(given: &[bool]) -> (s: SyndromeStatus)
    ensures
        s == (if forall|i: int| 0 <= i < given@.len() ==> #[trigger] given@[i] {
            SyndromeStatus::Success
        } else {
            SyndromeStatus::NullPointer
        }),
{
    let mut i: usize = 0;
    while i < given.len()
        invariant
            i <= given@.len(),
            forall|k: int| 0 <= k < i ==> #[trigger] given@[k],
        decreases given@.len() - i,
    {
        if !given[i] {
            return SyndromeStatus::NullPointer;
        }
        i = i + 1;
    }
    SyndromeStatus::Success
}

/// The two base graphs' tables.
pub struct BaseGraphTables {
    pub bg1: BaseGraphTable,
    pub bg2: BaseGraphTable,
}

impl BaseGraphTables {
    /// The table of a base graph.
    pub open spec fn table_of(&self, bg: BaseGraph) -> BaseGraphTable {
        match bg {
            BaseGraph::Bg1 => self.bg1,
            BaseGraph::Bg2 => self.bg2,
        }
    }

    /// Each table is that of its base graph.
    pub open spec fn wf(&self) -> bool {
        &&& self.bg1.wf()
        &&& self.bg2.wf()
        &&& self.bg1.graph() == BaseGraph::Bg1
        &&& self.bg2.graph() == BaseGraph::Bg2
        &&& self.bg1.entries().len() * 17664 <= usize::MAX
        &&& self.bg2.entries().len() * 17664 <= usize::MAX
    }

    /// The table of a base graph.
    pub fn table(&self, bg: BaseGraph) -> (t: &BaseGraphTable)
        ensures
            *t == self.table_of(bg),
    {
        match bg {
            BaseGraph::Bg1 => &self.bg1,
            BaseGraph::Bg2 => &self.bg2,
        }
    }
}

/// A decoder behind a handle.
pub struct SyndromeLdpcDecoder {
    decoder: QcLdpcDecoder,
}

/// The status of creating a decoder or an encoder, as far as the base graph
/// and the lifting size decide it.
pub open spec fn selection_status(base_graph: i32, z: usize) -> SyndromeStatus {
    if base_graph != 0 && base_graph != 1 {
        SyndromeStatus::InvalidParam
    } else if !is_lifting_size(z as int) {
        SyndromeStatus::InvalidParam
    } else {
        SyndromeStatus::Success
    }
}

/// The base graph of a valid number.
pub open spec fn selected(base_graph: i32) -> BaseGraph {
    if base_graph == 0 {
        BaseGraph::Bg1
    } else {
        BaseGraph::Bg2
    }
}

impl SyndromeLdpcDecoder {
    /// The decoder.
    pub closed spec fn inner(&self) -> QcLdpcDecoder {
        self.decoder
    }

    /// The decoder is in order.
    pub open spec fn wf(&self) -> bool {
        self.inner().wf()
    }

    /// Creates a decoder.
    pub fn create(tables: &BaseGraphTables, base_graph: i32, z: usize, offset_beta: u32) -> (r:
        Result<SyndromeLdpcDecoder, SyndromeStatus>)
        requires
            tables.wf(),
        ensures
            match r {
                Ok(d) => {
                    &&& selection_status(base_graph, z) == SyndromeStatus::Success
                    &&& d.wf()
                    &&& d.inner().offset() == offset_beta
                    &&& lifted(tables.table_of(selected(base_graph)), z, d.inner().params())
                },
                Err(s) => s == selection_status(base_graph, z) && s != SyndromeStatus::Success,
            },
    {
        match base_graph_from_i32(base_graph) {
            Err(s) => Err(s),
            Ok(bg) => match QcLdpcDecoder::with_lifting_size(tables.table(bg), z, offset_beta) {
                Ok(decoder) => Ok(SyndromeLdpcDecoder { decoder }),
                Err(e) => Err(SyndromeStatus::from(e)),
            },
        }
    }

    /// Number of likelihoods.
    pub fn variable_node_count(&self) -> (n: usize)
        requires
            self.wf(),
        ensures
            n == self.inner().params().num_col_blocks * self.inner().params().z,
    {
        self.decoder.variable_node_count()
    }

    /// Number of information bits.
    pub fn info_bit_count(&self) -> (n: usize)
        requires
            self.wf(),
        ensures
            n == (self.inner().params().num_col_blocks - self.inner().params().num_row_blocks)
                * self.inner().params().z,
    {
        self.decoder.info_bit_count_5g()
    }

    /// Entries of the buffer for the messages of all edges.
    pub fn required_edge_buffer(&self) -> (n: usize)
        requires
            self.wf(),
        ensures
            n == self.inner().edge_entries(),
    {
        self.decoder.required_edge_buffer()
    }

    /// Entries of the buffer for the messages of one row block.
    pub fn required_layer_buffer(&self) -> (n: usize)
        requires
            self.wf(),
        ensures
            n == self.inner().layer_entries(),
    {
        self.decoder.required_layer_buffer()
    }

    /// The status that the lengths of the buffers give: too short, where one
    /// is shorter than required; else invalid, where the likelihoods or the
    /// decisions are longer.
    pub open spec fn length_status(
        &self,
        llr: nat,
        edge_r: nat,
        scratch: nat,
        hard: nat,
    ) -> SyndromeStatus {
        let d = self.inner();
        let n = d.params().num_col_blocks * d.params().z;
        if llr < n || hard < n || edge_r < d.edge_entries() || scratch < d.layer_entries() {
            SyndromeStatus::BufferTooSmall
        } else if llr != n || hard != n {
            SyndromeStatus::InvalidParam
        } else {
            SyndromeStatus::Success
        }
    }

    /// Decodes, and returns the status and, on success, the number of passes.
    /// Buffers of the right lengths are decoded in any case; where the
    /// decisions then still violate a check, all the passes were run, and the
    /// status says that the decoder did not converge.
    pub fn decode_5g<F: Fn(u32, u32) -> u32>(
        &self,
        llr: &mut [u32],
        n_filler: usize,
        edge_r: &mut [u32],
        layer_scratch: &mut [u32],
        hard_output: &mut [u8],
        iterations: usize,
        plus: &F,
    ) -> (r: (SyndromeStatus, Option<usize>))
        requires
            self.wf(),
            forall|a: u32, b: u32| call_requires(*plus, (a, b)),
        ensures
            final(llr)@.len() == old(llr)@.len(),
            final(edge_r)@.len() == old(edge_r)@.len(),
            final(layer_scratch)@.len() == old(layer_scratch)@.len(),
            final(hard_output)@.len() == old(hard_output)@.len(),
            ({
                let d = self.inner();
                let lengths = self.length_status(
                    old(llr)@.len(),
                    old(edge_r)@.len(),
                    old(layer_scratch)@.len(),
                    old(hard_output)@.len(),
                );
                if lengths != SyndromeStatus::Success {
                    &&& r == (lengths, None::<usize>)
                    &&& final(hard_output)@ == old(hard_output)@
                } else {
                    &&& r.0 == (if d.params().satisfied(final(hard_output)@) {
                        SyndromeStatus::Success
                    } else {
                        SyndromeStatus::DecoderNotConverged
                    })
                    &&& r.1 is Some <==> r.0 == SyndromeStatus::Success
                    &&& min_sum_decoded(
                        *plus,
                        d.params(),
                        d.offset(),
                        iterations as nat,
                        d.start_5g(old(llr)@, n_filler as int),
                        cleared(old(edge_r)@, d.edge_entries()),
                        match r.1 {
                            Some(used) => used as nat,
                            None => iterations as nat,
                        },
                        final(llr)@,
                        final(edge_r)@,
                    )
                    &&& final(hard_output)@ == hard_bits(final(llr)@)
                }
            }),
    {
        let n: usize = self.decoder.variable_node_count();
        if llr.len() < n || hard_output.len() < n || edge_r.len()
            < self.decoder.required_edge_buffer() || layer_scratch.len()
            < self.decoder.required_layer_buffer() {
            return (SyndromeStatus::BufferTooSmall, None);
        }
        match self.decoder.decode_5g(
            llr,
            n_filler,
            edge_r,
            layer_scratch,
            hard_output,
            iterations,
            plus,
        ) {
            Ok(used) => {
                proof {
                    assert(is_bits(hard_output@));
                    lemma_low_bits(hard_output@);
                }
                if self.decoder.parameters().check_syndrome(hard_output) {
                    (SyndromeStatus::Success, Some(used))
                } else {
                    (SyndromeStatus::DecoderNotConverged, None)
                }
            },
            Err(e) => (SyndromeStatus::from(e), None),
        }
    }
}

/// An encoder behind a handle.
pub struct SyndromeLdpcEncoder {
    encoder: QcLdpcEncoder,
}

impl SyndromeLdpcEncoder {
    /// The encoder.
    pub closed spec fn inner(&self) -> QcLdpcEncoder {
        self.encoder
    }

    /// The encoder is in order.
    pub open spec fn wf(&self) -> bool {
        self.inner().wf()
    }

    /// Creates an encoder. Beside an unknown base graph and a size that is no
    /// lifting size, only a base graph whose parity is ambiguous is refused.
    pub fn create(tables: &BaseGraphTables, base_graph: i32, z: usize) -> (r: Result<
        SyndromeLdpcEncoder,
        SyndromeStatus,
    >)
        requires
            tables.wf(),
        ensures
            match r {
                Ok(e) => {
                    &&& selection_status(base_graph, z) == SyndromeStatus::Success
                    &&& e.wf()
                    &&& lifted(tables.table_of(selected(base_graph)), z, e.inner().params())
                },
                Err(s) => {
                    &&& s == SyndromeStatus::InvalidParam
                    &&& selection_status(base_graph, z) == SyndromeStatus::Success ==> exists|
                        p: crate::qc_ldpc::QcLdpcParams,
                    |
                        #[trigger] lifted(tables.table_of(selected(base_graph)), z, p)
                            && crate::ldpc_dense::parity_ambiguous(p)
                },
            },
    {
        match base_graph_from_i32(base_graph) {
            Err(s) => Err(s),
            Ok(bg) => match QcLdpcEncoder::new(tables.table(bg), z) {
                Ok(encoder) => Ok(SyndromeLdpcEncoder { encoder }),
                Err(e) => Err(SyndromeStatus::from(e)),
            },
        }
    }

    /// Number of information bits.
    pub fn info_bit_count(&self) -> (n: usize)
        requires
            self.wf(),
        ensures
            n == info_blocks(self.inner().params().bg) * self.inner().params().z,
    {
        self.encoder.info_bit_count()
    }

    /// Length of a codeword.
    pub fn codeword_bit_count(&self) -> (n: usize)
        requires
            self.wf(),
        ensures
            n == col_blocks(self.inner().params().bg) * self.inner().params().z,
    {
        self.encoder.codeword_bit_count()
    }

    /// Encodes, and returns the status.
    pub fn encode_5g(&self, info_bits: &[u8], n_filler: usize, codeword: &mut [u8]) -> (s:
        SyndromeStatus)
        requires
            self.wf(),
        ensures
            final(codeword)@.len() == old(codeword)@.len(),
            ({
                let p = self.inner().params();
                let k = info_blocks(p.bg) * p.z;
                &&& s == (if n_filler > k {
                    SyndromeStatus::InvalidParam
                } else if info_bits@.len() != k - n_filler || old(codeword)@.len() != col_blocks(
                    p.bg,
                ) * p.z {
                    SyndromeStatus::BufferTooSmall
                } else {
                    SyndromeStatus::Success
                })
                &&& s != SyndromeStatus::Success ==> final(codeword)@ == old(codeword)@
                &&& s == SyndromeStatus::Success ==> encoded(
                    self.inner(),
                    info_bits@ + Seq::new(n_filler as nat, |i: int| 0u8),
                    final(codeword)@,
                )
            }),
    {
        match self.encoder.encode_5g(info_bits, n_filler, codeword) {
            Ok(_) => SyndromeStatus::Success,
            Err(e) => SyndromeStatus::from(e),
        }
    }
}

} // verus!
