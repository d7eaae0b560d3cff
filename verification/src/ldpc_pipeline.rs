//! A pool of frames that a caller fills, a set of workers decode, and the
//! caller collects.
//!
//! The pool says which worker a frame goes to and keeps the frames that wait:
//! for the caller, for a worker, and for collection. Each of its slots is in
//! one place at any time. The workers themselves are the caller's: they take
//! the next frame of their queue, decode it, and hand it back.

use vstd::prelude::*;

use crate::ldpc_decoder::{cleared, hard_bits, min_sum_decoded, QcLdpcDecoder};

verus! {

/// Number of frames in a pool.
pub const POOL_SIZE: usize = 16;

/// The most workers that a pool serves.
pub const MAX_WORKERS: usize = 8;

/// A worker with the fewest frames, the first such when counting from the
/// cursor and around.
pub open spec fn is_pick(outstanding: Seq<usize>, cursor: usize, w: int) -> bool {
    let n = outstanding.len() as int;
    &&& 0 <= w < n
    &&& forall|i: int| 0 <= i < n ==> outstanding[w] <= #[trigger] outstanding[i]
    &&& exists|step: int|
        {
            &&& 0 <= step < n
            &&& w == #[trigger] turned(cursor, step, n)
            &&& forall|s: int|
                0 <= s < step ==> outstanding[w] < outstanding[#[trigger] turned(cursor, s, n)]
        }
}

/// The worker `step` places after the cursor's.
pub open spec fn turned(cursor: usize, step: int, n: int) -> int {
    (cursor as int + step) % n
}

proof fn lemma_turned(cursor: usize, step: int, n: int)
    requires
        n > 0,
        0 <= step < n,
    ensures
        turned(cursor, step, n) == (if cursor as int % n + step < n {
            cursor as int % n + step
        } else {
            cursor as int % n + step - n
        }),
        0 <= turned(cursor, step, n) < n,
{
    let c = cursor as int;
    vstd::arithmetic::div_mod::lemma_fundamental_div_mod(c, n);
    vstd::arithmetic::div_mod::lemma_mod_bound(c, n);
    let q = c / n;
    let m = c % n;
    if m + step < n {
        assert(c + step == q * n + (m + step)) by (nonlinear_arith)
            requires
                c == n * q + m,
        ;
        vstd::arithmetic::div_mod::lemma_fundamental_div_mod_converse(c + step, n, q, m + step);
    } else {
        assert(c + step == (q + 1) * n + (m + step - n)) by (nonlinear_arith)
            requires
                c == n * q + m,
        ;
        vstd::arithmetic::div_mod::lemma_fundamental_div_mod_converse(
            c + step,
            n,
            q + 1,
            m + step - n,
        );
    }
}

/// Every worker is some number of places after the cursor's.
proof fn lemma_turned_covers(cursor: usize, w: int, n: int) -> (step: int)
    requires
        0 <= w < n,
    ensures
        0 <= step < n,
        turned(cursor, step, n) == w,
{
    let m = cursor as int % n;
    vstd::arithmetic::div_mod::lemma_mod_bound(cursor as int, n);
    let step = if m <= w {
        w - m
    } else {
        w - m + n
    };
    lemma_turned(cursor, step, n);
    step
}

/// Only one worker is the pick.
pub proof fn lemma_pick_unique(outstanding: Seq<usize>, cursor: usize, v: int, w: int)
    requires
        is_pick(outstanding, cursor, v),
        is_pick(outstanding, cursor, w),
    ensures
        v == w,
{
    let n = outstanding.len() as int;
    let s = choose|step: int|
        {
            &&& 0 <= step < n
            &&& v == #[trigger] turned(cursor, step, n)
            &&& forall|s: int|
                0 <= s < step ==> outstanding[v] < outstanding[#[trigger] turned(cursor, s, n)]
        };
    let t = choose|step: int|
        {
            &&& 0 <= step < n
            &&& w == #[trigger] turned(cursor, step, n)
            &&& forall|s: int|
                0 <= s < step ==> outstanding[w] < outstanding[#[trigger] turned(cursor, s, n)]
        };
    assert(outstanding[v] <= outstanding[w] && outstanding[w] <= outstanding[v]);
    if s < t {
        assert(outstanding[w] < outstanding[turned(cursor, s, n)]);
    } else if t < s {
        assert(outstanding[v] < outstanding[turned(cursor, t, n)]);
    }
}

/// When all workers have as many frames, the pick rotates with the cursor.
pub proof fn lemma_pick_rotates(outstanding: Seq<usize>, cursor: usize)
    requires
        outstanding.len() > 0,
        forall|i: int| 0 <= i < outstanding.len() ==> #[trigger] outstanding[i] == outstanding[0],
    ensures
        is_pick(outstanding, cursor, cursor as int % outstanding.len() as int),
{
    let n = outstanding.len() as int;
    lemma_turned(cursor, 0, n);
    assert(turned(cursor, 0, n) == cursor as int % n);
}

/// Of the workers with the fewest frames, the pick is the one that the cursor
/// reaches first.
pub proof fn lemma_pick_nearest(outstanding: Seq<usize>, cursor: usize, w: int, v: int)
    requires
        is_pick(outstanding, cursor, w),
        0 <= v < outstanding.len(),
        outstanding[v] <= outstanding[w],
    ensures
        (w - cursor) % outstanding.len() as int <= (v - cursor) % outstanding.len() as int,
{
    let n = outstanding.len() as int;
    let c = cursor as int;
    let t = choose|step: int|
        {
            &&& 0 <= step < n
            &&& w == #[trigger] turned(cursor, step, n)
            &&& forall|s: int|
                0 <= s < step ==> outstanding[w] < outstanding[#[trigger] turned(cursor, s, n)]
        };
    let s = (v - c) % n;
    vstd::arithmetic::div_mod::lemma_mod_bound(v - c, n);
    vstd::arithmetic::div_mod::lemma_sub_mod_noop(c + t, c, n);
    vstd::arithmetic::div_mod::lemma_sub_mod_noop(w, c, n);
    vstd::arithmetic::div_mod::lemma_mod_twice(c + t, n);
    vstd::arithmetic::div_mod::lemma_small_mod(t as nat, n as nat);
    vstd::arithmetic::div_mod::lemma_add_mod_noop(c, v - c, n);
    vstd::arithmetic::div_mod::lemma_add_mod_noop(c, s, n);
    vstd::arithmetic::div_mod::lemma_mod_twice(v - c, n);
    vstd::arithmetic::div_mod::lemma_small_mod(v as nat, n as nat);
    assert(turned(cursor, s, n) == v);
    assert((w - c) % n == t);
    if s < t {
        assert(outstanding[w] < outstanding[turned(cursor, s, n)]);
    }
}

/// What the pick is for: where the numbers of frames of the workers are at
/// most one apart, they still are when the pick gets another.
pub proof fn lemma_pick_balances(outstanding: Seq<usize>, cursor: usize, w: int)
    requires
        is_pick(outstanding, cursor, w),
        outstanding[w] < usize::MAX,
        forall|i: int, j: int|
            0 <= i < outstanding.len() && 0 <= j < outstanding.len() ==> #[trigger] outstanding[i]
                <= #[trigger] outstanding[j] + 1,
    ensures
        ({
            let after = outstanding.update(w, (outstanding[w] + 1) as usize);
            forall|i: int, j: int|
                0 <= i < after.len() && 0 <= j < after.len() ==> #[trigger] after[i]
                    <= #[trigger] after[j] + 1
        }),
{
    let after = outstanding.update(w, (outstanding[w] + 1) as usize);
    assert forall|i: int, j: int| 0 <= i < after.len() && 0 <= j < after.len() implies
        #[trigger] after[i] <= #[trigger] after[j] + 1 by {
        assert(outstanding[i] <= outstanding[j] + 1);
        assert(outstanding[w] <= outstanding[j]);
    }
}

/// The worker that a frame goes to.
pub fn pick_worker(outstanding: &[usize], cursor: usize) -> (w: usize)
    requires
        outstanding@.len() > 0,
    ensures
        is_pick(outstanding@, cursor, w as int),
{
    let n: usize = outstanding.len();
    let ghost loads = outstanding@;
    let first: usize = cursor % n;
    let mut best: usize = first;
    let mut best_step: usize = 0;
    let mut step: usize = 1;
    proof {
        lemma_turned(cursor, 0, n as int);
    }
    while step < n
        invariant
            1 <= step <= n,
            n == outstanding@.len(),
            loads == outstanding@,
            first == cursor as int % n as int,
            best_step < step,
            best == turned(cursor, best_step as int, n as int),
            best < n,
            forall|s: int|
                0 <= s < best_step ==> loads[best as int] < loads[#[trigger] turned(
                    cursor,
                    s,
                    n as int,
                )],
            forall|s: int|
                0 <= s < step ==> loads[best as int] <= loads[#[trigger] turned(
                    cursor,
                    s,
                    n as int,
                )],
        decreases n - step,
    {
        let w: usize = if step < n - first {
            first + step
        } else {
            step - (n - first)
        };
        proof {
            lemma_turned(cursor, step as int, n as int);
        }
        if outstanding[w] < outstanding[best] {
            best = w;
            best_step = step;
        }
        step = step + 1;
    }
    proof {
        assert forall|i: int| 0 <= i < n implies loads[best as int] <= #[trigger] loads[i] by {
            let s = lemma_turned_covers(cursor, i, n as int);
            assert(loads[best as int] <= loads[turned(cursor, s, n as int)]);
        }
    }
    best
}

/// Number of workers for a number asked for.
pub open spec fn workers_for(n: usize) -> usize {
    if n < 1 {
        1
    } else if n > MAX_WORKERS {
        MAX_WORKERS
    } else {
        n
    }
}

/// A frame of a pool: its slot, its buffers, the number of passes that its
/// decoding took, and a tag of the caller's.
pub struct LdpcFrame {
    slot: usize,
    llr: Vec<u32>,
    edge_r: Vec<u32>,
    scratch: Vec<u32>,
    hard: Vec<u8>,
    iterations_used: usize,
    tag: usize,
}

fn filled<T: Copy>(n: usize, x: T) -> (v: Vec<T>)
    ensures
        v@ == Seq::new(n as nat, |i: int| x),
{
    let mut v: Vec<T> = Vec::new();
    let mut i: usize = 0;
    while i < n
        invariant
            i <= n,
            v@ == Seq::new(i as nat, |k: int| x),
        decreases n - i,
    {
        v.push(x);
        i = i + 1;
        assert(v@ =~= Seq::new(i as nat, |k: int| x));
    }
    v
}

impl LdpcFrame {
    /// The slot of the pool.
    pub closed spec fn view_slot(&self) -> usize {
        self.slot
    }

    /// The likelihoods.
    pub closed spec fn view_llr(&self) -> Seq<u32> {
        self.llr@
    }

    /// The messages of the edges.
    pub closed spec fn view_edges(&self) -> Seq<u32> {
        self.edge_r@
    }

    /// The scratch of a row block.
    pub closed spec fn view_scratch(&self) -> Seq<u32> {
        self.scratch@
    }

    /// The decisions.
    pub closed spec fn view_hard(&self) -> Seq<u8> {
        self.hard@
    }

    /// The number of passes.
    pub closed spec fn view_iterations_used(&self) -> usize {
        self.iterations_used
    }

    /// The tag.
    pub closed spec fn view_tag(&self) -> usize {
        self.tag
    }

    /// All but the tag of another frame, and no tag.
    pub open spec fn untagged_from(&self, f: LdpcFrame) -> bool {
        &&& self.view_slot() == f.view_slot()
        &&& self.view_llr() == f.view_llr()
        &&& self.view_edges() == f.view_edges()
        &&& self.view_scratch() == f.view_scratch()
        &&& self.view_hard() == f.view_hard()
        &&& self.view_iterations_used() == f.view_iterations_used()
        &&& self.view_tag() == 0
    }

    /// The buffers are those that a decoder needs.
    pub open spec fn fits(&self, d: QcLdpcDecoder) -> bool {
        &&& self.view_llr().len() == d.params().num_col_blocks * d.params().z
        &&& self.view_hard().len() == d.params().num_col_blocks * d.params().z
        &&& self.view_edges().len() == d.edge_entries()
        &&& self.view_scratch().len() == d.layer_entries()
    }

    /// A frame for a decoder, with zeros throughout.
    fn new(slot: usize, d: &QcLdpcDecoder) -> (f: LdpcFrame)
        requires
            d.wf(),
        ensures
            f.fits(*d),
            f.view_slot() == slot,
            f.view_llr() == Seq::new(f.view_llr().len(), |i: int| 0u32),
            f.view_hard() == Seq::new(f.view_hard().len(), |i: int| 0u8),
            f.view_iterations_used() == 0,
            f.view_tag() == 0,
    {
        let n: usize = d.variable_node_count();
        LdpcFrame {
            slot,
            llr: filled(n, 0u32),
            edge_r: filled(d.required_edge_buffer(), 0u32),
            scratch: filled(d.required_layer_buffer(), 0u32),
            hard: filled(n, 0u8),
            iterations_used: 0,
            tag: 0,
        }
    }

    /// The likelihoods, to be filled in before submission.
    pub fn llr_mut(&mut self) -> (llr: &mut [u32])
        ensures
            llr@ == old(self).view_llr(),
            final(self).view_llr() == final(llr)@,
            final(self).view_slot() == old(self).view_slot(),
            final(self).view_edges() == old(self).view_edges(),
            final(self).view_scratch() == old(self).view_scratch(),
            final(self).view_hard() == old(self).view_hard(),
            final(self).view_iterations_used() == old(self).view_iterations_used(),
            final(self).view_tag() == old(self).view_tag(),
    {
        self.llr.as_mut_slice()
    }

    /// The decisions.
    pub fn hard(&self) -> (bits: &[u8])
        ensures
            bits@ == self.view_hard(),
    {
        self.hard.as_slice()
    }

    /// The number of passes that the decoding took.
    pub fn iterations_used(&self) -> (n: usize)
        ensures
            n == self.view_iterations_used(),
    {
        self.iterations_used
    }

    /// Sets the tag.
    pub fn set_tag(&mut self, tag: usize)
        ensures
            final(self).view_tag() == tag,
            final(self).view_slot() == old(self).view_slot(),
            final(self).view_llr() == old(self).view_llr(),
            final(self).view_edges() == old(self).view_edges(),
            final(self).view_scratch() == old(self).view_scratch(),
            final(self).view_hard() == old(self).view_hard(),
            final(self).view_iterations_used() == old(self).view_iterations_used(),
    {
        self.tag = tag;
    }

    /// The tag, zero where none was set since the frame was handed out.
    pub fn tag(&self) -> (tag: usize)
        ensures
            tag == self.view_tag(),
    {
        self.tag
    }

    /// Decodes the likelihoods in place. The slot and the tag stay.
    pub fn decode<F: Fn(u32, u32) -> u32>(
        &mut self,
        decoder: &QcLdpcDecoder,
        iterations: usize,
        plus: &F,
    )
        requires
            decoder.wf(),
            old(self).fits(*decoder),
            forall|a: u32, b: u32| call_requires(*plus, (a, b)),
        ensures
            final(self).fits(*decoder),
            final(self).view_slot() == old(self).view_slot(),
            final(self).view_tag() == old(self).view_tag(),
            min_sum_decoded(
                *plus,
                decoder.params(),
                decoder.offset(),
                iterations as nat,
                old(self).view_llr(),
                cleared(old(self).view_edges(), decoder.edge_entries()),
                final(self).view_iterations_used() as nat,
                final(self).view_llr(),
                final(self).view_edges(),
            ),
            final(self).view_hard() == hard_bits(final(self).view_llr()),
    {
        let r: Result<usize, crate::error::FecError> = decoder.decode_layered_offset_min_sum(
            self.llr.as_mut_slice(),
            self.edge_r.as_mut_slice(),
            self.scratch.as_mut_slice(),
            self.hard.as_mut_slice(),
            iterations,
            plus,
        );
        self.iterations_used = match r {
            Ok(used) => used,
            Err(_) => 0,
        };
    }
}

/// Where a slot of a pool is: free, with the caller, or in the queue, the
/// hands or the results of a worker.
pub enum Place {
    Free,
    Held,
    Queued(int),
    Working(int),
    Done(int),
}

/// Number of slots, among the first `n`, that are in a place.
pub open spec fn in_place(place: Seq<Place>, p: Place, n: nat) -> nat
    decreases n,
{
    if n == 0 {
        0
    } else {
        in_place(place, p, (n - 1) as nat) + if place[n - 1] == p {
            1nat
        } else {
            0nat
        }
    }
}

proof fn lemma_moved(place: Seq<Place>, slot: int, to: Place, p: Place, n: nat)
    requires
        0 <= slot < place.len(),
        n <= place.len(),
    ensures
        in_place(place.update(slot, to), p, n) == in_place(place, p, n) + (if slot < n && to == p
            && place[slot] != p {
            1int
        } else if slot < n && to != p && place[slot] == p {
            -1int
        } else {
            0int
        }),
    decreases n,
{
    if n > 0 {
        lemma_moved(place, slot, to, p, (n - 1) as nat);
    }
}

proof fn lemma_apart(place: Seq<Place>, p: Place, q: Place, n: nat)
    requires
        p != q,
    ensures
        in_place(place, p, n) + in_place(place, q, n) <= n,
    decreases n,
{
    if n > 0 {
        lemma_apart(place, p, q, (n - 1) as nat);
    }
}

proof fn lemma_somewhere(place: Seq<Place>, slot: int, n: nat)
    requires
        0 <= slot < n,
    ensures
        in_place(place, place[slot], n) >= 1,
    decreases n,
{
    if slot < n - 1 {
        lemma_somewhere(place, slot, (n - 1) as nat);
    }
}

proof fn lemma_all_below(place: Seq<Place>, p: Place, q: Place, n: nat)
    requires
        n <= place.len(),
        forall|i: int| 0 <= i < n ==> place[i] == p,
    ensures
        in_place(place, q, n) == (if p == q {
            n
        } else {
            0
        }),
    decreases n,
{
    if n > 0 {
        lemma_all_below(place, p, q, (n - 1) as nat);
    }
}

/// The frames of a list are the slots that are in a place, each once, and
/// all fit a decoder.
pub open spec fn stands_in(
    frames: Seq<LdpcFrame>,
    place: Seq<Place>,
    p: Place,
    d: QcLdpcDecoder,
) -> bool {
    &&& frames.len() == in_place(place, p, POOL_SIZE as nat)
    &&& forall|i: int|
        0 <= i < frames.len() ==> {
            &&& (#[trigger] frames[i]).view_slot() < POOL_SIZE
            &&& place[frames[i].view_slot() as int] == p
            &&& frames[i].fits(d)
        }
    &&& forall|i: int, j: int|
        0 <= i < j < frames.len() ==> (#[trigger] frames[i]).view_slot() != (
        #[trigger] frames[j]).view_slot()
}

proof fn lemma_pushed(
    frames: Seq<LdpcFrame>,
    place: Seq<Place>,
    p: Place,
    d: QcLdpcDecoder,
    f: LdpcFrame,
)
    requires
        place.len() == POOL_SIZE,
        stands_in(frames, place, p, d),
        f.view_slot() < POOL_SIZE,
        place[f.view_slot() as int] != p,
        f.fits(d),
    ensures
        stands_in(frames.push(f), place.update(f.view_slot() as int, p), p, d),
{
    lemma_moved(place, f.view_slot() as int, p, p, POOL_SIZE as nat);
}

proof fn lemma_removed(
    frames: Seq<LdpcFrame>,
    place: Seq<Place>,
    p: Place,
    d: QcLdpcDecoder,
    i: int,
    to: Place,
)
    requires
        place.len() == POOL_SIZE,
        stands_in(frames, place, p, d),
        0 <= i < frames.len(),
        to != p,
    ensures
        stands_in(frames.remove(i), place.update(frames[i].view_slot() as int, to), p, d),
{
    let slot = frames[i].view_slot() as int;
    lemma_moved(place, slot, to, p, POOL_SIZE as nat);
    let rest = frames.remove(i);
    assert forall|k: int| 0 <= k < rest.len() implies rest[k] == (if k < i {
        frames[k]
    } else {
        frames[k + 1]
    }) by {}
    assert forall|k: int| 0 <= k < rest.len() implies {
        &&& (#[trigger] rest[k]).view_slot() < POOL_SIZE
        &&& place.update(slot, to)[rest[k].view_slot() as int] == p
        &&& rest[k].fits(d)
    } by {
        let o = if k < i {
            k
        } else {
            k + 1
        };
        assert(rest[k] == frames[o]);
        assert(frames[o].view_slot() != frames[i].view_slot());
    }
    assert forall|k: int, l: int| 0 <= k < l < rest.len() implies (
    #[trigger] rest[k]).view_slot() != (#[trigger] rest[l]).view_slot() by {
        let o = if k < i {
            k
        } else {
            k + 1
        };
        let u = if l < i {
            l
        } else {
            l + 1
        };
        assert(rest[k] == frames[o] && rest[l] == frames[u]);
    }
}

proof fn lemma_others(
    frames: Seq<LdpcFrame>,
    place: Seq<Place>,
    p: Place,
    d: QcLdpcDecoder,
    slot: int,
    to: Place,
)
    requires
        place.len() == POOL_SIZE,
        stands_in(frames, place, p, d),
        0 <= slot < POOL_SIZE,
        place[slot] != p,
        to != p,
    ensures
        stands_in(frames, place.update(slot, to), p, d),
{
    lemma_moved(place, slot, to, p, POOL_SIZE as nat);
}

/// A pool of frames for a decoder.
pub struct LdpcPipeline {
    decoder: QcLdpcDecoder,
    iterations: usize,
    free_list: Vec<LdpcFrame>,
    work_rings: Vec<Vec<LdpcFrame>>,
    done_rings: Vec<Vec<LdpcFrame>>,
    outstanding: Vec<usize>,
    next_submit: usize,
    place: Ghost<Seq<Place>>,
}

impl LdpcPipeline {
    /// The decoder.
    pub closed spec fn view_decoder(&self) -> QcLdpcDecoder {
        self.decoder
    }

    /// The number of passes that the decoding of a frame may take.
    pub closed spec fn view_iterations(&self) -> usize {
        self.iterations
    }

    /// The free frames, the next to be handed out last.
    pub closed spec fn free(&self) -> Seq<LdpcFrame> {
        self.free_list@
    }

    /// The frames that wait for a worker, the next first.
    pub closed spec fn work(&self, w: int) -> Seq<LdpcFrame> {
        self.work_rings@[w]@
    }

    /// The frames that a worker has decoded, the next first.
    pub closed spec fn done(&self, w: int) -> Seq<LdpcFrame> {
        self.done_rings@[w]@
    }

    /// The number of frames of each worker.
    pub closed spec fn view_outstanding(&self) -> Seq<usize> {
        self.outstanding@
    }

    /// The number of submissions so far, from zero again after the largest
    /// number.
    pub closed spec fn cursor(&self) -> usize {
        self.next_submit
    }

    /// Where each slot is.
    pub closed spec fn places(&self) -> Seq<Place> {
        self.place@
    }

    /// Number of workers.
    pub open spec fn workers(&self) -> int {
        self.view_outstanding().len() as int
    }

    /// Every worker has a queue and a list of results.
    pub closed spec fn rings(&self) -> bool {
        &&& self.work_rings@.len() == self.outstanding@.len()
        &&& self.done_rings@.len() == self.outstanding@.len()
    }

    /// Each slot is in one place, the lists and counts agree with that, and
    /// no free frame has a tag.
    pub open spec fn wf(&self) -> bool {
        &&& self.view_decoder().wf()
        &&& self.rings()
        &&& 1 <= self.workers() <= MAX_WORKERS
        &&& self.places().len() == POOL_SIZE
        &&& stands_in(self.free(), self.places(), Place::Free, self.view_decoder())
        &&& forall|i: int|
            0 <= i < self.free().len() ==> (#[trigger] self.free()[i]).view_tag() == 0
        &&& forall|w: int|
            0 <= w < self.workers() ==> stands_in(
                #[trigger] self.work(w),
                self.places(),
                Place::Queued(w),
                self.view_decoder(),
            )
        &&& forall|w: int|
            0 <= w < self.workers() ==> stands_in(
                #[trigger] self.done(w),
                self.places(),
                Place::Done(w),
                self.view_decoder(),
            )
        &&& forall|w: int|
            0 <= w < self.workers() ==> #[trigger] self.view_outstanding()[w] == with_worker(
                self.places(),
                w,
            )
    }

    /// A frame is one that the caller was handed and has not given back.
    pub open spec fn holds(&self, f: LdpcFrame) -> bool {
        &&& f.view_slot() < POOL_SIZE
        &&& self.places()[f.view_slot() as int] == Place::Held
        &&& f.fits(self.view_decoder())
    }

    /// A frame is one that a worker was handed and has not given back.
    pub open spec fn works_on(&self, w: int, f: LdpcFrame) -> bool {
        &&& f.view_slot() < POOL_SIZE
        &&& self.places()[f.view_slot() as int] == Place::Working(w)
        &&& f.fits(self.view_decoder())
    }

    /// What no operation but construction changes.
    pub open spec fn same_setup(&self, before: LdpcPipeline) -> bool {
        &&& self.view_decoder() == before.view_decoder()
        &&& self.view_iterations() == before.view_iterations()
        &&& self.workers() == before.workers()
    }

    /// The queues and results of all workers but one are as before, and so is
    /// the queue, or the result list, of that one where it is told.
    pub open spec fn same_rings(
        &self,
        before: LdpcPipeline,
        worker: int,
        work: bool,
        done: bool,
    ) -> bool {
        &&& forall|w: int|
            0 <= w < self.workers() && (w != worker || work) ==> #[trigger] self.work(w)
                == before.work(w)
        &&& forall|w: int|
            0 <= w < self.workers() && (w != worker || done) ==> #[trigger] self.done(w)
                == before.done(w)
    }
}

/// Number of slots that are with a worker: queued, worked on or done.
pub open spec fn with_worker(place: Seq<Place>, w: int) -> nat {
    in_place(place, Place::Queued(w), POOL_SIZE as nat) + in_place(
        place,
        Place::Working(w),
        POOL_SIZE as nat,
    ) + in_place(place, Place::Done(w), POOL_SIZE as nat)
}

/// Where every frame has come back and was released, no worker has one left.
pub proof fn lemma_drained(pool: LdpcPipeline)
    requires
        pool.wf(),
        pool.free().len() == POOL_SIZE,
    ensures
        forall|w: int| 0 <= w < pool.workers() ==> #[trigger] pool.view_outstanding()[w] == 0,
        forall|s: int| 0 <= s < POOL_SIZE ==> #[trigger] pool.places()[s] == Place::Free,
{
    let place = pool.places();
    assert forall|s: int| 0 <= s < POOL_SIZE implies #[trigger] place[s] == Place::Free by {
        lemma_somewhere(place, s, POOL_SIZE as nat);
        if place[s] != Place::Free {
            lemma_apart(place, Place::Free, place[s], POOL_SIZE as nat);
        }
    }
    assert forall|w: int| 0 <= w < pool.workers() implies #[trigger] pool.view_outstanding()[w]
        == 0 by {
        lemma_apart(place, Place::Free, Place::Queued(w), POOL_SIZE as nat);
        lemma_apart(place, Place::Free, Place::Working(w), POOL_SIZE as nat);
        lemma_apart(place, Place::Free, Place::Done(w), POOL_SIZE as nat);
    }
}

/// The frames that are free, with the caller and with the workers are all
/// the frames of the pool: none is lost and none is there twice.
pub proof fn lemma_conserved(pool: LdpcPipeline)
    requires
        pool.wf(),
    ensures
        pool.free().len() + in_place(pool.places(), Place::Held, POOL_SIZE as nat) + elsewhere(
            pool.places(),
            POOL_SIZE as nat,
        ) == POOL_SIZE,
{
    lemma_partition(pool.places(), POOL_SIZE as nat);
}

/// Number of slots, among the first `n`, that are with some worker.
pub open spec fn elsewhere(place: Seq<Place>, n: nat) -> nat
    decreases n,
{
    if n == 0 {
        0
    } else {
        elsewhere(place, (n - 1) as nat) + if place[n - 1] != Place::Free && place[n - 1]
            != Place::Held {
            1nat
        } else {
            0nat
        }
    }
}

proof fn lemma_partition(place: Seq<Place>, n: nat)
    ensures
        in_place(place, Place::Free, n) + in_place(place, Place::Held, n) + elsewhere(place, n) == n,
    decreases n,
{
    if n > 0 {
        lemma_partition(place, (n - 1) as nat);
    }
}

proof fn lemma_with_worker_moved(place: Seq<Place>, slot: int, to: Place, w: int)
    requires
        0 <= slot < place.len(),
        place.len() == POOL_SIZE,
    ensures
        with_worker(place.update(slot, to), w) == with_worker(place, w) + (if belongs(to, w) {
            1int
        } else {
            0int
        }) - (if belongs(place[slot], w) {
            1int
        } else {
            0int
        }),
{
    lemma_moved(place, slot, to, Place::Queued(w), POOL_SIZE as nat);
    lemma_moved(place, slot, to, Place::Working(w), POOL_SIZE as nat);
    lemma_moved(place, slot, to, Place::Done(w), POOL_SIZE as nat);
}

/// Whether a place is with a worker.
pub open spec fn belongs(p: Place, w: int) -> bool {
    p == Place::Queued(w) || p == Place::Working(w) || p == Place::Done(w)
}

proof fn lemma_with_worker_bound(place: Seq<Place>, w: int, n: nat)
    ensures
        in_place(place, Place::Queued(w), n) + in_place(place, Place::Working(w), n) + in_place(
            place,
            Place::Done(w),
            n,
        ) + in_place(place, Place::Held, n) + in_place(place, Place::Free, n) <= n,
    decreases n,
{
    if n > 0 {
        lemma_with_worker_bound(place, w, (n - 1) as nat);
    }
}

fn empty_rings(n: usize) -> (v: Vec<Vec<LdpcFrame>>)
    ensures
        v@.len() == n,
        forall|w: int| 0 <= w < n ==> (#[trigger] v@[w])@ == Seq::<LdpcFrame>::empty(),
{
    let mut v: Vec<Vec<LdpcFrame>> = Vec::new();
    let mut i: usize = 0;
    while i < n
        invariant
            i <= n,
            v@.len() == i,
            forall|w: int| 0 <= w < i ==> (#[trigger] v@[w])@ == Seq::<LdpcFrame>::empty(),
        decreases n - i,
    {
        v.push(Vec::new());
        i = i + 1;
    }
    v
}

/// A frame of a new pool.
pub open spec fn unused(f: LdpcFrame, slot: int, d: QcLdpcDecoder) -> bool {
    &&& f.view_slot() == slot
    &&& f.fits(d)
    &&& f.view_llr() == Seq::new(f.view_llr().len(), |i: int| 0u32)
    &&& f.view_hard() == Seq::new(f.view_hard().len(), |i: int| 0u8)
    &&& f.view_iterations_used() == 0
    &&& f.view_tag() == 0
}

impl LdpcPipeline {
    /// A pool with a worker for each unit that the system reports, or with
    /// one where it reports nothing.
    pub fn new(decoder: QcLdpcDecoder, iterations: usize, detected: Option<usize>) -> (p:
        LdpcPipeline)
        requires
            decoder.wf(),
        ensures
            p.wf(),
            p.view_decoder() == decoder,
            p.view_iterations() == iterations,
            p.workers() == workers_for(
                match detected {
                    Some(n) => n,
                    None => 1,
                },
            ),
            p.cursor() == 0,
            p.free().len() == POOL_SIZE,
            forall|i: int| 0 <= i < POOL_SIZE ==> unused(#[trigger] p.free()[i], i, decoder),
            forall|w: int| 0 <= w < p.workers() ==> #[trigger] p.view_outstanding()[w] == 0,
    {
        let n: usize = match detected {
            Some(n) => n,
            None => 1,
        };
        LdpcPipeline::with_workers(decoder, iterations, n)
    }

    /// A pool with a number of workers: at least one, at most eight.
    pub fn with_workers(decoder: QcLdpcDecoder, iterations: usize, n_workers: usize) -> (p:
        LdpcPipeline)
        requires
            decoder.wf(),
        ensures
            p.wf(),
            p.view_decoder() == decoder,
            p.view_iterations() == iterations,
            p.workers() == workers_for(n_workers),
            p.cursor() == 0,
            p.free().len() == POOL_SIZE,
            forall|i: int| 0 <= i < POOL_SIZE ==> unused(#[trigger] p.free()[i], i, decoder),
            forall|w: int| 0 <= w < p.workers() ==> #[trigger] p.view_outstanding()[w] == 0,
    {
        let n: usize = if n_workers < 1 {
            1
        } else if n_workers > MAX_WORKERS {
            MAX_WORKERS
        } else {
            n_workers
        };
        let mut free_list: Vec<LdpcFrame> = Vec::new();
        let mut i: usize = 0;
        while i < POOL_SIZE
            invariant
                i <= POOL_SIZE,
                decoder.wf(),
                free_list@.len() == i,
                forall|k: int| 0 <= k < i ==> unused(#[trigger] free_list@[k], k, decoder),
            decreases POOL_SIZE - i,
        {
            let f: LdpcFrame = LdpcFrame::new(i, &decoder);
            free_list.push(f);
            i = i + 1;
        }
        let ghost places = Seq::new(POOL_SIZE as nat, |i: int| Place::Free);
        let outstanding: Vec<usize> = filled(n, 0usize);
        proof {
            assert forall|q: Place| in_place(places, q, POOL_SIZE as nat) == (if Place::Free == q {
                POOL_SIZE as nat
            } else {
                0
            }) by {
                lemma_all_below(places, Place::Free, q, POOL_SIZE as nat);
            }
        }
        let p: LdpcPipeline = LdpcPipeline {
            decoder,
            iterations,
            free_list,
            work_rings: empty_rings(n),
            done_rings: empty_rings(n),
            outstanding,
            next_submit: 0,
            place: Ghost(places),
        };
        proof {
            let pool_size = POOL_SIZE as nat;
            assert(stands_in(p.free(), p.places(), Place::Free, decoder));
            assert forall|w: int| 0 <= w < p.workers() implies stands_in(
                #[trigger] p.work(w),
                p.places(),
                Place::Queued(w),
                decoder,
            ) by {
                assert(in_place(places, Place::Queued(w), pool_size) == 0);
            }
            assert forall|w: int| 0 <= w < p.workers() implies stands_in(
                #[trigger] p.done(w),
                p.places(),
                Place::Done(w),
                decoder,
            ) by {
                assert(in_place(places, Place::Done(w), pool_size) == 0);
            }
            assert forall|w: int| 0 <= w < p.workers() implies #[trigger] p.view_outstanding()[w]
                == with_worker(p.places(), w) by {
                assert(in_place(places, Place::Queued(w), pool_size) == 0);
                assert(in_place(places, Place::Working(w), pool_size) == 0);
                assert(in_place(places, Place::Done(w), pool_size) == 0);
            }
        }
        p
    }

    /// Number of workers.
    pub fn worker_count(&self) -> (n: usize)
        ensures
            n == self.workers(),
    {
        self.outstanding.len()
    }

    /// The decoder.
    pub fn decoder(&self) -> (d: &QcLdpcDecoder)
        ensures
            *d == self.view_decoder(),
    {
        &self.decoder
    }

    /// The number of passes that the decoding of a frame may take.
    pub fn iterations(&self) -> (n: usize)
        ensures
            n == self.view_iterations(),
    {
        self.iterations
    }

    /// The number of frames of each worker.
    pub fn outstanding(&self) -> (v: &[usize])
        ensures
            v@ == self.view_outstanding(),
    {
        self.outstanding.as_slice()
    }

    /// A free frame, without a tag, unless there is none.
    pub fn acquire(&mut self) -> (r: Option<LdpcFrame>)
        requires
            old(self).wf(),
        ensures
            final(self).wf(),
            final(self).same_setup(*old(self)),
            final(self).same_rings(*old(self), -1, true, true),
            final(self).view_outstanding() == old(self).view_outstanding(),
            final(self).cursor() == old(self).cursor(),
            match r {
                None => {
                    &&& old(self).free().len() == 0
                    &&& *final(self) == *old(self)
                },
                Some(f) => {
                    &&& old(self).free().len() > 0
                    &&& f == old(self).free().last()
                    &&& f.view_tag() == 0
                    &&& final(self).free() == old(self).free().drop_last()
                    &&& final(self).holds(f)
                    &&& final(self).places() == old(self).places().update(
                        f.view_slot() as int,
                        Place::Held,
                    )
                },
            },
    {
        if self.free_list.len() == 0 {
            return None;
        }
        match self.free_list.pop() {
            None => None,
            Some(f) => {
                let ghost old_free = old(self).free();
                let ghost before = self.place@;
                let ghost slot = f.slot as int;
                let ghost after = before.update(slot, Place::Held);
                proof {
                    assert(f == old_free[old_free.len() - 1]);
                }
                self.place = Ghost(after);
                proof {
                    let d = self.decoder;
                    assert(old_free.remove(old_free.len() - 1) =~= old_free.drop_last());
                    lemma_removed(
                        old_free,
                        before,
                        Place::Free,
                        d,
                        old_free.len() - 1,
                        Place::Held,
                    );
                    self.lemma_kept(*old(self), slot, Place::Held);
                }
                Some(f)
            },
        }
    }

    /// The queues, results and counts of the workers that a slot's move does
    /// not touch stay in order.
    proof fn lemma_kept(&self, before: LdpcPipeline, slot: int, to: Place)
        requires
            before.wf(),
            0 <= slot < POOL_SIZE,
            self.places() == before.places().update(slot, to),
            self.view_decoder() == before.view_decoder(),
            self.workers() == before.workers(),
        ensures
            self.places().len() == POOL_SIZE,
            forall|w: int|
                0 <= w < before.workers() && self.work(w) == before.work(w)
                    && before.places()[slot] != Place::Queued(w) && to != Place::Queued(w)
                    ==> stands_in(
                    #[trigger] self.work(w),
                    self.places(),
                    Place::Queued(w),
                    self.view_decoder(),
                ),
            forall|w: int|
                0 <= w < before.workers() && self.done(w) == before.done(w)
                    && before.places()[slot] != Place::Done(w) && to != Place::Done(w)
                    ==> stands_in(
                    #[trigger] self.done(w),
                    self.places(),
                    Place::Done(w),
                    self.view_decoder(),
                ),
            forall|w: int|
                0 <= w < before.workers() && self.view_outstanding()[w]
                    == before.view_outstanding()[w] && belongs(before.places()[slot], w) == belongs(
                    to,
                    w,
                ) ==> #[trigger] self.view_outstanding()[w] == with_worker(self.places(), w),
            self.free() == before.free() && before.places()[slot] != Place::Free && to
                != Place::Free ==> stands_in(
                self.free(),
                self.places(),
                Place::Free,
                self.view_decoder(),
            ),
    {
        let d = before.view_decoder();
        let place = before.places();
        assert forall|w: int|
            0 <= w < before.workers() && self.work(w) == before.work(w) && place[slot]
                != Place::Queued(w) && to != Place::Queued(w) implies stands_in(
            #[trigger] self.work(w),
            self.places(),
            Place::Queued(w),
            self.view_decoder(),
        ) by {
            lemma_others(before.work(w), place, Place::Queued(w), d, slot, to);
        }
        assert forall|w: int|
            0 <= w < before.workers() && self.done(w) == before.done(w) && place[slot]
                != Place::Done(w) && to != Place::Done(w) implies stands_in(
            #[trigger] self.done(w),
            self.places(),
            Place::Done(w),
            self.view_decoder(),
        ) by {
            lemma_others(before.done(w), place, Place::Done(w), d, slot, to);
        }
        assert forall|w: int|
            0 <= w < before.workers() && self.view_outstanding()[w] == before.view_outstanding()[w]
                && belongs(place[slot], w) == belongs(to, w) implies
            #[trigger] self.view_outstanding()[w] == with_worker(self.places(), w) by {
            lemma_with_worker_moved(place, slot, to, w);
            assert(before.view_outstanding()[w] == with_worker(place, w));
        }
        if self.free() == before.free() && place[slot] != Place::Free && to != Place::Free {
            lemma_others(before.free(), place, Place::Free, d, slot, to);
        }
    }

    /// Gives a frame to the worker with the fewest. No queue is ever full, so
    /// no frame comes back.
    pub fn submit(&mut self, frame: LdpcFrame) -> (r: Result<(), LdpcFrame>)
        requires
            old(self).wf(),
            old(self).holds(frame),
        ensures
            r is Ok,
            final(self).wf(),
            final(self).same_setup(*old(self)),
            final(self).free() == old(self).free(),
            final(self).cursor() == old(self).cursor().wrapping_add(1),
            exists|w: int|
                {
                    &&& #[trigger] is_pick(old(self).view_outstanding(), old(self).cursor(), w)
                    &&& final(self).work(w) == old(self).work(w).push(frame)
                    &&& final(self).same_rings(*old(self), w, false, true)
                    &&& final(self).view_outstanding() == old(self).view_outstanding().update(
                        w,
                        (old(self).view_outstanding()[w] + 1) as usize,
                    )
                    &&& final(self).places() == old(self).places().update(
                        frame.view_slot() as int,
                        Place::Queued(w),
                    )
                },
    {
        let w: usize = pick_worker(self.outstanding.as_slice(), self.next_submit);
        let ghost before = *self;
        let ghost slot = frame.slot as int;
        let ghost to = Place::Queued(w as int);
        proof {
            let place = before.places();
            lemma_somewhere(place, slot, POOL_SIZE as nat);
            lemma_with_worker_bound(place, w as int, POOL_SIZE as nat);
            assert(stands_in(before.work(w as int), place, to, before.view_decoder()));
            assert(before.view_outstanding()[w as int] == with_worker(place, w as int));
        }
        if self.work_rings[w].len() >= POOL_SIZE {
            return Err(frame);
        }
        let ghost the_frame = frame;
        self.work_rings[w].push(frame);
        let count: usize = self.outstanding[w];
        self.outstanding.set(w, count + 1);
        self.next_submit = self.next_submit.wrapping_add(1);
        self.place = Ghost(before.places().update(slot, to));
        proof {
            lemma_pushed(before.work(w as int), before.places(), to, before.view_decoder(), the_frame);
            lemma_with_worker_moved(before.places(), slot, to, w as int);
            self.lemma_kept(before, slot, to);
            assert(self.work(w as int) == before.work(w as int).push(the_frame));
            assert(is_pick(before.view_outstanding(), before.cursor(), w as int));
        }
        Ok(())
    }

    /// The next frame of a worker, unless none waits for it.
    pub fn next_work(&mut self, w: usize) -> (r: Option<LdpcFrame>)
        requires
            old(self).wf(),
            w < old(self).workers(),
        ensures
            final(self).wf(),
            final(self).same_setup(*old(self)),
            final(self).free() == old(self).free(),
            final(self).cursor() == old(self).cursor(),
            final(self).view_outstanding() == old(self).view_outstanding(),
            final(self).same_rings(*old(self), w as int, false, true),
            match r {
                None => {
                    &&& old(self).work(w as int).len() == 0
                    &&& *final(self) == *old(self)
                },
                Some(f) => {
                    &&& old(self).work(w as int).len() > 0
                    &&& f == old(self).work(w as int)[0]
                    &&& final(self).work(w as int) == old(self).work(w as int).remove(0)
                    &&& final(self).works_on(w as int, f)
                    &&& final(self).places() == old(self).places().update(
                        f.view_slot() as int,
                        Place::Working(w as int),
                    )
                },
            },
    {
        if self.work_rings[w].len() == 0 {
            return None;
        }
        let ghost before = *self;
        let f: LdpcFrame = self.work_rings[w].remove(0);
        let ghost slot = f.slot as int;
        let ghost to = Place::Working(w as int);
        self.place = Ghost(before.places().update(slot, to));
        proof {
            assert(stands_in(
                before.work(w as int),
                before.places(),
                Place::Queued(w as int),
                before.view_decoder(),
            ));
            lemma_removed(
                before.work(w as int),
                before.places(),
                Place::Queued(w as int),
                before.view_decoder(),
                0,
                to,
            );
            self.lemma_kept(before, slot, to);
            assert(self.work(w as int) == before.work(w as int).remove(0));
        }
        Some(f)
    }

    /// Takes a frame back from a worker.
    pub fn complete(&mut self, w: usize, frame: LdpcFrame)
        requires
            old(self).wf(),
            w < old(self).workers(),
            old(self).works_on(w as int, frame),
        ensures
            final(self).wf(),
            final(self).same_setup(*old(self)),
            final(self).free() == old(self).free(),
            final(self).cursor() == old(self).cursor(),
            final(self).view_outstanding() == old(self).view_outstanding(),
            final(self).same_rings(*old(self), w as int, true, false),
            final(self).done(w as int) == old(self).done(w as int).push(frame),
            final(self).places() == old(self).places().update(
                frame.view_slot() as int,
                Place::Done(w as int),
            ),
    {
        let ghost before = *self;
        let ghost slot = frame.slot as int;
        let ghost to = Place::Done(w as int);
        let ghost the_frame = frame;
        self.done_rings[w].push(frame);
        self.place = Ghost(before.places().update(slot, to));
        proof {
            assert(stands_in(before.done(w as int), before.places(), to, before.view_decoder()));
            lemma_pushed(before.done(w as int), before.places(), to, before.view_decoder(), the_frame);
            self.lemma_kept(before, slot, to);
            assert(self.done(w as int) == before.done(w as int).push(the_frame));
        }
    }

    /// The next decoded frame of the first worker that has one.
    pub fn try_recv(&mut self) -> (r: Option<LdpcFrame>)
        requires
            old(self).wf(),
        ensures
            final(self).wf(),
            final(self).same_setup(*old(self)),
            final(self).free() == old(self).free(),
            final(self).cursor() == old(self).cursor(),
            match r {
                None => {
                    &&& forall|w: int|
                        0 <= w < old(self).workers() ==> (#[trigger] old(self).done(w)).len() == 0
                    &&& *final(self) == *old(self)
                },
                Some(f) => exists|w: int|
                    {
                        &&& 0 <= w < old(self).workers()
                        &&& forall|v: int| 0 <= v < w ==> (#[trigger] old(self).done(v)).len() == 0
                        &&& (#[trigger] old(self).done(w)).len() > 0
                        &&& f == old(self).done(w)[0]
                        &&& final(self).done(w) == old(self).done(w).remove(0)
                        &&& final(self).same_rings(*old(self), w, true, false)
                        &&& final(self).view_outstanding() == old(self).view_outstanding().update(
                            w,
                            (old(self).view_outstanding()[w] - 1) as usize,
                        )
                        &&& final(self).holds(f)
                        &&& final(self).places() == old(self).places().update(
                            f.view_slot() as int,
                            Place::Held,
                        )
                    },
            },
    {
        let ghost before = *self;
        let n: usize = self.outstanding.len();
        let mut w: usize = 0;
        while w < n
            invariant
                w <= n,
                *self == before,
                before == *old(self),
                before.wf(),
                n == before.workers(),
                forall|v: int| 0 <= v < w ==> (#[trigger] before.done(v)).len() == 0,
            decreases n - w,
        {
            if self.done_rings[w].len() > 0 {
                let ghost d = before.view_decoder();
                let ghost place = before.places();
                assert(stands_in(before.done(w as int), place, Place::Done(w as int), d));
                let f: LdpcFrame = self.done_rings[w].remove(0);
                let ghost slot = f.slot as int;
                let count: usize = self.outstanding[w];
                proof {
                    assert(before.view_outstanding()[w as int] == with_worker(place, w as int));
                }
                self.outstanding.set(w, count - 1);
                self.place = Ghost(place.update(slot, Place::Held));
                proof {
                    lemma_removed(
                        before.done(w as int),
                        place,
                        Place::Done(w as int),
                        d,
                        0,
                        Place::Held,
                    );
                    lemma_with_worker_moved(place, slot, Place::Held, w as int);
                    self.lemma_kept(before, slot, Place::Held);
                    assert(self.done(w as int) == before.done(w as int).remove(0));
                    assert(before.done(w as int).len() > 0);
                }
                return Some(f);
            }
            w = w + 1;
        }
        None
    }

    /// Takes a frame back from the caller, and its tag away.
    pub fn release(&mut self, frame: LdpcFrame)
        requires
            old(self).wf(),
            old(self).holds(frame),
        ensures
            final(self).wf(),
            final(self).same_setup(*old(self)),
            final(self).same_rings(*old(self), -1, true, true),
            final(self).view_outstanding() == old(self).view_outstanding(),
            final(self).cursor() == old(self).cursor(),
            final(self).free().len() == old(self).free().len() + 1,
            final(self).free().drop_last() == old(self).free(),
            final(self).free().last().untagged_from(frame),
            final(self).places() == old(self).places().update(
                frame.view_slot() as int,
                Place::Free,
            ),
    {
        let ghost before = *self;
        let ghost slot = frame.slot as int;
        let mut frame: LdpcFrame = frame;
        frame.tag = 0;
        let ghost the_frame = frame;
        self.free_list.push(frame);
        self.place = Ghost(before.places().update(slot, Place::Free));
        proof {
            lemma_pushed(
                before.free(),
                before.places(),
                Place::Free,
                before.view_decoder(),
                the_frame,
            );
            self.lemma_kept(before, slot, Place::Free);
            assert(self.free() == before.free().push(the_frame));
            assert(self.free().drop_last() =~= before.free());
        }
    }
}

/// As many workers as asked for, wherever a pool can have so many.
pub proof fn lemma_workers_for(n: usize)
    ensures
        1 <= workers_for(n) <= MAX_WORKERS,
        1 <= n <= MAX_WORKERS ==> workers_for(n) == n,
        forall|m: usize| m <= n ==> #[trigger] workers_for(m) <= workers_for(n),
{
}

} // verus!
