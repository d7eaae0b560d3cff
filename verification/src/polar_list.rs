//! Successive cancellation with a list of paths.
//!
//! Every path carries the bits decided so far, a metric, and the likelihoods
//! of the nodes that it is in the middle of, the outermost first. At a free
//! position every path forks, and the paths with the smallest metrics stay.

use crate::bits::is_bits;
use crate::polar::{
    all_decide,
    is_power,
    is_right_llr,
    keeps_sign,
    left_llr,
    lemma_left_decides,
    lemma_polar_len,
    lemma_right_decides,
    polar,
    polar_transform,
    respects,
};
use crate::soft::{combine, cost, decides, lemma_patterns, penalty, positive, signed, with_sign};
use vstd::prelude::*;

verus! {

/// What a path is: its bits, its metric, and its likelihoods.
pub struct PathView {
    /// Bits decided so far.
    pub decoded: Seq<u8>,
    /// Sum of the costs.
    pub metric: u32,
    /// Likelihoods of the open nodes, the outermost first.
    pub levels: Seq<Seq<u32>>,
}

/// A path.
pub struct ScPath {
    pub decoded: Vec<u8>,
    pub metric: u32,
    pub levels: Vec<Vec<u32>>,
}

/// The contents of nested vectors.
pub open spec fn level_views(levels: Seq<Vec<u32>>) -> Seq<Seq<u32>> {
    Seq::new(levels.len(), |d: int| levels[d]@)
}

impl View for ScPath {
    type V = PathView;

    open spec fn view(&self) -> PathView {
        PathView {
            decoded: self.decoded@,
            metric: self.metric,
            levels: level_views(self.levels@),
        }
    }
}

/// The views of a list.
pub open spec fn path_views(paths: Seq<ScPath>) -> Seq<PathView> {
    Seq::new(paths.len(), |i: int| paths[i]@)
}

/// `q` is `p` with one more bit, whose cost is added to the metric.
pub open spec fn extends<F: Fn(u32, u32) -> u32>(plus: F, p: PathView, bit: u8, q: PathView) -> bool {
    &&& q.decoded == p.decoded.push(bit)
    &&& q.levels == p.levels
    &&& call_ensures(plus, (p.metric, penalty(p.levels.last()[0], bit)), q.metric)
}

/// Every path extended by a zero.
pub open spec fn all_extend<F: Fn(u32, u32) -> u32>(
    plus: F,
    before: Seq<PathView>,
    after: Seq<PathView>,
) -> bool {
    after.len() == before.len() && forall|i: int|
        0 <= i < before.len() ==> extends(plus, before[i], 0, #[trigger] after[i])
}

/// Path `i` of the list has its two extensions at `2 i` and `2 i + 1`.
pub open spec fn forks_at<F: Fn(u32, u32) -> u32>(
    plus: F,
    before: Seq<PathView>,
    forks: Seq<PathView>,
    i: int,
) -> bool {
    extends(plus, before[i], 0, forks[2 * i]) && extends(plus, before[i], 1, forks[2 * i + 1])
}

/// Every path extended by a zero and by a one.
pub open spec fn all_fork<F: Fn(u32, u32) -> u32>(
    plus: F,
    before: Seq<PathView>,
    forks: Seq<PathView>,
) -> bool {
    forks.len() == 2 * before.len() && forall|i: int|
        0 <= i < before.len() ==> #[trigger] forks_at(plus, before, forks, i)
}

/// The indices of a list in order of the metrics, the earlier of equal ones
/// first.
pub open spec fn is_metric_order(metrics: Seq<u32>, order: Seq<usize>) -> bool {
    &&& order.len() == metrics.len()
    &&& forall|i: int| 0 <= i < order.len() ==> #[trigger] order[i] < metrics.len()
    &&& forall|k: usize| k < metrics.len() ==> #[trigger] order.contains(k)
    &&& forall|i: int, j: int|
        0 <= i < j < order.len() ==> comes_first(
            metrics,
            #[trigger] order[i] as int,
            #[trigger] order[j] as int,
        )
}

/// Index `a` comes before index `b`.
pub open spec fn comes_first(metrics: Seq<u32>, a: int, b: int) -> bool {
    metrics[a] < metrics[b] || (metrics[a] == metrics[b] && a < b)
}

/// The metrics of a list.
pub open spec fn metrics_of(paths: Seq<PathView>) -> Seq<u32> {
    Seq::new(paths.len(), |i: int| paths[i].metric)
}

/// The first `size` paths of an order.
pub open spec fn kept(forks: Seq<PathView>, order: Seq<usize>, size: nat) -> Seq<PathView> {
    Seq::new(
        if forks.len() <= size {
            forks.len()
        } else {
            size
        },
        |i: int| forks[order[i] as int],
    )
}

/// The paths with the smallest metrics stay.
pub open spec fn is_pruned(forks: Seq<PathView>, size: nat, after: Seq<PathView>) -> bool {
    exists|order: Seq<usize>| #[trigger]
        is_metric_order(metrics_of(forks), order) && after == kept(forks, order, size)
}

/// The first half of the innermost node opened.
pub open spec fn open_left(p: PathView) -> PathView {
    PathView { levels: p.levels.push(left_llr(p.levels.last())), ..p }
}

/// The innermost node closed.
pub open spec fn close(p: PathView) -> PathView {
    PathView { levels: p.levels.drop_last(), ..p }
}

/// The first half of every path opened.
pub open spec fn all_open(paths: Seq<PathView>) -> Seq<PathView> {
    Seq::new(paths.len(), |i: int| open_left(paths[i]))
}

/// The innermost node of every path closed.
pub open spec fn all_close(paths: Seq<PathView>) -> Seq<PathView> {
    Seq::new(paths.len(), |i: int| close(paths[i]))
}

/// The last `h` bits.
pub open spec fn recent(decoded: Seq<u8>, h: int) -> Seq<u8> {
    decoded.skip(decoded.len() - h)
}

/// `q` is `p` with the first half, just decided in `h` bits, exchanged for
/// the second.
pub open spec fn turns<F: Fn(u32, u32) -> u32>(plus: F, p: PathView, h: int, q: PathView) -> bool {
    &&& q.decoded == p.decoded
    &&& q.metric == p.metric
    &&& q.levels.len() == p.levels.len()
    &&& q.levels.drop_last() == p.levels.drop_last()
    &&& is_right_llr(
        plus,
        p.levels[p.levels.len() - 2],
        polar(recent(p.decoded, h)),
        q.levels.last(),
    )
}

/// Every path turned to its second half.
pub open spec fn all_turn<F: Fn(u32, u32) -> u32>(
    plus: F,
    before: Seq<PathView>,
    h: int,
    after: Seq<PathView>,
) -> bool {
    after.len() == before.len() && forall|i: int|
        0 <= i < before.len() ==> turns(plus, before[i], h, #[trigger] after[i])
}

/// `after` is what becomes of the list `before` over the positions of
/// `frozen`.
pub open spec fn scl_decides<F: Fn(u32, u32) -> u32>(
    plus: F,
    frozen: Seq<bool>,
    size: nat,
    before: Seq<PathView>,
    after: Seq<PathView>,
) -> bool
    decreases frozen.len(),
{
    if frozen.len() <= 1 {
        if frozen[0] {
            all_extend(plus, before, after)
        } else {
            exists|forks: Seq<PathView>| #[trigger]
                all_fork(plus, before, forks) && is_pruned(forks, size, after)
        }
    } else {
        let h = frozen.len() as int / 2;
        exists|mid: Seq<PathView>, turned: Seq<PathView>, end: Seq<PathView>|
            #![trigger all_turn(plus, mid, h, turned), all_close(end)]
            {
                &&& scl_decides(plus, frozen.take(h), size, all_open(before), mid)
                &&& all_turn(plus, mid, h, turned)
                &&& scl_decides(plus, frozen.skip(h), size, turned, end)
                &&& after == all_close(end)
            }
    }
}

/// The shape of a path: `at` bits decided, and open nodes of these sizes.
pub open spec fn has_shape(p: PathView, at: int, sizes: Seq<int>) -> bool {
    &&& p.decoded.len() == at
    &&& is_bits(p.decoded)
    &&& p.levels.len() == sizes.len()
    &&& forall|d: int| 0 <= d < sizes.len() ==> (#[trigger] p.levels[d]).len() == sizes[d]
}

/// A list of at least one and at most `size` paths of one shape.
pub open spec fn list_shape(paths: Seq<PathView>, at: int, sizes: Seq<int>, size: nat) -> bool {
    1 <= paths.len() <= size && forall|i: int|
        0 <= i < paths.len() ==> has_shape(#[trigger] paths[i], at, sizes)
}

fn copy_words(v: &Vec<u32>) -> (r: Vec<u32>)
    ensures
        r@ == v@,
{
    let mut r: Vec<u32> = Vec::new();
    let mut i: usize = 0;
    while i < v.len()
        invariant
            i <= v@.len(),
            r@ == v@.take(i as int),
        decreases v@.len() - i,
    {
        r.push(v[i]);
        assert(v@.take(i + 1) =~= v@.take(i as int).push(v@[i as int]));
        i = i + 1;
    }
    assert(v@.take(i as int) =~= v@);
    r
}

fn copy_path(p: &ScPath) -> (r: ScPath)
    ensures
        r@ == p@,
{
    let mut levels: Vec<Vec<u32>> = Vec::new();
    let mut d: usize = 0;
    while d < p.levels.len()
        invariant
            d <= p.levels@.len(),
            level_views(levels@) == level_views(p.levels@).take(d as int),
        decreases p.levels@.len() - d,
    {
        let ghost before = levels@;
        levels.push(copy_words(&p.levels[d]));
        proof {
            let whole = level_views(p.levels@);
            assert(whole.take(d + 1) =~= whole.take(d as int).push(whole[d as int]));
            assert(level_views(levels@) =~= level_views(before).push(whole[d as int]));
        }
        d = d + 1;
    }
    assert(level_views(p.levels@).take(d as int) =~= level_views(p.levels@));
    let decoded: Vec<u8> = crate::slices::to_vector(p.decoded.as_slice());
    ScPath { decoded, metric: p.metric, levels }
}

/// The indices in order of the metrics.
fn metric_order(metrics: &Vec<u32>) -> (order: Vec<usize>)
    ensures
        is_metric_order(metrics@, order@),
{
    let mut order: Vec<usize> = Vec::new();
    let mut i: usize = 0;
    while i < metrics.len()
        invariant
            i <= metrics@.len(),
            order@.len() == i,
            forall|k: int| 0 <= k < i ==> #[trigger] order@[k] < i,
            forall|k: usize| k < i ==> #[trigger] order@.contains(k),
            forall|a: int, b: int|
                0 <= a < b < i ==> comes_first(
                    metrics@,
                    #[trigger] order@[a] as int,
                    #[trigger] order@[b] as int,
                ),
        decreases metrics@.len() - i,
    {
        let m: u32 = metrics[i];
        let mut at: usize = i;
        while at > 0 && metrics[order[at - 1]] > m
            invariant
                i < metrics@.len(),
                m == metrics@[i as int],
                at <= i,
                order@.len() == i,
                forall|k: int| 0 <= k < i ==> #[trigger] order@[k] < i,
                forall|k: int| at <= k < i ==> metrics@[#[trigger] order@[k] as int] > m,
            decreases at,
        {
            at = at - 1;
        }
        let ghost before = order@;
        proof {
            assert forall|k: int| 0 <= k < at implies metrics@[#[trigger] before[k] as int] <= m by {
                if k < at - 1 {
                    assert(comes_first(metrics@, before[k] as int, before[at - 1] as int));
                }
            }
        }
        order.insert(at, i);
        proof {
            assert forall|k: usize| k < i + 1 implies #[trigger] order@.contains(k) by {
                if k == i {
                    assert(order@[at as int] == k);
                } else {
                    assert(before.contains(k));
                    let j = choose|j: int| 0 <= j < before.len() && before[j] == k;
                    if j < at {
                        assert(order@[j] == k);
                    } else {
                        assert(order@[j + 1] == k);
                    }
                }
            }
            assert forall|k: int| 0 <= k < i + 1 implies #[trigger] order@[k] < i + 1 by {
                if k < at {
                    assert(order@[k] == before[k]);
                } else if k > at {
                    assert(order@[k] == before[k - 1]);
                }
            }
            assert forall|a: int, b: int| 0 <= a < b < i + 1 implies comes_first(
                metrics@,
                #[trigger] order@[a] as int,
                #[trigger] order@[b] as int,
            ) by {
                if b < at {
                    assert(order@[a] == before[a] && order@[b] == before[b]);
                } else if b == at {
                    assert(order@[a] == before[a]);
                } else if a < at {
                    assert(order@[a] == before[a] && order@[b] == before[b - 1]);
                } else if a == at {
                    assert(order@[b] == before[b - 1]);
                } else {
                    assert(order@[a] == before[a - 1] && order@[b] == before[b - 1]);
                }
            }
        }
        i = i + 1;
    }
    order
}

fn extend<F: Fn(u32, u32) -> u32>(p: &ScPath, bit: u8, plus: &F) -> (q: ScPath)
    requires
        p@.levels.len() > 0,
        p@.levels.last().len() == 1,
        forall|a: u32, b: u32| call_requires(*plus, (a, b)),
    ensures
        extends(*plus, p@, bit, q@),
{
    let depth: usize = p.levels.len();
    assert(p@.levels.last() == p.levels@[depth - 1]@);
    let llr: u32 = p.levels[depth - 1][0];
    let metric: u32 = plus(p.metric, cost(llr, bit));
    let mut q: ScPath = copy_path(p);
    q.decoded.push(bit);
    q.metric = metric;
    q
}

/// The list after a frozen position.
fn extend_all<F: Fn(u32, u32) -> u32>(
    paths: &Vec<ScPath>,
    plus: &F,
    Ghost(at): Ghost<int>,
    Ghost(sizes): Ghost<Seq<int>>,
    Ghost(size): Ghost<nat>,
) -> (r: Vec<ScPath>)
    requires
        list_shape(path_views(paths@), at, sizes, size),
        sizes.len() > 0,
        sizes.last() == 1,
        forall|a: u32, b: u32| call_requires(*plus, (a, b)),
    ensures
        all_extend(*plus, path_views(paths@), path_views(r@)),
        list_shape(path_views(r@), at + 1, sizes, size),
{
    let mut r: Vec<ScPath> = Vec::new();
    let mut i: usize = 0;
    while i < paths.len()
        invariant
            i <= paths@.len(),
            r@.len() == i,
            list_shape(path_views(paths@), at, sizes, size),
            sizes.len() > 0,
            sizes.last() == 1,
            forall|a: u32, b: u32| call_requires(*plus, (a, b)),
            forall|k: int|
                0 <= k < i ==> extends(*plus, path_views(paths@)[k], 0, #[trigger] path_views(r@)[k]),
            forall|k: int| 0 <= k < i ==> has_shape(#[trigger] path_views(r@)[k], at + 1, sizes),
        decreases paths@.len() - i,
    {
        let ghost before = r@;
        let ghost p = path_views(paths@)[i as int];
        assert(has_shape(p, at, sizes));
        assert(p.levels[sizes.len() - 1].len() == sizes[sizes.len() - 1]);
        let q: ScPath = extend(&paths[i], 0, plus);
        proof {
            lemma_extends_shape(*plus, p, 0, q@, at, sizes);
        }
        r.push(q);
        proof {
            assert forall|k: int| 0 <= k < i + 1 implies extends(
                *plus,
                path_views(paths@)[k],
                0,
                #[trigger] path_views(r@)[k],
            ) && has_shape(path_views(r@)[k], at + 1, sizes) by {
                if k < i {
                    assert(path_views(r@)[k] == path_views(before)[k]);
                }
            }
        }
        i = i + 1;
    }
    r
}

proof fn lemma_extends_shape<F: Fn(u32, u32) -> u32>(
    plus: F,
    p: PathView,
    bit: u8,
    q: PathView,
    at: int,
    sizes: Seq<int>,
)
    requires
        extends(plus, p, bit, q),
        has_shape(p, at, sizes),
        bit <= 1,
    ensures
        has_shape(q, at + 1, sizes),
{
    assert forall|i: int| 0 <= i < q.decoded.len() implies #[trigger] q.decoded[i] <= 1 by {
        if i < at {
            assert(p.decoded[i] <= 1);
        }
    }
}

/// Both extensions of every path.
fn fork_all<F: Fn(u32, u32) -> u32>(
    paths: &Vec<ScPath>,
    plus: &F,
    Ghost(at): Ghost<int>,
    Ghost(sizes): Ghost<Seq<int>>,
    Ghost(size): Ghost<nat>,
) -> (r: Vec<ScPath>)
    requires
        list_shape(path_views(paths@), at, sizes, size),
        sizes.len() > 0,
        sizes.last() == 1,
        forall|a: u32, b: u32| call_requires(*plus, (a, b)),
    ensures
        all_fork(*plus, path_views(paths@), path_views(r@)),
        forall|i: int|
            0 <= i < r@.len() ==> has_shape(#[trigger] path_views(r@)[i], at + 1, sizes),
{
    let mut r: Vec<ScPath> = Vec::new();
    let mut i: usize = 0;
    while i < paths.len()
        invariant
            i <= paths@.len(),
            r@.len() == 2 * i,
            list_shape(path_views(paths@), at, sizes, size),
            sizes.len() > 0,
            sizes.last() == 1,
            forall|a: u32, b: u32| call_requires(*plus, (a, b)),
            forall|k: int|
                0 <= k < i ==> #[trigger] forks_at(*plus, path_views(paths@), path_views(r@), k),
            forall|k: int|
                0 <= k < 2 * i ==> has_shape(#[trigger] path_views(r@)[k], at + 1, sizes),
        decreases paths@.len() - i,
    {
        let ghost before = r@;
        let ghost p = path_views(paths@)[i as int];
        assert(has_shape(p, at, sizes));
        assert(p.levels[sizes.len() - 1].len() == sizes[sizes.len() - 1]);
        let q0: ScPath = extend(&paths[i], 0, plus);
        let q1: ScPath = extend(&paths[i], 1, plus);
        proof {
            lemma_extends_shape(*plus, p, 0, q0@, at, sizes);
            lemma_extends_shape(*plus, p, 1, q1@, at, sizes);
        }
        r.push(q0);
        r.push(q1);
        proof {
            assert forall|k: int| 0 <= k < i + 1 implies #[trigger] forks_at(
                *plus,
                path_views(paths@),
                path_views(r@),
                k,
            ) by {
                if k < i {
                    assert(forks_at(*plus, path_views(paths@), path_views(before), k));
                    assert(path_views(r@)[2 * k] == path_views(before)[2 * k]);
                    assert(path_views(r@)[2 * k + 1] == path_views(before)[2 * k + 1]);
                }
            }
            assert forall|k: int| 0 <= k < 2 * (i + 1) implies has_shape(
                #[trigger] path_views(r@)[k],
                at + 1,
                sizes,
            ) by {
                if k < 2 * i {
                    assert(path_views(r@)[k] == path_views(before)[k]);
                }
            }
        }
        i = i + 1;
    }
    r
}

/// The list after a free position.
fn fork_and_prune<F: Fn(u32, u32) -> u32>(
    paths: &Vec<ScPath>,
    list_size: usize,
    plus: &F,
    Ghost(at): Ghost<int>,
    Ghost(sizes): Ghost<Seq<int>>,
) -> (r: Vec<ScPath>)
    requires
        list_shape(path_views(paths@), at, sizes, list_size as nat),
        sizes.len() > 0,
        sizes.last() == 1,
        forall|a: u32, b: u32| call_requires(*plus, (a, b)),
    ensures
        exists|forks: Seq<PathView>| #[trigger]
            all_fork(*plus, path_views(paths@), forks) && is_pruned(
                forks,
                list_size as nat,
                path_views(r@),
            ),
        list_shape(path_views(r@), at + 1, sizes, list_size as nat),
{
    let forks: Vec<ScPath> = fork_all(
        paths,
        plus,
        Ghost(at),
        Ghost(sizes),
        Ghost(list_size as nat),
    );
    let mut metrics: Vec<u32> = Vec::new();
    let mut i: usize = 0;
    while i < forks.len()
        invariant
            i <= forks@.len(),
            metrics@.len() == i,
            forall|k: int| 0 <= k < i ==> #[trigger] metrics@[k] == forks@[k].metric,
        decreases forks@.len() - i,
    {
        metrics.push(forks[i].metric);
        i = i + 1;
    }
    assert(metrics@ =~= metrics_of(path_views(forks@)));
    let order: Vec<usize> = metric_order(&metrics);
    let count: usize = if forks.len() <= list_size {
        forks.len()
    } else {
        list_size
    };
    let ghost wanted = kept(path_views(forks@), order@, list_size as nat);
    let mut r: Vec<ScPath> = Vec::new();
    let mut i: usize = 0;
    while i < count
        invariant
            i <= count,
            count <= forks@.len(),
            order@.len() == forks@.len(),
            forall|k: int| 0 <= k < order@.len() ==> #[trigger] order@[k] < forks@.len(),
            wanted == kept(path_views(forks@), order@, list_size as nat),
            wanted.len() == count,
            path_views(r@) == wanted.take(i as int),
        decreases count - i,
    {
        let ghost before = r@;
        let q: ScPath = copy_path(&forks[order[i]]);
        r.push(q);
        proof {
            assert(wanted[i as int] == q@);
            assert(path_views(r@) =~= path_views(before).push(q@));
            assert(wanted.take(i + 1) =~= wanted.take(i as int).push(wanted[i as int]));
        }
        i = i + 1;
    }
    proof {
        assert(wanted.take(i as int) =~= wanted);
        assert(all_fork(*plus, path_views(paths@), path_views(forks@)));
        assert(is_pruned(path_views(forks@), list_size as nat, path_views(r@)));
        assert forall|k: int| 0 <= k < r@.len() implies has_shape(
            #[trigger] path_views(r@)[k],
            at + 1,
            sizes,
        ) by {
            assert(path_views(r@)[k] == path_views(forks@)[order@[k] as int]);
        }
    }
    r
}

fn left_of(llr: &Vec<u32>) -> (left: Vec<u32>)
    ensures
        left@ == left_llr(llr@),
{
    let n: usize = llr.len();
    let h: usize = n / 2;
    let mut left: Vec<u32> = Vec::new();
    let mut i: usize = 0;
    while i < h
        invariant
            i <= h,
            2 * h <= n,
            h == n / 2,
            n == llr@.len(),
            left@ == left_llr(llr@).take(i as int),
        decreases h - i,
    {
        left.push(combine(llr[i], llr[h + i]));
        assert(left_llr(llr@).take(i + 1) =~= left_llr(llr@).take(i as int).push(
            left_llr(llr@)[i as int],
        ));
        i = i + 1;
    }
    assert(left_llr(llr@).take(h as int) =~= left_llr(llr@));
    left
}

/// The first half of every path opened.
fn open_all(
    paths: Vec<ScPath>,
    Ghost(at): Ghost<int>,
    Ghost(sizes): Ghost<Seq<int>>,
    Ghost(size): Ghost<nat>,
) -> (r: Vec<ScPath>)
    requires
        list_shape(path_views(paths@), at, sizes, size),
        sizes.len() > 0,
        sizes.last() >= 2,
    ensures
        path_views(r@) == all_open(path_views(paths@)),
        list_shape(path_views(r@), at, sizes.push(sizes.last() / 2), size),
{
    let mut r: Vec<ScPath> = paths;
    let count: usize = r.len();
    let ghost before = path_views(paths@);
    let mut i: usize = 0;
    while i < count
        invariant
            i <= count,
            r@.len() == count,
            before == path_views(paths@),
            before.len() == count,
            list_shape(before, at, sizes, size),
            sizes.len() > 0,
            sizes.last() >= 2,
            forall|k: int|
                0 <= k < count ==> #[trigger] path_views(r@)[k] == (if k < i {
                    open_left(before[k])
                } else {
                    before[k]
                }),
        decreases count - i,
    {
        let ghost old_views = path_views(r@);
        assert(path_views(r@)[i as int] == before[i as int]);
        assert(has_shape(before[i as int], at, sizes));
        let mut p: ScPath = ScPath { decoded: Vec::new(), metric: 0, levels: Vec::new() };
        std::mem::swap(&mut r[i], &mut p);
        let depth: usize = p.levels.len();
        let ghost view = p@;
        assert(view == before[i as int]);
        assert(view.levels.last() == p.levels@[depth - 1]@);
        let left: Vec<u32> = left_of(&p.levels[depth - 1]);
        p.levels.push(left);
        assert(p@.levels =~= view.levels.push(left@));
        assert(p@ == open_left(view));
        r[i] = p;
        proof {
            assert forall|k: int| 0 <= k < count implies #[trigger] path_views(r@)[k] == (if k < i + 1 {
                open_left(before[k])
            } else {
                before[k]
            }) by {
                if k != i {
                    assert(path_views(r@)[k] == old_views[k]);
                }
            }
        }
        i = i + 1;
    }
    proof {
        assert(path_views(r@) =~= all_open(before));
        let wider = sizes.push(sizes.last() / 2);
        assert forall|k: int| 0 <= k < count implies has_shape(#[trigger] path_views(r@)[k], at, wider) by {
            let p = before[k];
            assert(has_shape(p, at, sizes));
            let q = open_left(p);
            assert(p.levels[sizes.len() - 1].len() == sizes[sizes.len() - 1]);
            assert forall|d: int| 0 <= d < wider.len() implies (#[trigger] q.levels[d]).len()
                == wider[d] by {
                if d < sizes.len() {
                    assert(p.levels[d].len() == sizes[d]);
                }
            }
        }
    }
    r
}

/// The likelihoods of the second half, given the transform of the first.
fn right_of<F: Fn(u32, u32) -> u32>(llr: &Vec<u32>, x: &Vec<u8>, plus: &F) -> (right: Vec<u32>)
    requires
        x@.len() == llr@.len() / 2,
        forall|a: u32, b: u32| call_requires(*plus, (a, b)),
    ensures
        is_right_llr(*plus, llr@, x@, right@),
{
    let n: usize = llr.len();
    let h: usize = n / 2;
    let mut right: Vec<u32> = Vec::new();
    let mut j: usize = 0;
    while j < h
        invariant
            j <= h,
            2 * h <= n,
            n == llr@.len(),
            x@.len() == h,
            forall|a: u32, b: u32| call_requires(*plus, (a, b)),
            right@.len() == j,
            forall|k: int|
                0 <= k < j ==> call_ensures(
                    *plus,
                    (llr@[h + k], signed(llr@[k], x@[k])),
                    #[trigger] right@[k],
                ),
        decreases h - j,
    {
        let value: u32 = plus(llr[h + j], with_sign(llr[j], x[j]));
        right.push(value);
        j = j + 1;
    }
    right
}

fn turn<F: Fn(u32, u32) -> u32>(p: ScPath, h: usize, plus: &F) -> (q: ScPath)
    requires
        is_power(h as int),
        p@.decoded.len() >= h,
        p@.levels.len() >= 2,
        p@.levels[p@.levels.len() - 2].len() == 2 * h,
        forall|a: u32, b: u32| call_requires(*plus, (a, b)),
    ensures
        turns(*plus, p@, h as int, q@),
{
    let ghost view = p@;
    let mut q: ScPath = p;
    let total: usize = q.decoded.len();
    let mut x: Vec<u8> = Vec::new();
    let mut i: usize = 0;
    let ghost bits = recent(view.decoded, h as int);
    while i < h
        invariant
            i <= h <= total,
            q@ == view,
            total == view.decoded.len(),
            bits == recent(view.decoded, h as int),
            x@ == bits.take(i as int),
        decreases h - i,
    {
        x.push(q.decoded[total - h + i]);
        assert(bits.take(i + 1) =~= bits.take(i as int).push(bits[i as int]));
        i = i + 1;
    }
    assert(bits.take(h as int) =~= bits);
    polar_transform(&mut x, 0, h);
    proof {
        lemma_polar_len(bits);
        assert(bits.subrange(0, h as int) =~= bits);
        assert(x@.subrange(0, h as int) =~= x@);
    }
    let depth: usize = q.levels.len();
    assert(view.levels[depth - 2] == q.levels@[depth - 2]@);
    let right: Vec<u32> = right_of(&q.levels[depth - 2], &x, plus);
    let ghost levels = q.levels@;
    q.levels.set(depth - 1, right);
    proof {
        assert(q@.levels.drop_last() =~= view.levels.drop_last());
        assert(q@.levels.last() == right@);
    }
    q
}

proof fn lemma_turns_shape<F: Fn(u32, u32) -> u32>(
    plus: F,
    p: PathView,
    h: int,
    q: PathView,
    at: int,
    sizes: Seq<int>,
)
    requires
        has_shape(p, at, sizes),
        turns(plus, p, h, q),
        sizes.len() >= 2,
        sizes.last() == h,
        sizes[sizes.len() - 2] == 2 * h,
    ensures
        has_shape(q, at, sizes),
{
    assert(p.levels[sizes.len() - 2].len() == sizes[sizes.len() - 2]);
    assert forall|d: int| 0 <= d < sizes.len() implies (#[trigger] q.levels[d]).len() == sizes[d] by {
        if d < sizes.len() - 1 {
            assert(q.levels.drop_last()[d] == p.levels.drop_last()[d]);
            assert(p.levels[d].len() == sizes[d]);
        }
    }
}

/// Every path turned to its second half.
fn turn_all<F: Fn(u32, u32) -> u32>(
    paths: Vec<ScPath>,
    h: usize,
    plus: &F,
    Ghost(at): Ghost<int>,
    Ghost(sizes): Ghost<Seq<int>>,
    Ghost(size): Ghost<nat>,
) -> (r: Vec<ScPath>)
    requires
        is_power(h as int),
        at >= h,
        sizes.len() >= 2,
        sizes.last() == h,
        sizes[sizes.len() - 2] == 2 * h,
        list_shape(path_views(paths@), at, sizes, size),
        forall|a: u32, b: u32| call_requires(*plus, (a, b)),
    ensures
        all_turn(*plus, path_views(paths@), h as int, path_views(r@)),
        list_shape(path_views(r@), at, sizes, size),
{
    let mut r: Vec<ScPath> = paths;
    let count: usize = r.len();
    let ghost before = path_views(paths@);
    let mut i: usize = 0;
    while i < count
        invariant
            i <= count,
            r@.len() == count,
            before.len() == count,
            is_power(h as int),
            at >= h,
            sizes.len() >= 2,
            sizes.last() == h,
            sizes[sizes.len() - 2] == 2 * h,
            list_shape(before, at, sizes, size),
            forall|a: u32, b: u32| call_requires(*plus, (a, b)),
            forall|k: int|
                0 <= k < count ==> (if k < i {
                    turns(*plus, before[k], h as int, #[trigger] path_views(r@)[k]) && has_shape(
                        path_views(r@)[k],
                        at,
                        sizes,
                    )
                } else {
                    path_views(r@)[k] == before[k]
                }),
        decreases count - i,
    {
        let ghost old_views = path_views(r@);
        assert(path_views(r@)[i as int] == before[i as int]);
        assert(has_shape(before[i as int], at, sizes));
        let mut p: ScPath = ScPath { decoded: Vec::new(), metric: 0, levels: Vec::new() };
        std::mem::swap(&mut r[i], &mut p);
        assert(p@ == before[i as int]);
        assert(p@.levels[sizes.len() - 2].len() == sizes[sizes.len() - 2]);
        let q: ScPath = turn(p, h, plus);
        proof {
            lemma_turns_shape(*plus, before[i as int], h as int, q@, at, sizes);
        }
        r[i] = q;
        proof {
            assert forall|k: int| 0 <= k < count implies (if k < i + 1 {
                turns(*plus, before[k], h as int, #[trigger] path_views(r@)[k]) && has_shape(
                    path_views(r@)[k],
                    at,
                    sizes,
                )
            } else {
                path_views(r@)[k] == before[k]
            }) by {
                if k != i {
                    assert(path_views(r@)[k] == old_views[k]);
                }
            }
        }
        i = i + 1;
    }
    r
}

/// The innermost node of every path closed.
fn close_all(
    paths: Vec<ScPath>,
    Ghost(at): Ghost<int>,
    Ghost(sizes): Ghost<Seq<int>>,
    Ghost(size): Ghost<nat>,
) -> (r: Vec<ScPath>)
    requires
        sizes.len() > 0,
        list_shape(path_views(paths@), at, sizes, size),
    ensures
        path_views(r@) == all_close(path_views(paths@)),
        list_shape(path_views(r@), at, sizes.drop_last(), size),
{
    let mut r: Vec<ScPath> = paths;
    let count: usize = r.len();
    let ghost before = path_views(paths@);
    let mut i: usize = 0;
    while i < count
        invariant
            i <= count,
            r@.len() == count,
            before.len() == count,
            sizes.len() > 0,
            list_shape(before, at, sizes, size),
            forall|k: int|
                0 <= k < count ==> #[trigger] path_views(r@)[k] == (if k < i {
                    close(before[k])
                } else {
                    before[k]
                }),
        decreases count - i,
    {
        let ghost old_views = path_views(r@);
        assert(path_views(r@)[i as int] == before[i as int]);
        assert(has_shape(before[i as int], at, sizes));
        let mut p: ScPath = ScPath { decoded: Vec::new(), metric: 0, levels: Vec::new() };
        std::mem::swap(&mut r[i], &mut p);
        let ghost view = p@;
        assert(view == before[i as int]);
        let last: Option<Vec<u32>> = p.levels.pop();
        assert(p@.levels =~= view.levels.drop_last());
        assert(p@ == close(view));
        r[i] = p;
        proof {
            assert forall|k: int| 0 <= k < count implies #[trigger] path_views(r@)[k] == (if k < i + 1 {
                close(before[k])
            } else {
                before[k]
            }) by {
                if k != i {
                    assert(path_views(r@)[k] == old_views[k]);
                }
            }
        }
        i = i + 1;
    }
    proof {
        assert(path_views(r@) =~= all_close(before));
        assert forall|k: int| 0 <= k < count implies has_shape(
            #[trigger] path_views(r@)[k],
            at,
            sizes.drop_last(),
        ) by {
            let p = before[k];
            assert(has_shape(p, at, sizes));
            assert forall|d: int| 0 <= d < sizes.len() - 1 implies (#[trigger] close(p).levels[d]).len()
                == sizes.drop_last()[d] by {
                assert(p.levels[d].len() == sizes[d]);
            }
        }
    }
    r
}

/// Carries the list over `len` positions from `start` on.
fn scl_decode_recursive<F: Fn(u32, u32) -> u32>(
    is_frozen: &Vec<bool>,
    start: usize,
    len: usize,
    list_size: usize,
    paths: Vec<ScPath>,
    plus: &F,
    Ghost(sizes): Ghost<Seq<int>>,
) -> (r: Vec<ScPath>)
    requires
        is_power(len as int),
        start + len <= is_frozen@.len(),
        sizes.len() > 0,
        sizes.last() == len,
        list_shape(path_views(paths@), start as int, sizes, list_size as nat),
        forall|a: u32, b: u32| call_requires(*plus, (a, b)),
    ensures
        scl_decides(
            *plus,
            is_frozen@.subrange(start as int, start + len),
            list_size as nat,
            path_views(paths@),
            path_views(r@),
        ),
        list_shape(path_views(r@), start + len, sizes, list_size as nat),
    decreases len,
{
    let ghost frozen = is_frozen@.subrange(start as int, start + len);
    let total: usize = is_frozen.len();
    if len == 1 {
        if is_frozen[start] {
            return extend_all(
                &paths,
                plus,
                Ghost(start as int),
                Ghost(sizes),
                Ghost(list_size as nat),
            );
        } else {
            return fork_and_prune(&paths, list_size, plus, Ghost(start as int), Ghost(sizes));
        }
    }
    let h: usize = len / 2;
    let ghost deeper = sizes.push(h as int);
    let ghost before = path_views(paths@);
    let opened: Vec<ScPath> = open_all(
        paths,
        Ghost(start as int),
        Ghost(sizes),
        Ghost(list_size as nat),
    );
    let mid: Vec<ScPath> = scl_decode_recursive(
        is_frozen,
        start,
        h,
        list_size,
        opened,
        plus,
        Ghost(deeper),
    );
    let ghost mid_views = path_views(mid@);
    let turned: Vec<ScPath> = turn_all(
        mid,
        h,
        plus,
        Ghost(start + h),
        Ghost(deeper),
        Ghost(list_size as nat),
    );
    let ghost turned_views = path_views(turned@);
    let end: Vec<ScPath> = scl_decode_recursive(
        is_frozen,
        start + h,
        h,
        list_size,
        turned,
        plus,
        Ghost(deeper),
    );
    let ghost end_views = path_views(end@);
    let r: Vec<ScPath> = close_all(
        end,
        Ghost(start + len),
        Ghost(deeper),
        Ghost(list_size as nat),
    );
    proof {
        assert(frozen.take(h as int) =~= is_frozen@.subrange(start as int, start + h));
        assert(frozen.skip(h as int) =~= is_frozen@.subrange(start + h, start + len));
        assert(deeper.drop_last() =~= sizes);
        assert(all_turn(*plus, mid_views, h as int, turned_views));
        assert(path_views(r@) == all_close(end_views));
    }
    r
}

/// The list that decoding starts with.
pub open spec fn first_list(llr: Seq<u32>) -> Seq<PathView> {
    seq![PathView { decoded: Seq::empty(), metric: 0, levels: seq![llr] }]
}

/// Decodes with a list: all positions, starting from one path.
pub fn scl_decode<F: Fn(u32, u32) -> u32>(
    llr: &[u32],
    is_frozen: &Vec<bool>,
    list_size: usize,
    plus: &F,
) -> (r: Vec<ScPath>)
    requires
        is_power(llr@.len() as int),
        is_frozen@.len() == llr@.len(),
        list_size >= 1,
        forall|a: u32, b: u32| call_requires(*plus, (a, b)),
    ensures
        scl_decides(*plus, is_frozen@, list_size as nat, first_list(llr@), path_views(r@)),
        1 <= r@.len() <= list_size,
        forall|i: int|
            0 <= i < r@.len() ==> (#[trigger] r@[i]).decoded@.len() == llr@.len() && is_bits(
                r@[i].decoded@,
            ),
{
    let n: usize = llr.len();
    let mut words: Vec<u32> = Vec::new();
    let mut i: usize = 0;
    while i < n
        invariant
            i <= n,
            n == llr@.len(),
            words@ == llr@.take(i as int),
        decreases n - i,
    {
        words.push(llr[i]);
        assert(llr@.take(i + 1) =~= llr@.take(i as int).push(llr@[i as int]));
        i = i + 1;
    }
    assert(llr@.take(i as int) =~= llr@);
    let mut levels: Vec<Vec<u32>> = Vec::new();
    levels.push(words);
    let ghost sizes = seq![n as int];
    let root: ScPath = ScPath { decoded: Vec::new(), metric: 0, levels };
    let mut paths: Vec<ScPath> = Vec::new();
    paths.push(root);
    proof {
        assert(root@.levels =~= seq![llr@]);
        assert(root@.decoded =~= Seq::<u8>::empty());
        assert(path_views(paths@) =~= first_list(llr@));
        assert(has_shape(root@, 0, seq![n as int]));
        assert(is_frozen@.subrange(0, n as int) =~= is_frozen@);
    }
    let r: Vec<ScPath> = scl_decode_recursive(
        is_frozen,
        0,
        n,
        list_size,
        paths,
        plus,
        Ghost(sizes),
    );
    proof {
        assert forall|i: int| 0 <= i < r@.len() implies (#[trigger] r@[i]).decoded@.len() == llr@.len()
            && is_bits(r@[i].decoded@) by {
            assert(has_shape(path_views(r@)[i], n as int, seq![n as int]));
        }
    }
    r
}

/// Adding nothing to a metric keeps it, and adding a cost makes it positive.
pub open spec fn sums_costs<F: Fn(u32, u32) -> u32>(plus: F) -> bool {
    forall|m: u32, c: u32, r: u32|
        #[trigger] call_ensures(plus, (m, c), r) && (m == 0 || positive(m)) ==> (c == 0 ==> r == m)
            && (positive(c) ==> positive(r))
}

/// The first path has decided `bits` at no cost, its likelihoods decide for
/// `truths`, and every other path has a cost.
pub open spec fn leads(paths: Seq<PathView>, bits: Seq<u8>, truths: Seq<Seq<u8>>) -> bool {
    &&& paths.len() >= 1
    &&& paths[0].decoded == bits
    &&& paths[0].metric == 0
    &&& paths[0].levels.len() == truths.len()
    &&& forall|d: int|
        0 <= d < truths.len() ==> all_decide(#[trigger] paths[0].levels[d], truths[d])
    &&& forall|i: int| 1 <= i < paths.len() ==> positive((#[trigger] paths[i]).metric)
}

proof fn lemma_leaf_costs<F: Fn(u32, u32) -> u32>(
    plus: F,
    p: PathView,
    bits: Seq<u8>,
    truths: Seq<Seq<u8>>,
    b: u8,
    bit: u8,
    q: PathView,
)
    requires
        sums_costs(plus),
        leads(seq![p], bits, truths),
        truths.len() > 0,
        truths.last() == seq![b],
        b <= 1,
        bit <= 1,
        extends(plus, p, bit, q),
    ensures
        bit == b ==> leads(seq![q], bits.push(b), truths),
        bit != b ==> positive(q.metric),
{
    assert(seq![p][0] == p);
    let d = truths.len() - 1;
    assert(all_decide(seq![p][0].levels[d], truths[d]));
    assert(decides(p.levels.last()[0], b));
    lemma_patterns(p.levels.last()[0], 0);
    assert(seq![q][0] == q);
    assert forall|d: int| 0 <= d < truths.len() implies all_decide(
        #[trigger] seq![q][0].levels[d],
        truths[d],
    ) by {
        assert(all_decide(seq![p][0].levels[d], truths[d]));
    }
}

proof fn lemma_other_costs<F: Fn(u32, u32) -> u32>(plus: F, p: PathView, bit: u8, q: PathView)
    requires
        sums_costs(plus),
        positive(p.metric),
        extends(plus, p, bit, q),
    ensures
        positive(q.metric),
{
    lemma_patterns(p.levels.last()[0], 0);
}

proof fn lemma_frozen_leads<F: Fn(u32, u32) -> u32>(
    plus: F,
    before: Seq<PathView>,
    after: Seq<PathView>,
    bits: Seq<u8>,
    truths: Seq<Seq<u8>>,
)
    requires
        sums_costs(plus),
        leads(before, bits, truths),
        truths.len() > 0,
        truths.last() == seq![0u8],
        all_extend(plus, before, after),
    ensures
        leads(after, bits.push(0), truths),
{
    assert(extends(plus, before[0], 0, after[0]));
    lemma_lead_only(before, bits, truths);
    lemma_leaf_costs(plus, before[0], bits, truths, 0, 0, after[0]);
    assert(seq![after[0]][0] == after[0]);
    assert forall|i: int| 1 <= i < after.len() implies positive((#[trigger] after[i]).metric) by {
        lemma_other_costs(plus, before[i], 0, after[i]);
    }
    assert forall|d: int| 0 <= d < truths.len() implies all_decide(
        #[trigger] after[0].levels[d],
        truths[d],
    ) by {
        assert(all_decide(seq![after[0]][0].levels[d], truths[d]));
    }
}

proof fn lemma_lead_only(paths: Seq<PathView>, bits: Seq<u8>, truths: Seq<Seq<u8>>)
    requires
        leads(paths, bits, truths),
    ensures
        leads(seq![paths[0]], bits, truths),
{
    let only = seq![paths[0]];
    assert(only[0] == paths[0]);
    assert forall|d: int| 0 <= d < truths.len() implies all_decide(
        #[trigger] only[0].levels[d],
        truths[d],
    ) by {
        assert(all_decide(paths[0].levels[d], truths[d]));
    }
}

proof fn lemma_free_leads<F: Fn(u32, u32) -> u32>(
    plus: F,
    before: Seq<PathView>,
    forks: Seq<PathView>,
    size: nat,
    after: Seq<PathView>,
    bits: Seq<u8>,
    truths: Seq<Seq<u8>>,
    b: u8,
)
    requires
        sums_costs(plus),
        leads(before, bits, truths),
        truths.len() > 0,
        truths.last() == seq![b],
        b <= 1,
        all_fork(plus, before, forks),
        is_pruned(forks, size, after),
        size >= 1,
    ensures
        leads(after, bits.push(b), truths),
{
    let metrics = metrics_of(forks);
    let order = choose|order: Seq<usize>| #[trigger]
        is_metric_order(metrics, order) && after == kept(forks, order, size);
    let t = b as usize;
    assert(forks_at(plus, before, forks, 0));
    lemma_lead_only(before, bits, truths);
    lemma_leaf_costs(plus, before[0], bits, truths, b, 0, forks[0]);
    lemma_leaf_costs(plus, before[0], bits, truths, b, 1, forks[1]);
    assert forall|k: int| 0 <= k < forks.len() && k != t implies positive(
        (#[trigger] forks[k]).metric,
    ) by {
        if k >= 2 {
            let i = k / 2;
            assert(forks_at(plus, before, forks, i));
            assert(positive(before[i].metric));
            if k % 2 == 0 {
                assert(k == 2 * i);
                lemma_other_costs(plus, before[i], 0, forks[k]);
            } else {
                assert(k == 2 * i + 1);
                lemma_other_costs(plus, before[i], 1, forks[k]);
            }
        }
    }
    let lead = forks[t as int];
    assert(leads(seq![lead], bits.push(b), truths));
    assert(seq![lead][0] == lead);
    assert(order.contains(t));
    let at = choose|at: int| 0 <= at < order.len() && order[at] == t;
    if at != 0 {
        assert(comes_first(metrics, order[0] as int, order[at] as int));
        assert(order[0] as int != t as int);
        assert(metrics[order[0] as int] == forks[order[0] as int].metric);
    }
    assert(after[0] == lead);
    assert forall|i: int| 1 <= i < after.len() implies positive((#[trigger] after[i]).metric) by {
        assert(comes_first(metrics, order[0] as int, order[i] as int));
        assert(after[i] == forks[order[i] as int]);
    }
    assert forall|d: int| 0 <= d < truths.len() implies all_decide(
        #[trigger] after[0].levels[d],
        truths[d],
    ) by {
        assert(all_decide(seq![lead][0].levels[d], truths[d]));
    }
}

proof fn lemma_open_leads(paths: Seq<PathView>, bits: Seq<u8>, truths: Seq<Seq<u8>>, w: Seq<u8>)
    requires
        leads(paths, bits, truths),
        truths.len() > 0,
        truths.last() == polar(w),
        is_power(w.len() as int),
        w.len() > 1,
        is_bits(w),
    ensures
        leads(all_open(paths), bits, truths.push(polar(w.take(w.len() as int / 2)))),
{
    let h = w.len() as int / 2;
    let wider = truths.push(polar(w.take(h)));
    let r = all_open(paths);
    let p = paths[0];
    assert(all_decide(p.levels[truths.len() - 1], truths[truths.len() - 1]));
    lemma_left_decides(p.levels.last(), w);
    assert(r[0] == open_left(p));
    assert forall|d: int| 0 <= d < wider.len() implies all_decide(
        #[trigger] r[0].levels[d],
        wider[d],
    ) by {
        if d < truths.len() {
            assert(all_decide(p.levels[d], truths[d]));
        }
    }
    assert forall|i: int| 1 <= i < r.len() implies positive((#[trigger] r[i]).metric) by {
        assert(positive(paths[i].metric));
    }
}

proof fn lemma_turn_leads<F: Fn(u32, u32) -> u32>(
    plus: F,
    mid: Seq<PathView>,
    turned: Seq<PathView>,
    bits: Seq<u8>,
    truths: Seq<Seq<u8>>,
    w: Seq<u8>,
)
    requires
        keeps_sign(plus),
        truths.len() > 0,
        truths.last() == polar(w),
        is_power(w.len() as int),
        w.len() > 1,
        is_bits(w),
        leads(
            mid,
            bits + w.take(w.len() as int / 2),
            truths.push(polar(w.take(w.len() as int / 2))),
        ),
        all_turn(plus, mid, w.len() as int / 2, turned),
    ensures
        leads(
            turned,
            bits + w.take(w.len() as int / 2),
            truths.push(polar(w.skip(w.len() as int / 2))),
        ),
{
    let h = w.len() as int / 2;
    let before = truths.push(polar(w.take(h)));
    let after = truths.push(polar(w.skip(h)));
    let p = mid[0];
    let q = turned[0];
    assert(turns(plus, p, h, q));
    assert(recent(p.decoded, h) =~= w.take(h));
    assert(all_decide(p.levels[truths.len() - 1], before[truths.len() - 1]));
    lemma_right_decides(plus, p.levels[p.levels.len() - 2], w, q.levels.last());
    assert forall|d: int| 0 <= d < after.len() implies all_decide(
        #[trigger] q.levels[d],
        after[d],
    ) by {
        if d < truths.len() {
            assert(all_decide(p.levels[d], before[d]));
            assert(q.levels.drop_last()[d] == p.levels.drop_last()[d]);
        }
    }
    assert forall|i: int| 1 <= i < turned.len() implies positive((#[trigger] turned[i]).metric) by {
        assert(turns(plus, mid[i], h, turned[i]));
        assert(positive(mid[i].metric));
    }
}

proof fn lemma_close_leads(paths: Seq<PathView>, bits: Seq<u8>, truths: Seq<Seq<u8>>, last: Seq<u8>)
    requires
        leads(paths, bits, truths.push(last)),
    ensures
        leads(all_close(paths), bits, truths),
{
    let r = all_close(paths);
    let wider = truths.push(last);
    assert(r[0] == close(paths[0]));
    assert forall|d: int| 0 <= d < truths.len() implies all_decide(
        #[trigger] r[0].levels[d],
        truths[d],
    ) by {
        assert(all_decide(paths[0].levels[d], wider[d]));
    }
    assert forall|i: int| 1 <= i < r.len() implies positive((#[trigger] r[i]).metric) by {
        assert(positive(paths[i].metric));
    }
}

/// Where every likelihood decides for the bit sent, the path of the bits
/// sent stays first, at no cost, and every other path has a cost.
pub proof fn lemma_scl_noiseless<F: Fn(u32, u32) -> u32>(
    plus: F,
    frozen: Seq<bool>,
    size: nat,
    before: Seq<PathView>,
    after: Seq<PathView>,
    bits: Seq<u8>,
    truths: Seq<Seq<u8>>,
    w: Seq<u8>,
)
    requires
        keeps_sign(plus),
        sums_costs(plus),
        size >= 1,
        is_power(w.len() as int),
        frozen.len() == w.len(),
        is_bits(w),
        respects(frozen, w),
        truths.len() > 0,
        truths.last() == polar(w),
        leads(before, bits, truths),
        scl_decides(plus, frozen, size, before, after),
    ensures
        leads(after, bits + w, truths),
    decreases w.len(),
{
    if w.len() <= 1 {
        assert(w =~= seq![w[0]]);
        assert(w[0] <= 1);
        assert(bits + w =~= bits.push(w[0]));
        if frozen[0] {
            assert(w[0] == 0);
            lemma_frozen_leads(plus, before, after, bits, truths);
        } else {
            let forks = choose|forks: Seq<PathView>| #[trigger]
                all_fork(plus, before, forks) && is_pruned(forks, size, after);
            lemma_free_leads(plus, before, forks, size, after, bits, truths, w[0]);
        }
    } else {
        let h = w.len() as int / 2;
        let u = w.take(h);
        let v = w.skip(h);
        let (mid, turned, end) = choose|
            mid: Seq<PathView>,
            turned: Seq<PathView>,
            end: Seq<PathView>,
        |
            #![trigger all_turn(plus, mid, h, turned), all_close(end)]
            {
                &&& scl_decides(plus, frozen.take(h), size, all_open(before), mid)
                &&& all_turn(plus, mid, h, turned)
                &&& scl_decides(plus, frozen.skip(h), size, turned, end)
                &&& after == all_close(end)
            };
        assert forall|i: int| 0 <= i < u.len() implies #[trigger] u[i] <= 1 by {
            assert(w[i] <= 1);
        }
        assert forall|i: int| 0 <= i < v.len() implies #[trigger] v[i] <= 1 by {
            assert(w[h + i] <= 1);
        }
        assert forall|i: int| 0 <= i < h && frozen.take(h)[i] implies #[trigger] u[i] == 0 by {
            assert(frozen[i] && w[i] == 0);
        }
        assert forall|i: int| 0 <= i < h && frozen.skip(h)[i] implies #[trigger] v[i] == 0 by {
            assert(frozen[h + i] && w[h + i] == 0);
        }
        lemma_open_leads(before, bits, truths, w);
        lemma_scl_noiseless(
            plus,
            frozen.take(h),
            size,
            all_open(before),
            mid,
            bits,
            truths.push(polar(u)),
            u,
        );
        lemma_turn_leads(plus, mid, turned, bits, truths, w);
        lemma_scl_noiseless(
            plus,
            frozen.skip(h),
            size,
            turned,
            end,
            bits + u,
            truths.push(polar(v)),
            v,
        );
        lemma_close_leads(end, bits + u + v, truths, polar(v));
        assert(bits + u + v =~= bits + w);
    }
}

} // verus!
