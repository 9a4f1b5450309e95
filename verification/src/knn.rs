//! Nearest-neighbour vote over the partitioned KD-tree.
//!
//! The search keeps the five best neighbours. It descends the tree of the query's own partition,
//! nearer child first, and skips every subtree whose bounding box is no nearer than the fifth best;
//! then it does the same for the other partitions in order of their boxes' distance. It stops as soon
//! as the fifth best is within `EARLY_DISTANCE_LIMIT`.
use crate::best::{
    early_done, empty_best, insert_best, label_sum, law_votes_count_labels, offer, offer_all, pairs,
    sum_labels, votes, Scored,
};
use crate::bytes::read_i16;
use crate::consts::{EARLY_DISTANCE_LIMIT, LANES, TOP_K, VECTOR_DIM, QueryVector};
use crate::kdtree::{
    blocks_for, box_distance, distance, ints, lemma_distance_bounds, lower_bound_vec, read_node,
    read_partition, KdBlob, Node, Partition,
};
use crate::sort::{first_i64, law_stable_sort, sort_by_i64, stable_sort};
use vstd::prelude::*;

verus! {

/// Far children that a search can keep for later.
pub const STACK_SIZE: usize = 128;

/// Partitions that one query can probe besides its own.
pub const MAX_PROBES: usize = 256;

/// What a search has found, and whether it stopped early.
pub type Found = (Seq<Scored>, bool);

/// Scanning `items` block by block, stopping behind the first block that makes the fifth best small
/// enough.
pub open spec fn scan(best: Seq<Scored>, items: Seq<Scored>) -> Found
    decreases items.len(),
{
    if items.len() == 0 {
        (best, false)
    } else {
        let n = if items.len() < LANES {
            items.len() as int
        } else {
            LANES as int
        };
        let after = offer_all(best, items.take(n));
        if after[TOP_K - 1].0 <= EARLY_DISTANCE_LIMIT {
            (after, true)
        } else {
            scan(after, items.skip(n))
        }
    }
}

/// Distance of `q` to the box of node `i`.
pub open spec fn node_bound(blob: &KdBlob, q: Seq<int>, i: int) -> int {
    box_distance(q, blob.node(i).min, blob.node(i).max, VECTOR_DIM as int)
}

/// The child of node `i` that is searched first.
pub open spec fn near_child(blob: &KdBlob, q: Seq<int>, i: int) -> int {
    let n = blob.node(i);
    if node_bound(blob, q, n.left) <= node_bound(blob, q, n.right) {
        n.left
    } else {
        n.right
    }
}

/// The child of node `i` that is searched last.
pub open spec fn far_child(blob: &KdBlob, q: Seq<int>, i: int) -> int {
    let n = blob.node(i);
    if node_bound(blob, q, n.left) <= node_bound(blob, q, n.right) {
        n.right
    } else {
        n.left
    }
}

/// Whether the far child of node `i` is kept for later, with `depth` others waiting.
pub open spec fn far_waits(blob: &KdBlob, q: Seq<int>, i: int, depth: int, best: Seq<Scored>) -> bool {
    node_bound(blob, q, far_child(blob, q, i)) < best[TOP_K - 1].0 && depth < STACK_SIZE
}

/// Searching below node `i`, whose box is at distance `bound`, with `depth` subtrees waiting.
#[verifier::opaque]
pub open spec fn visit(
    blob: &KdBlob,
    h: Seq<nat>,
    q: Seq<int>,
    i: int,
    bound: int,
    depth: int,
    best: Seq<Scored>,
) -> Found
    decreases h[i],
{
    let n = blob.node(i);
    if bound >= best[TOP_K - 1].0 {
        (best, false)
    } else if n.left < 0 {
        scan(best, blob.leaf_points(q, n.start, n.len))
    } else if h[n.left] < h[i] && h[n.right] < h[i] {
        let near = near_child(blob, q, i);
        let far = far_child(blob, q, i);
        if far_waits(blob, q, i, depth, best) {
            let first = visit(blob, h, q, near, node_bound(blob, q, near), depth + 1, best);
            if first.1 {
                first
            } else {
                visit(blob, h, q, far, node_bound(blob, q, far), depth, first.0)
            }
        } else {
            visit(blob, h, q, near, node_bound(blob, q, near), depth, best)
        }
    } else {
        (best, false)
    }
}

/// Searching the waiting subtrees, the last one first.
#[verifier::opaque]
pub open spec fn drain(
    blob: &KdBlob,
    h: Seq<nat>,
    q: Seq<int>,
    waiting: Seq<(int, int)>,
    best: Seq<Scored>,
) -> Found
    decreases waiting.len(),
{
    if waiting.len() == 0 {
        (best, false)
    } else {
        let top = waiting.last();
        let first = visit(blob, h, q, top.0, top.1, waiting.len() - 1, best);
        if first.1 {
            first
        } else {
            drain(blob, h, q, waiting.drop_last(), first.0)
        }
    }
}

/// Searching the tree at `root`, whose box is at distance `bound`; nothing if `root` is no node.
pub open spec fn search_tree(
    blob: &KdBlob,
    q: Seq<int>,
    root: int,
    bound: int,
    best: Seq<Scored>,
) -> Found {
    if root < 0 || root >= blob.node_count {
        (best, false)
    } else {
        let found = visit(blob, blob.heights(), q, root, bound, 0, best);
        (found.0, found.0[TOP_K - 1].0 <= EARLY_DISTANCE_LIMIT)
    }
}

/// Distance of `q` to the box of partition `i`.
pub open spec fn part_bound(blob: &KdBlob, q: Seq<int>, i: int) -> int {
    box_distance(q, blob.partition(i).min, blob.partition(i).max, VECTOR_DIM as int)
}

/// The partitions below `n` that are worth probing, with their distances: not `primary`, nearer than
/// the fifth best, and no more than `MAX_PROBES` of them.
pub open spec fn probes(
    blob: &KdBlob,
    q: Seq<int>,
    primary: int,
    best: Seq<Scored>,
    n: int,
) -> Seq<(i64, u32)>
    decreases n,
{
    if n <= 0 {
        Seq::empty()
    } else {
        let before = probes(blob, q, primary, best, n - 1);
        if n - 1 != primary && part_bound(blob, q, n - 1) < best[TOP_K - 1].0 && before.len()
            < MAX_PROBES {
            before.push((part_bound(blob, q, n - 1) as i64, (n - 1) as u32))
        } else {
            before
        }
    }
}

/// Probing the listed partitions in order, up to the first one that is no nearer than the fifth best
/// or whose search stops early.
pub open spec fn sweep(blob: &KdBlob, q: Seq<int>, list: Seq<(i64, u32)>, best: Seq<Scored>) -> Seq<
    Scored,
>
    decreases list.len(),
{
    if list.len() == 0 || list[0].0 >= best[TOP_K - 1].0 {
        best
    } else {
        let found = search_tree(
            blob,
            q,
            blob.partition(list[0].1 as int).root,
            list[0].0 as int,
            best,
        );
        if found.1 {
            found.0
        } else {
            sweep(blob, q, list.skip(1), found.0)
        }
    }
}

/// What the search of the query's own partition finds.
pub open spec fn own_partition(blob: &KdBlob, q: Seq<int>, primary: int) -> Found {
    if primary >= 0 {
        search_tree(blob, q, blob.partition(primary).root, 0, empty_best())
    } else {
        (empty_best(), false)
    }
}

/// The five neighbours that vote on `q`, whose own partition is `primary`.
pub open spec fn neighbours(blob: &KdBlob, q: Seq<int>, primary: int) -> Seq<Scored> {
    let own = own_partition(blob, q, primary);
    if own.1 {
        own.0
    } else {
        let list = probes(blob, q, primary, own.0, blob.part_count as int);
        sweep(blob, q, stable_sort(list, first_i64()), own.0)
    }
}

/// Every label is zero or one.
pub open spec fn binary(best: Seq<Scored>) -> bool {
    best.len() == TOP_K && forall|i: int| 0 <= i < best.len() ==> (#[trigger] best[i]).1 <= 1
}

proof fn lemma_offer_binary(best: Seq<Scored>, item: Scored)
    requires
        binary(best),
        item.1 <= 1,
    ensures
        binary(offer(best, item)),
{
    if item.0 < best[TOP_K - 1].0 {
        crate::best::lemma_insert_pos(best, item.0, TOP_K - 1);
    }
}

proof fn lemma_offer_all_binary(best: Seq<Scored>, items: Seq<Scored>)
    requires
        binary(best),
        forall|i: int| 0 <= i < items.len() ==> (#[trigger] items[i]).1 <= 1,
    ensures
        binary(offer_all(best, items)),
    decreases items.len(),
{
    if items.len() > 0 {
        assert forall|i: int| 0 <= i < items.drop_last().len() implies (#[trigger] items.drop_last()[i]).1
            <= 1 by {
            assert(items[i].1 <= 1);
        }
        lemma_offer_all_binary(best, items.drop_last());
        assert(items[items.len() - 1].1 <= 1);
        lemma_offer_binary(offer_all(best, items.drop_last()), items.last());
    }
}

proof fn lemma_offer_all_step(best: Seq<Scored>, items: Seq<Scored>, k: int)
    requires
        0 <= k < items.len(),
    ensures
        offer_all(best, items.take(k + 1)) == offer(offer_all(best, items.take(k)), items[k]),
{
    assert(items.take(k + 1).drop_last() =~= items.take(k));
}

/// The eight distances of one block, dimension by dimension.
pub fn distance_block8(blob: &KdBlob, block: usize, query: &QueryVector) -> (out: [i64; LANES])
    requires
        (block + 1) * LANES * VECTOR_DIM * 2 <= blob.vectors.len(),
    ensures
        forall|lane: int|
            0 <= lane < LANES ==> #[trigger] out@[lane] == distance(
                ints(query@),
                blob.vector(block * LANES + lane),
                VECTOR_DIM as int,
            ),
{
    let ghost q = ints(query@);
    let mut out: [i64; LANES] = [0; LANES];
    let base: usize = block * VECTOR_DIM * LANES;
    for d in 0..VECTOR_DIM
        invariant
            q == ints(query@),
            base == block * VECTOR_DIM * LANES,
            (block + 1) * LANES * VECTOR_DIM * 2 <= blob.vectors.len(),
            forall|lane: int|
                0 <= lane < LANES ==> #[trigger] out@[lane] == distance(
                    q,
                    blob.vector(block * LANES + lane),
                    d as int,
                ),
    {
        let x: i64 = query[d] as i64;
        for lane in 0..LANES
            invariant
                q == ints(query@),
                d < VECTOR_DIM,
                x == q[d as int],
                base == block * VECTOR_DIM * LANES,
                (block + 1) * LANES * VECTOR_DIM * 2 <= blob.vectors.len(),
                forall|l: int|
                    0 <= l < lane ==> #[trigger] out@[l] == distance(
                        q,
                        blob.vector(block * LANES + l),
                        d + 1,
                    ),
                forall|l: int|
                    lane <= l < LANES ==> #[trigger] out@[l] == distance(
                        q,
                        blob.vector(block * LANES + l),
                        d as int,
                    ),
        {
            let v: i16 = read_i16(blob.vectors, 2 * (base + d * LANES + lane));
            let diff: i64 = v as i64 - x;
            proof {
                let slot = block * LANES + lane;
                assert(slot / LANES as int == block && slot % LANES as int == lane);
                assert(blob.vector(slot)[d as int] == v);
                lemma_distance_bounds(q, blob.vector(slot), d as int);
                assert(0 <= diff * diff <= 4294836225) by (nonlinear_arith)
                    requires
                        -65535 <= diff <= 65535,
                ;
            }
            out[lane] = out[lane] + diff * diff;
        }
    }
    out
}

/// Offers the `len` vectors from block `start_block` on. Returns whether the search can stop.
pub fn scan_leaf(
    blob: &KdBlob,
    start_block: i32,
    len: i32,
    query: &QueryVector,
    best_dists: &mut [i64; TOP_K],
    best_labels: &mut [u8; TOP_K],
) -> (done: bool)
    requires
        0 <= start_block,
        0 <= len,
        (start_block + blocks_for(len as int)) * LANES <= blob.labels.len(),
        (start_block + blocks_for(len as int)) * LANES * VECTOR_DIM * 2 <= blob.vectors.len(),
    ensures
        (pairs(final(best_dists)@, final(best_labels)@), done) == scan(
            pairs(old(best_dists)@, old(best_labels)@),
            blob.leaf_points(ints(query@), start_block as int, len as int),
        ),
{
    let ghost q = ints(query@);
    let ghost items = blob.leaf_points(q, start_block as int, len as int);
    let ghost before = pairs(best_dists@, best_labels@);
    let total: usize = len as usize;
    let first: usize = start_block as usize;
    let mut b: usize = 0;
    assert(items.skip(0) =~= items);
    while b * LANES < total
        invariant
            q == ints(query@),
            items == blob.leaf_points(q, start_block as int, len as int),
            total == len,
            first == start_block,
            b <= total,
            b * LANES < total + LANES,
            total <= i32::MAX,
            first <= i32::MAX,
            (start_block + blocks_for(len as int)) * LANES <= blob.labels.len(),
            (start_block + blocks_for(len as int)) * LANES * VECTOR_DIM * 2 <= blob.vectors.len(),
            before == pairs(old(best_dists)@, old(best_labels)@),
            b * LANES <= total ==> scan(before, items) == scan(
                pairs(best_dists@, best_labels@),
                items.skip(b * LANES),
            ),
            b * LANES > total ==> scan(before, items) == (
                pairs(best_dists@, best_labels@),
                false,
            ),
        decreases total + LANES - b * LANES,
    {
        let block: usize = first + b;
        assert(b + 1 <= blocks_for(len as int));
        let dists: [i64; LANES] = distance_block8(blob, block, query);
        let rest: usize = total - b * LANES;
        let lanes: usize = if rest < LANES {
            rest
        } else {
            LANES
        };
        let ghost start = pairs(best_dists@, best_labels@);
        let ghost left = items.skip(b * LANES);
        let ghost chunk = left.take(lanes as int);
        assert(chunk.take(0) =~= Seq::empty());
        for lane in 0..lanes
            invariant
                q == ints(query@),
                lanes <= LANES,
                block == first + b,
                first == start_block,
                items == blob.leaf_points(q, start_block as int, len as int),
                b * LANES + lanes <= len,
                chunk == items.skip(b * LANES).take(lanes as int),
                block * LANES + LANES <= blob.labels.len(),
                (block + 1) * LANES * VECTOR_DIM * 2 <= blob.vectors.len(),
                forall|l: int|
                    0 <= l < LANES ==> #[trigger] dists@[l] == distance(
                        q,
                        blob.vector(block * LANES + l),
                        VECTOR_DIM as int,
                    ),
                pairs(best_dists@, best_labels@) == offer_all(start, chunk.take(lane as int)),
        {
            let label: u8 = blob.labels[block * LANES + lane];
            proof {
                lemma_offer_all_step(start, chunk, lane as int);
                assert(start_block * LANES + (b * LANES + lane) == block * LANES + lane);
                assert(dists@[lane as int] == distance(
                    q,
                    blob.vector(block * LANES + lane),
                    VECTOR_DIM as int,
                ));
                assert(chunk[lane as int] == (dists@[lane as int], label));
            }
            insert_best(dists[lane], label, best_dists, best_labels);
        }
        proof {
            assert(chunk.take(lanes as int) =~= chunk);
            if lanes == LANES {
                assert(left.skip(LANES as int) =~= items.skip((b + 1) * LANES));
            } else {
                assert(left.skip(lanes as int) =~= Seq::empty());
            }
        }
        if early_done(best_dists) {
            return true;
        }
        proof {
            let now = pairs(best_dists@, best_labels@);
            assert(scan(now, Seq::empty()) == (now, false));
            assert(scan(start, left) == scan(now, left.skip(lanes as int)));
        }
        b = b + 1;
    }
    assert(b * LANES == total ==> items.skip(b * LANES) =~= Seq::empty());
    false
}

/// Nodes in the tree at `i`.
#[verifier::opaque]
pub open spec fn tree_size(blob: &KdBlob, h: Seq<nat>, i: int) -> nat
    decreases h[i],
{
    let n = blob.node(i);
    if n.left >= 0 && h[n.left] < h[i] && h[n.right] < h[i] {
        1 + tree_size(blob, h, n.left) + tree_size(blob, h, n.right)
    } else {
        1
    }
}

/// Nodes in the waiting subtrees.
#[verifier::opaque]
pub open spec fn waiting_size(blob: &KdBlob, h: Seq<nat>, waiting: Seq<(int, int)>) -> nat
    decreases waiting.len(),
{
    if waiting.len() == 0 {
        0
    } else {
        waiting_size(blob, h, waiting.drop_last()) + tree_size(blob, h, waiting.last().0)
    }
}

/// The subtrees that wait in the first `sp` stack slots.
pub open spec fn waiting_in(nodes: Seq<i32>, bounds: Seq<i64>, sp: int) -> Seq<(int, int)> {
    Seq::new(sp as nat, |k: int| (nodes[k] as int, bounds[k] as int))
}

/// Searching below `current` and then the waiting subtrees.
#[verifier::opaque]
pub open spec fn resume(
    blob: &KdBlob,
    h: Seq<nat>,
    q: Seq<int>,
    current: int,
    bound: int,
    waiting: Seq<(int, int)>,
    best: Seq<Scored>,
) -> Found {
    let first = visit(blob, h, q, current, bound, waiting.len() as int, best);
    if first.1 {
        first
    } else {
        drain(blob, h, q, waiting, first.0)
    }
}

/// A scan that stops early has a small fifth best.
pub proof fn law_scan_stops_early(best: Seq<Scored>, items: Seq<Scored>)
    ensures
        scan(best, items).1 ==> scan(best, items).0[TOP_K - 1].0 <= EARLY_DISTANCE_LIMIT,
    decreases items.len(),
{
    if items.len() > 0 {
        let n = if items.len() < LANES {
            items.len() as int
        } else {
            LANES as int
        };
        law_scan_stops_early(offer_all(best, items.take(n)), items.skip(n));
    }
}

proof fn lemma_resume_pruned(
    blob: &KdBlob,
    h: Seq<nat>,
    q: Seq<int>,
    i: int,
    bound: int,
    waiting: Seq<(int, int)>,
    best: Seq<Scored>,
)
    requires
        bound >= best[TOP_K - 1].0,
    ensures
        resume(blob, h, q, i, bound, waiting, best) == drain(blob, h, q, waiting, best),
        tree_size(blob, h, i) >= 1,
{
    reveal(resume);
    reveal(visit);
    reveal(tree_size);
}

proof fn lemma_resume_leaf(
    blob: &KdBlob,
    h: Seq<nat>,
    q: Seq<int>,
    i: int,
    bound: int,
    waiting: Seq<(int, int)>,
    best: Seq<Scored>,
)
    requires
        bound < best[TOP_K - 1].0,
        blob.node(i).left < 0,
    ensures
        ({
            let found = scan(best, blob.leaf_points(q, blob.node(i).start, blob.node(i).len));
            resume(blob, h, q, i, bound, waiting, best) == if found.1 {
                found
            } else {
                drain(blob, h, q, waiting, found.0)
            }
        }),
        tree_size(blob, h, i) >= 1,
{
    reveal(resume);
    reveal(visit);
    reveal(tree_size);
}

proof fn lemma_drain(
    blob: &KdBlob,
    h: Seq<nat>,
    q: Seq<int>,
    waiting: Seq<(int, int)>,
    best: Seq<Scored>,
)
    ensures
        waiting.len() == 0 ==> drain(blob, h, q, waiting, best) == (best, false),
        waiting.len() > 0 ==> drain(blob, h, q, waiting, best) == resume(
            blob,
            h,
            q,
            waiting.last().0,
            waiting.last().1,
            waiting.drop_last(),
            best,
        ),
        waiting.len() > 0 ==> waiting_size(blob, h, waiting) == waiting_size(
            blob,
            h,
            waiting.drop_last(),
        ) + tree_size(blob, h, waiting.last().0),
{
    reveal(drain);
    reveal(resume);
    reveal(waiting_size);
}

proof fn lemma_resume_inner(
    blob: &KdBlob,
    h: Seq<nat>,
    q: Seq<int>,
    i: int,
    bound: int,
    waiting: Seq<(int, int)>,
    best: Seq<Scored>,
)
    requires
        bound < best[TOP_K - 1].0,
        blob.node(i).left >= 0,
        h[blob.node(i).left] < h[i],
        h[blob.node(i).right] < h[i],
    ensures
        ({
            let near = near_child(blob, q, i);
            let far = far_child(blob, q, i);
            let near_b = node_bound(blob, q, near);
            let more = waiting.push((far, node_bound(blob, q, far)));
            &&& far_waits(blob, q, i, waiting.len() as int, best) ==> {
                &&& resume(blob, h, q, i, bound, waiting, best) == resume(
                    blob,
                    h,
                    q,
                    near,
                    near_b,
                    more,
                    best,
                )
                &&& waiting_size(blob, h, more) == waiting_size(blob, h, waiting) + tree_size(
                    blob,
                    h,
                    far,
                )
            }
            &&& !far_waits(blob, q, i, waiting.len() as int, best) ==> resume(
                blob,
                h,
                q,
                i,
                bound,
                waiting,
                best,
            ) == resume(blob, h, q, near, near_b, waiting, best)
            &&& tree_size(blob, h, i) == 1 + tree_size(blob, h, near) + tree_size(blob, h, far)
        }),
{
    reveal(resume);
    reveal(visit);
    reveal(tree_size);
    let near = near_child(blob, q, i);
    let far = far_child(blob, q, i);
    let more = waiting.push((far, node_bound(blob, q, far)));
    let first = visit(
        blob,
        h,
        q,
        near,
        node_bound(blob, q, near),
        waiting.len() as int + 1,
        best,
    );
    assert(more.drop_last() =~= waiting);
    lemma_drain(blob, h, q, more, first.0);
}

/// Searches the tree at `root`. Returns whether the search can stop.
pub fn search_node(
    blob: &KdBlob,
    root: i32,
    root_bound: i64,
    query: &QueryVector,
    best_dists: &mut [i64; TOP_K],
    best_labels: &mut [u8; TOP_K],
) -> (done: bool)
    requires
        blob.wf(),
    ensures
        (pairs(final(best_dists)@, final(best_labels)@), done) == search_tree(
            blob,
            ints(query@),
            root as int,
            root_bound as int,
            pairs(old(best_dists)@, old(best_labels)@),
        ),
{
    if root < 0 || root as u32 >= blob.node_count {
        return false;
    }
    let ghost q = ints(query@);
    let ghost h = blob.heights();
    let ghost before = pairs(best_dists@, best_labels@);
    let ghost goal = visit(blob, h, q, root as int, root_bound as int, 0, before);
    let mut stack_node: [i32; STACK_SIZE] = [0; STACK_SIZE];
    let mut stack_bound: [i64; STACK_SIZE] = [0; STACK_SIZE];
    let mut sp: usize = 0;
    let mut current: i32 = root;
    let mut current_bound: i64 = root_bound;
    proof {
        assert(waiting_in(stack_node@, stack_bound@, 0) =~= Seq::empty());
        reveal(resume);
        lemma_drain(blob, h, q, Seq::empty(), goal.0);
    }
    loop
        invariant_except_break
            goal == resume(
                blob,
                h,
                q,
                current as int,
                current_bound as int,
                waiting_in(stack_node@, stack_bound@, sp as int),
                pairs(best_dists@, best_labels@),
            ),
        invariant
            blob.wf(),
            q == ints(query@),
            h == blob.heights(),
            blob.ranks(h),
            0 <= root < blob.node_count,
            goal == visit(blob, h, q, root as int, root_bound as int, 0, before),
            before == pairs(old(best_dists)@, old(best_labels)@),
            sp <= STACK_SIZE,
            0 <= current < blob.node_count,
            forall|k: int| 0 <= k < sp ==> 0 <= #[trigger] stack_node@[k] < blob.node_count,
        ensures
            blob.wf(),
            goal == (pairs(best_dists@, best_labels@), false),
        decreases
            tree_size(blob, h, current as int) + waiting_size(
                blob,
                h,
                waiting_in(stack_node@, stack_bound@, sp as int),
            ),
    {
        let ghost now = pairs(best_dists@, best_labels@);
        let ghost waiting = waiting_in(stack_node@, stack_bound@, sp as int);
        let ghost i = current as int;
        assert(waiting.len() == sp);
        if current_bound < best_dists[TOP_K - 1] {
            let node: Node = read_node(blob, current as usize);
            assert(node@ == blob.node(i));
            if node.left < 0 {
                proof {
                    lemma_resume_leaf(blob, h, q, i, current_bound as int, waiting, now);
                    law_scan_stops_early(
                        now,
                        blob.leaf_points(q, node.start as int, node.len as int),
                    );
                }
                if scan_leaf(blob, node.start, node.len, query, best_dists, best_labels) {
                    return true;
                }
            } else {
                proof {
                    assert(h[i] > h[node@.left] && h[i] > h[node@.right]);
                    lemma_resume_inner(blob, h, q, i, current_bound as int, waiting, now);
                }
                let l: Node = read_node(blob, node.left as usize);
                let r: Node = read_node(blob, node.right as usize);
                let lb: i64 = lower_bound_vec(query, &l.min, &l.max);
                let rb: i64 = lower_bound_vec(query, &r.min, &r.max);
                let (near, near_b, far, far_b) = if lb <= rb {
                    (node.left, lb, node.right, rb)
                } else {
                    (node.right, rb, node.left, lb)
                };
                assert(near == near_child(blob, q, i) && far == far_child(blob, q, i));
                if far_b < best_dists[TOP_K - 1] && sp < STACK_SIZE {
                    stack_node[sp] = far;
                    stack_bound[sp] = far_b;
                    sp = sp + 1;
                    proof {
                        let more = waiting_in(stack_node@, stack_bound@, sp as int);
                        assert(more =~= waiting.push((far as int, far_b as int)));
                    }
                }
                current = near;
                current_bound = near_b;
                continue;
            }
        } else {
            proof {
                lemma_resume_pruned(blob, h, q, i, current_bound as int, waiting, now);
            }
        }
        proof {
            lemma_drain(blob, h, q, waiting, pairs(best_dists@, best_labels@));
        }
        assert(goal == drain(blob, h, q, waiting, pairs(best_dists@, best_labels@)));
        if sp == 0 {
            break;
        }
        sp = sp - 1;
        current = stack_node[sp];
        current_bound = stack_bound[sp];
        proof {
            let fewer = waiting_in(stack_node@, stack_bound@, sp as int);
            assert(fewer =~= waiting.drop_last());
            assert(waiting.last() == (current as int, current_bound as int));
        }
    }
    early_done(best_dists)
}

proof fn lemma_scan_binary(best: Seq<Scored>, items: Seq<Scored>)
    requires
        binary(best),
        forall|i: int| 0 <= i < items.len() ==> (#[trigger] items[i]).1 <= 1,
    ensures
        binary(scan(best, items).0),
    decreases items.len(),
{
    if items.len() > 0 {
        let n = if items.len() < LANES {
            items.len() as int
        } else {
            LANES as int
        };
        lemma_offer_all_binary(best, items.take(n));
        lemma_scan_binary(offer_all(best, items.take(n)), items.skip(n));
    }
}

proof fn lemma_visit_binary(
    blob: &KdBlob,
    h: Seq<nat>,
    q: Seq<int>,
    i: int,
    bound: int,
    depth: int,
    best: Seq<Scored>,
)
    requires
        blob.wf(),
        blob.ranks(h),
        0 <= i < blob.node_count,
        binary(best),
    ensures
        binary(visit(blob, h, q, i, bound, depth, best).0),
    decreases h[i],
{
    reveal(visit);
    let n = blob.node(i);
    if bound >= best[TOP_K - 1].0 {
    } else if n.left < 0 {
        let items = blob.leaf_points(q, n.start, n.len);
        assert forall|k: int| 0 <= k < items.len() implies (#[trigger] items[k]).1 <= 1 by {
            assert(blob.labels@[n.start * LANES + k] <= 1);
        }
        lemma_scan_binary(best, items);
    } else {
        assert(h[i] > h[n.left] && h[i] > h[n.right]);
        let near = near_child(blob, q, i);
        let far = far_child(blob, q, i);
        let near_b = node_bound(blob, q, near);
        if far_waits(blob, q, i, depth, best) {
            lemma_visit_binary(blob, h, q, near, near_b, depth + 1, best);
            let first = visit(blob, h, q, near, near_b, depth + 1, best);
            lemma_visit_binary(blob, h, q, far, node_bound(blob, q, far), depth, first.0);
        } else {
            lemma_visit_binary(blob, h, q, near, near_b, depth, best);
        }
    }
}

proof fn lemma_search_binary(
    blob: &KdBlob,
    q: Seq<int>,
    root: int,
    bound: int,
    best: Seq<Scored>,
)
    requires
        blob.wf(),
        binary(best),
    ensures
        binary(search_tree(blob, q, root, bound, best).0),
{
    if 0 <= root < blob.node_count {
        lemma_visit_binary(blob, blob.heights(), q, root, bound, 0, best);
    }
}

proof fn lemma_votes(best: Seq<Scored>, labels: Seq<u8>, n: int)
    requires
        binary(best),
        0 <= n <= TOP_K,
        forall|i: int| 0 <= i < TOP_K ==> labels[i] == (#[trigger] best[i]).1,
    ensures
        label_sum(labels, n) == label_sum(best.map_values(|p: Scored| p.1), n),
        0 <= label_sum(labels, n) <= n,
    decreases n,
{
    if n > 0 {
        lemma_votes(best, labels, n - 1);
        assert(best[n - 1].1 <= 1);
    }
}

/// The partitions worth probing after the own one was searched, in storage order.
fn collect_probes(blob: &KdBlob, query: &QueryVector, primary: i32, worst: i64, Ghost(best): Ghost<
    Seq<Scored>,
>) -> (list: Vec<(i64, u32)>)
    requires
        blob.wf(),
        worst == best[TOP_K - 1].0,
    ensures
        list@ == probes(blob, ints(query@), primary as int, best, blob.part_count as int),
        forall|k: int| 0 <= k < list@.len() ==> (#[trigger] list@[k]).1 < blob.part_count,
{
    let ghost q = ints(query@);
    let mut list: Vec<(i64, u32)> = Vec::new();
    for i in 0..blob.part_count
        invariant
            blob.wf(),
            q == ints(query@),
            worst == best[TOP_K - 1].0,
            list@ == probes(blob, q, primary as int, best, i as int),
            forall|k: int| 0 <= k < list@.len() ==> (#[trigger] list@[k]).1 < i,
    {
        let p: Partition = read_partition(blob, i as usize);
        let lb: i64 = lower_bound_vec(query, &p.min, &p.max);
        assert(p@ == blob.partition(i as int));
        assert(lb == part_bound(blob, q, i as int));
        if i as i64 != primary as i64 && lb < worst && list.len() < MAX_PROBES {
            list.push((lb, i));
        }
    }
    list
}

/// Counts the fraud labels among the five neighbours of `query`. `primary` is the index of the
/// query's own partition, or negative if it has none.
pub fn fraud_count(blob: &KdBlob, query: &QueryVector, primary: i32) -> (count: u8)
    requires
        blob.wf(),
        primary < blob.part_count,
    ensures
        count == votes(neighbours(blob, ints(query@), primary as int)),
        count <= TOP_K,
        ({
            let five = neighbours(blob, ints(query@), primary as int);
            count == five[0].1 + five[1].1 + five[2].1 + five[3].1 + five[4].1
        }),
{
    let ghost q = ints(query@);
    let mut best_dists: [i64; TOP_K] = [i64::MAX; TOP_K];
    let mut best_labels: [u8; TOP_K] = [0; TOP_K];
    assert(pairs(best_dists@, best_labels@) =~= empty_best());
    if primary >= 0 {
        let part: Partition = read_partition(blob, primary as usize);
        let done: bool = search_node(blob, part.root, 0, query, &mut best_dists, &mut best_labels);
        proof {
            assert(part@ == blob.partition(primary as int));
            lemma_search_binary(blob, q, part.root as int, 0, empty_best());
            let best = pairs(best_dists@, best_labels@);
            lemma_votes(best, best_labels@, TOP_K as int);
            law_votes_count_labels(best);
        }
        if done {
            return sum_labels(&best_labels);
        }
    }
    let ghost own = pairs(best_dists@, best_labels@);
    assert(own == own_partition(blob, q, primary as int).0);
    let found: Vec<(i64, u32)> = collect_probes(
        blob,
        query,
        primary,
        best_dists[TOP_K - 1],
        Ghost(own),
    );
    let list: Vec<(i64, u32)> = sort_by_i64(&found);
    proof {
        law_stable_sort(found@, first_i64());
        assert forall|k: int| 0 <= k < list@.len() implies (#[trigger] list@[k]).1
            < blob.part_count by {
            broadcast use vstd::seq_lib::group_to_multiset_ensures;

            assert(list@.contains(list@[k]));
            assert(list@.to_multiset().count(list@[k]) > 0);
            assert(found@.contains(list@[k]));
        }
        assert(list@.skip(0) =~= list@);
    }
    let ghost goal = sweep(blob, q, list@, own);
    let mut k: usize = 0;
    while k < list.len()
        invariant_except_break
            goal == sweep(blob, q, list@.skip(k as int), pairs(best_dists@, best_labels@)),
        invariant
            blob.wf(),
            q == ints(query@),
            k <= list.len(),
            forall|j: int| 0 <= j < list@.len() ==> (#[trigger] list@[j]).1 < blob.part_count,
            binary(pairs(best_dists@, best_labels@)),
        ensures
            goal == pairs(best_dists@, best_labels@),
        decreases list.len() - k,
    {
        let (lb, idx): (i64, u32) = list[k];
        assert(list@.skip(k as int)[0] == (lb, idx));
        assert(list@.skip(k as int).skip(1) =~= list@.skip(k + 1));
        if lb >= best_dists[TOP_K - 1] {
            break;
        }
        let part: Partition = read_partition(blob, idx as usize);
        assert(part@ == blob.partition(idx as int));
        proof {
            lemma_search_binary(
                blob,
                q,
                part.root as int,
                lb as int,
                pairs(best_dists@, best_labels@),
            );
        }
        if search_node(blob, part.root, lb, query, &mut best_dists, &mut best_labels) {
            break;
        }
        k = k + 1;
    }
    proof {
        lemma_votes(pairs(best_dists@, best_labels@), best_labels@, TOP_K as int);
        law_votes_count_labels(pairs(best_dists@, best_labels@));
    }
    sum_labels(&best_labels)
}

/// The same search on any processor.
pub fn fraud_count_scalar(blob: &KdBlob, query: &QueryVector, primary: i32) -> (count: u8)
    requires
        blob.wf(),
        primary < blob.part_count,
    ensures
        count == votes(neighbours(blob, ints(query@), primary as int)),
        count <= TOP_K,
        ({
            let five = neighbours(blob, ints(query@), primary as int);
            count == five[0].1 + five[1].1 + five[2].1 + five[3].1 + five[4].1
        }),
{
    fraud_count(blob, query, primary)
}

} // verus!
