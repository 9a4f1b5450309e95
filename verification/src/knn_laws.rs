//! What the KD-tree search guarantees: unless it stops early, it finds the true nearest neighbours.
use crate::best::{
    empty_best, kept, law_empty_nearest, law_far_points_change_nothing, law_offer_nearest, nearest_of,
    offer_all, Scored,
};
use crate::consts::{EARLY_DISTANCE_LIMIT, LANES, TOP_K, VECTOR_DIM};
use crate::kdtree::{
    box_distance, in_box, law_box_is_lower_bound, lemma_box_distance_bounds, lemma_distance_bounds,
    KdBlob,
};
use crate::knn::{
    MAX_PROBES, STACK_SIZE, far_child, far_waits, law_scan_stops_early, near_child, neighbours,
    node_bound, own_partition, part_bound, probes, scan, search_tree, sweep, visit,
};
use crate::sort::{ascending, first_i64, law_stable_sort, lemma_place, place, stable_sort};
use vstd::multiset::Multiset;
use vstd::prelude::*;

verus! {

/// The values of `q` are `i16` values.
pub open spec fn quantized(q: Seq<int>) -> bool {
    forall|d: int| 0 <= d < VECTOR_DIM ==> -32768 <= #[trigger] q[d] <= 32767
}

/// Inner nodes on the longest way down from node `i`.
pub open spec fn tree_depth(blob: &KdBlob, h: Seq<nat>, i: int) -> nat
    decreases h[i],
{
    let n = blob.node(i);
    if n.left >= 0 && h[n.left] < h[i] && h[n.right] < h[i] {
        let l = tree_depth(blob, h, n.left);
        let r = tree_depth(blob, h, n.right);
        1 + if l < r {
            r
        } else {
            l
        }
    } else {
        0
    }
}

/// The index can be searched without leaving anything out: its boxes enclose their vectors, every
/// partition has a tree, no tree is deeper than the search can remember, and there are no more
/// partitions than one query can probe.
pub open spec fn searchable(blob: &KdBlob) -> bool {
    &&& blob.wf()
    &&& blob.boxes_enclose()
    &&& blob.part_count <= MAX_PROBES
    &&& forall|i: int|
        0 <= i < blob.part_count ==> {
            let root = (#[trigger] blob.partition(i)).root;
            0 <= root < blob.node_count && tree_depth(blob, blob.heights(), root) <= STACK_SIZE
        }
}

/// Every point of `m` is at least `bound` away, and has a proper distance.
pub open spec fn beyond(m: Multiset<Scored>, bound: int) -> bool {
    forall|p: Scored| m.count(p) > 0 ==> bound <= #[trigger] p.0 && p.0 < i64::MAX
}

/// `found` lists five nearest of some of the points in `all`.
pub open spec fn nearest_of_some(found: Seq<Scored>, all: Multiset<Scored>) -> bool {
    exists|seen: Multiset<Scored>| #[trigger] nearest_of(found, seen) && seen.subset_of(all)
}

proof fn lemma_some_of_more(found: Seq<Scored>, some: Multiset<Scored>, all: Multiset<Scored>)
    requires
        nearest_of_some(found, some),
        some.subset_of(all),
    ensures
        nearest_of_some(found, all),
{
    let seen = choose|seen: Multiset<Scored>| #[trigger]
        nearest_of(found, seen) && seen.subset_of(some);
    assert(seen.subset_of(all));
}

proof fn lemma_offer_all_nearest(best: Seq<Scored>, points: Multiset<Scored>, items: Seq<Scored>)
    requires
        nearest_of(best, points),
        beyond(items.to_multiset(), 0),
    ensures
        nearest_of(offer_all(best, items), points.add(items.to_multiset())),
    decreases items.len(),
{
    broadcast use vstd::multiset::group_multiset_axioms;
    broadcast use vstd::seq_lib::group_to_multiset_ensures;

    if items.len() == 0 {
        assert(items.to_multiset().len() == 0);
        assert(items.to_multiset() =~= Multiset::empty());
        assert(points.add(items.to_multiset()) =~= points);
    } else {
        let front = items.drop_last();
        assert(front.push(items.last()) =~= items);
        assert(items.to_multiset() =~= front.to_multiset().insert(items.last()));
        assert(items.to_multiset().count(items.last()) > 0);
        assert(beyond(front.to_multiset(), 0)) by {
            assert forall|p: Scored| front.to_multiset().count(p) > 0 implies 0 <= #[trigger] p.0
                && p.0 < i64::MAX by {
                assert(items.to_multiset().count(p) > 0);
            }
        }
        lemma_offer_all_nearest(best, points, front);
        let mid = points.add(front.to_multiset());
        law_offer_nearest(offer_all(best, front), mid, items.last());
        assert(mid.insert(items.last()) =~= points.add(items.to_multiset()));
    }
}

proof fn lemma_split_multiset(items: Seq<Scored>, n: int)
    requires
        0 <= n <= items.len(),
    ensures
        items.to_multiset() == items.take(n).to_multiset().add(items.skip(n).to_multiset()),
{
    assert(items =~= items.take(n) + items.skip(n));
    vstd::seq_lib::lemma_multiset_commutative(items.take(n), items.skip(n));
}

/// A scan keeps the nearest points of those it has seen, which are all of them unless it stops early.
proof fn lemma_scan_nearest(best: Seq<Scored>, points: Multiset<Scored>, items: Seq<Scored>)
    requires
        nearest_of(best, points),
        beyond(items.to_multiset(), 0),
    ensures
        nearest_of_some(scan(best, items).0, points.add(items.to_multiset())),
        !scan(best, items).1 ==> nearest_of(scan(best, items).0, points.add(items.to_multiset())),
    decreases items.len(),
{
    broadcast use vstd::multiset::group_multiset_axioms;
    broadcast use vstd::seq_lib::group_to_multiset_ensures;

    if items.len() == 0 {
        assert(items.to_multiset().len() == 0);
        assert(items.to_multiset() =~= Multiset::empty());
        assert(points.add(items.to_multiset()) =~= points);
    } else {
        let n = if items.len() < LANES {
            items.len() as int
        } else {
            LANES as int
        };
        let a = items.take(n);
        let b = items.skip(n);
        lemma_split_multiset(items, n);
        assert(beyond(a.to_multiset(), 0)) by {
            assert forall|p: Scored| a.to_multiset().count(p) > 0 implies 0 <= #[trigger] p.0 && p.0
                < i64::MAX by {
                assert(items.to_multiset().count(p) > 0);
            }
        }
        assert(beyond(b.to_multiset(), 0)) by {
            assert forall|p: Scored| b.to_multiset().count(p) > 0 implies 0 <= #[trigger] p.0 && p.0
                < i64::MAX by {
                assert(items.to_multiset().count(p) > 0);
            }
        }
        lemma_offer_all_nearest(best, points, a);
        lemma_scan_nearest(offer_all(best, a), points.add(a.to_multiset()), b);
        assert(points.add(a.to_multiset()).subset_of(points.add(items.to_multiset())));
        assert(points.add(a.to_multiset()).add(b.to_multiset()) =~= points.add(
            items.to_multiset(),
        ));
    }
}

proof fn lemma_vector_quantized(blob: &KdBlob, slot: int)
    ensures
        quantized(blob.vector(slot)),
{
}

/// The points below a node are no nearer than a box that encloses its vectors.
pub proof fn law_points_beyond_box(
    blob: &KdBlob,
    h: Seq<nat>,
    q: Seq<int>,
    i: int,
    min: Seq<int>,
    max: Seq<int>,
)
    requires
        blob.wf(),
        blob.ranks(h),
        0 <= i < blob.node_count,
        blob.bounded(h, i, min, max),
        quantized(q),
    ensures
        beyond(blob.points(h, q, i), box_distance(q, min, max, VECTOR_DIM as int)),
        beyond(blob.points(h, q, i), 0),
    decreases h[i],
{
    broadcast use vstd::multiset::group_multiset_axioms;
    broadcast use vstd::seq_lib::group_to_multiset_ensures;

    let n = blob.node(i);
    let bound = box_distance(q, min, max, VECTOR_DIM as int);
    let m = blob.points(h, q, i);
    if n.left < 0 {
        let items = blob.leaf_points(q, n.start, n.len);
        assert forall|p: Scored| m.count(p) > 0 implies bound <= #[trigger] p.0 && 0 <= p.0 && p.0
            < i64::MAX by {
            assert(items.contains(p));
            let k = choose|k: int| 0 <= k < items.len() && items[k] == p;
            let v = blob.vector(n.start * LANES + k);
            assert(in_box(v, min, max));
            law_box_is_lower_bound(q, v, min, max, VECTOR_DIM as int);
            lemma_vector_quantized(blob, n.start * LANES + k);
            lemma_distance_bounds(q, v, VECTOR_DIM as int);
        }
    } else if h[n.left] < h[i] && h[n.right] < h[i] {
        law_points_beyond_box(blob, h, q, n.left, min, max);
        law_points_beyond_box(blob, h, q, n.right, min, max);
        let a = blob.points(h, q, n.left);
        let b = blob.points(h, q, n.right);
        assert forall|p: Scored| m.count(p) > 0 implies bound <= #[trigger] p.0 && 0 <= p.0 && p.0
            < i64::MAX by {
            assert(a.count(p) > 0 || b.count(p) > 0);
        }
    }
}

/// Searching below a node keeps the nearest of the points seen before and some points below the node:
/// all of them, unless it stops early.
pub proof fn law_visit_exact(
    blob: &KdBlob,
    q: Seq<int>,
    i: int,
    bound: int,
    depth: int,
    best: Seq<Scored>,
    points: Multiset<Scored>,
)
    requires
        blob.wf(),
        blob.boxes_enclose(),
        quantized(q),
        0 <= i < blob.node_count,
        beyond(blob.points(blob.heights(), q, i), bound),
        0 <= depth,
        depth + tree_depth(blob, blob.heights(), i) <= STACK_SIZE,
        nearest_of(best, points),
    ensures
        ({
            let found = visit(blob, blob.heights(), q, i, bound, depth, best);
            let all = points.add(blob.points(blob.heights(), q, i));
            &&& nearest_of_some(found.0, all)
            &&& if found.1 {
                found.0[TOP_K - 1].0 <= EARLY_DISTANCE_LIMIT
            } else {
                nearest_of(found.0, all)
            }
        }),
    decreases blob.heights()[i],
{
    broadcast use vstd::multiset::group_multiset_axioms;

    reveal(visit);
    let h = blob.heights();
    let n = blob.node(i);
    assert(blob.ranks(h));
    if bound >= best[TOP_K - 1].0 {
        law_far_points_change_nothing(best, points, blob.points(h, q, i));
    } else if n.left < 0 {
        let items = blob.leaf_points(q, n.start, n.len);
        law_scan_stops_early(best, items);
        assert(blob.bounded(h, i, n.min, n.max));
        law_points_beyond_box(blob, h, q, i, n.min, n.max);
        lemma_scan_nearest(best, points, items);
    } else {
        let near = near_child(blob, q, i);
        let far = far_child(blob, q, i);
        let near_b = node_bound(blob, q, near);
        let far_b = node_bound(blob, q, far);
        let near_points = blob.points(h, q, near);
        let far_points = blob.points(h, q, far);
        assert(blob.points(h, q, i) =~= near_points.add(far_points));
        assert(blob.bounded(h, near, blob.node(near).min, blob.node(near).max));
        assert(blob.bounded(h, far, blob.node(far).min, blob.node(far).max));
        law_points_beyond_box(blob, h, q, near, blob.node(near).min, blob.node(near).max);
        law_points_beyond_box(blob, h, q, far, blob.node(far).min, blob.node(far).max);
        assert(tree_depth(blob, h, near) < tree_depth(blob, h, i));
        assert(tree_depth(blob, h, far) < tree_depth(blob, h, i));
        if far_waits(blob, q, i, depth, best) {
            law_visit_exact(blob, q, near, near_b, depth + 1, best, points);
            let first = visit(blob, h, q, near, near_b, depth + 1, best);
            if first.1 {
                lemma_some_of_more(
                    first.0,
                    points.add(near_points),
                    points.add(blob.points(h, q, i)),
                );
            } else {
                law_visit_exact(blob, q, far, far_b, depth, first.0, points.add(near_points));
                assert(points.add(near_points).add(far_points) =~= points.add(
                    blob.points(h, q, i),
                ));
            }
        } else {
            law_far_points_change_nothing(best, points, far_points);
            law_visit_exact(blob, q, near, near_b, depth, best, points.add(far_points));
            assert(points.add(far_points).add(near_points) =~= points.add(blob.points(h, q, i)));
        }
    }
}

/// The points of partition `i`.
pub open spec fn part_points(blob: &KdBlob, q: Seq<int>, i: int) -> Multiset<Scored> {
    blob.points(blob.heights(), q, blob.partition(i).root)
}

/// The points of the listed partitions.
pub open spec fn list_points(blob: &KdBlob, q: Seq<int>, list: Seq<(i64, u32)>) -> Multiset<Scored>
    decreases list.len(),
{
    if list.len() == 0 {
        Multiset::empty()
    } else {
        part_points(blob, q, list[0].1 as int).add(list_points(blob, q, list.skip(1)))
    }
}

proof fn lemma_search_tree_exact(
    blob: &KdBlob,
    q: Seq<int>,
    i: int,
    bound: int,
    best: Seq<Scored>,
    points: Multiset<Scored>,
)
    requires
        searchable(blob),
        quantized(q),
        0 <= i < blob.part_count,
        bound == 0 || bound == part_bound(blob, q, i),
        nearest_of(best, points),
    ensures
        ({
            let found = search_tree(blob, q, blob.partition(i).root, bound, best);
            let all = points.add(part_points(blob, q, i));
            &&& nearest_of_some(found.0, all)
            &&& if found.1 {
                found.0[TOP_K - 1].0 <= EARLY_DISTANCE_LIMIT
            } else {
                nearest_of(found.0, all)
            }
        }),
{
    let p = blob.partition(i);
    law_points_beyond_box(blob, blob.heights(), q, p.root, p.min, p.max);
    law_visit_exact(blob, q, p.root, bound, 0, best, points);
}

proof fn lemma_list_beyond(blob: &KdBlob, q: Seq<int>, list: Seq<(i64, u32)>, bound: int)
    requires
        searchable(blob),
        quantized(q),
        forall|k: int|
            0 <= k < list.len() ==> (#[trigger] list[k]).1 < blob.part_count && part_bound(
                blob,
                q,
                list[k].1 as int,
            ) >= bound,
    ensures
        beyond(list_points(blob, q, list), bound),
    decreases list.len(),
{
    broadcast use vstd::multiset::group_multiset_axioms;

    if list.len() > 0 {
        let rest = list.skip(1);
        assert forall|k: int| 0 <= k < rest.len() implies (#[trigger] rest[k]).1 < blob.part_count
            && part_bound(blob, q, rest[k].1 as int) >= bound by {
            assert(list[k + 1] == rest[k]);
        }
        lemma_list_beyond(blob, q, rest, bound);
        assert(list[0].1 < blob.part_count);
        let i = list[0].1 as int;
        let p = blob.partition(i);
        law_points_beyond_box(blob, blob.heights(), q, p.root, p.min, p.max);
        let a = part_points(blob, q, i);
        let b = list_points(blob, q, rest);
        assert forall|x: Scored| a.add(b).count(x) > 0 implies bound <= #[trigger] x.0 && x.0
            < i64::MAX by {
            assert(a.count(x) > 0 || b.count(x) > 0);
        }
    }
}

proof fn lemma_sweep_exact(
    blob: &KdBlob,
    q: Seq<int>,
    list: Seq<(i64, u32)>,
    best: Seq<Scored>,
    points: Multiset<Scored>,
)
    requires
        searchable(blob),
        quantized(q),
        ascending(list, first_i64()),
        forall|k: int|
            0 <= k < list.len() ==> (#[trigger] list[k]).1 < blob.part_count && list[k].0
                == part_bound(blob, q, list[k].1 as int),
        nearest_of(best, points),
    ensures
        ({
            let found = sweep(blob, q, list, best);
            let all = points.add(list_points(blob, q, list));
            &&& nearest_of_some(found, all)
            &&& found[TOP_K - 1].0 <= EARLY_DISTANCE_LIMIT || nearest_of(found, all)
        }),
    decreases list.len(),
{
    broadcast use vstd::multiset::group_multiset_axioms;

    if list.len() == 0 {
        assert(points.add(list_points(blob, q, list)) =~= points);
    } else if list[0].0 >= best[TOP_K - 1].0 {
        let bound = list[0].0 as int;
        assert forall|k: int| 0 <= k < list.len() implies (#[trigger] list[k]).1 < blob.part_count
            && part_bound(blob, q, list[k].1 as int) >= bound by {
            assert(first_i64()(list[0]) <= first_i64()(list[k]));
        }
        lemma_list_beyond(blob, q, list, bound);
        law_far_points_change_nothing(best, points, list_points(blob, q, list));
    } else {
        let i = list[0].1 as int;
        let rest = list.skip(1);
        lemma_search_tree_exact(blob, q, i, list[0].0 as int, best, points);
        let found = search_tree(blob, q, blob.partition(i).root, list[0].0 as int, best);
        if found.1 {
            lemma_some_of_more(
                found.0,
                points.add(part_points(blob, q, i)),
                points.add(list_points(blob, q, list)),
            );
        } else {
            assert forall|a: int, b: int| 0 <= a <= b < rest.len() implies first_i64()(
                #[trigger] rest[a],
            ) <= first_i64()(#[trigger] rest[b]) by {
                assert(first_i64()(list[a + 1]) <= first_i64()(list[b + 1]));
            }
            assert forall|k: int| 0 <= k < rest.len() implies (#[trigger] rest[k]).1
                < blob.part_count && rest[k].0 == part_bound(blob, q, rest[k].1 as int) by {
                assert(list[k + 1] == rest[k]);
            }
            lemma_sweep_exact(blob, q, rest, found.0, points.add(part_points(blob, q, i)));
            assert(points.add(part_points(blob, q, i)).add(list_points(blob, q, rest))
                =~= points.add(list_points(blob, q, list)));
        }
    }
}

proof fn lemma_list_insert(
    blob: &KdBlob,
    q: Seq<int>,
    list: Seq<(i64, u32)>,
    at: int,
    x: (i64, u32),
)
    requires
        0 <= at <= list.len(),
    ensures
        list_points(blob, q, list.insert(at, x)) == list_points(blob, q, list).add(
            part_points(blob, q, x.1 as int),
        ),
    decreases list.len(),
{
    broadcast use vstd::multiset::group_multiset_axioms;

    let t = list.insert(at, x);
    if at == 0 {
        assert(t.skip(1) =~= list);
        assert(list_points(blob, q, t) =~= list_points(blob, q, list).add(
            part_points(blob, q, x.1 as int),
        ));
    } else {
        assert(t.skip(1) =~= list.skip(1).insert(at - 1, x));
        lemma_list_insert(blob, q, list.skip(1), at - 1, x);
        assert(list_points(blob, q, t) =~= list_points(blob, q, list).add(
            part_points(blob, q, x.1 as int),
        ));
    }
}

proof fn lemma_list_sort(blob: &KdBlob, q: Seq<int>, list: Seq<(i64, u32)>)
    ensures
        list_points(blob, q, stable_sort(list, first_i64())) == list_points(blob, q, list),
    decreases list.len(),
{
    if list.len() > 0 {
        let front = list.drop_last();
        let s = stable_sort(front, first_i64());
        lemma_list_sort(blob, q, front);
        lemma_place(s, first_i64(), first_i64()(list.last()), s.len() as int);
        let at = place(s, first_i64(), first_i64()(list.last()), s.len() as int);
        lemma_list_insert(blob, q, s, at, list.last());
        lemma_list_insert(blob, q, front, front.len() as int, list.last());
        assert(front.insert(front.len() as int, list.last()) =~= list);
    }
}

/// The points of the partitions below `n` that are neither `primary` nor listed for probing.
pub open spec fn skipped_points(
    blob: &KdBlob,
    q: Seq<int>,
    primary: int,
    best: Seq<Scored>,
    n: int,
) -> Multiset<Scored>
    decreases n,
{
    if n <= 0 {
        Multiset::empty()
    } else {
        let before = skipped_points(blob, q, primary, best, n - 1);
        if n - 1 != primary && part_bound(blob, q, n - 1) >= best[TOP_K - 1].0 {
            before.add(part_points(blob, q, n - 1))
        } else {
            before
        }
    }
}

/// The points of partition `primary`, if it is below `n`.
pub open spec fn own_points(blob: &KdBlob, q: Seq<int>, primary: int, n: int) -> Multiset<Scored> {
    if 0 <= primary < n {
        part_points(blob, q, primary)
    } else {
        Multiset::empty()
    }
}

proof fn lemma_part_bound_range(blob: &KdBlob, q: Seq<int>, i: int)
    requires
        quantized(q),
    ensures
        0 <= part_bound(blob, q, i) < i64::MAX,
{
    let p = blob.partition(i);
    assert(quantized(p.min));
    assert(quantized(p.max));
    lemma_box_distance_bounds(q, p.min, p.max, VECTOR_DIM as int);
}

proof fn lemma_partition_points(
    blob: &KdBlob,
    q: Seq<int>,
    primary: int,
    best: Seq<Scored>,
    n: int,
)
    requires
        searchable(blob),
        quantized(q),
        0 <= n <= blob.part_count,
    ensures
        ({
            let list = probes(blob, q, primary, best, n);
            &&& blob.all_points(q, n) == own_points(blob, q, primary, n).add(
                skipped_points(blob, q, primary, best, n),
            ).add(list_points(blob, q, list))
            &&& list.len() <= n
            &&& forall|k: int|
                0 <= k < list.len() ==> (#[trigger] list[k]).1 < n && list[k].0 == part_bound(
                    blob,
                    q,
                    list[k].1 as int,
                )
            &&& beyond(skipped_points(blob, q, primary, best, n), best[TOP_K - 1].0 as int)
        }),
    decreases n,
{
    broadcast use vstd::multiset::group_multiset_axioms;

    let list = probes(blob, q, primary, best, n);
    let skipped = skipped_points(blob, q, primary, best, n);
    if n == 0 {
        assert(blob.all_points(q, n) =~= own_points(blob, q, primary, n).add(skipped).add(
            list_points(blob, q, list),
        ));
    } else {
        lemma_partition_points(blob, q, primary, best, n - 1);
        lemma_part_bound_range(blob, q, n - 1);
        let before = probes(blob, q, primary, best, n - 1);
        let new = part_points(blob, q, n - 1);
        let p = blob.partition(n - 1);
        law_points_beyond_box(blob, blob.heights(), q, p.root, p.min, p.max);
        if n - 1 != primary && part_bound(blob, q, n - 1) < best[TOP_K - 1].0 {
            let x = (part_bound(blob, q, n - 1) as i64, (n - 1) as u32);
            assert(list == before.push(x));
            assert(list =~= before.insert(before.len() as int, x));
            lemma_list_insert(blob, q, before, before.len() as int, x);
        } else if n - 1 != primary {
            let earlier = skipped_points(blob, q, primary, best, n - 1);
            assert forall|s: Scored| skipped.count(s) > 0 implies best[TOP_K - 1].0
                <= #[trigger] s.0 && s.0 < i64::MAX by {
                assert(earlier.count(s) > 0 || new.count(s) > 0);
            }
        }
        assert(blob.all_points(q, n) =~= own_points(blob, q, primary, n).add(skipped).add(
            list_points(blob, q, list),
        ));
    }
}

/// The five neighbours that vote on a query are five nearest of some points in the index, and of all
/// of them unless the fifth is within the early-stop limit.
pub proof fn law_search_is_exact(blob: &KdBlob, q: Seq<int>, primary: int)
    requires
        searchable(blob),
        quantized(q),
        primary < blob.part_count,
    ensures
        ({
            let found = neighbours(blob, q, primary);
            let all = blob.all_points(q, blob.part_count as int);
            &&& nearest_of_some(found, all)
            &&& found[TOP_K - 1].0 <= EARLY_DISTANCE_LIMIT || nearest_of(found, all)
        }),
{
    broadcast use vstd::multiset::group_multiset_axioms;

    let count = blob.part_count as int;
    let own = own_partition(blob, q, primary);
    let own_m = own_points(blob, q, primary, count);
    law_empty_nearest();
    if primary >= 0 {
        lemma_search_tree_exact(blob, q, primary, 0, empty_best(), Multiset::empty());
        assert(Multiset::<Scored>::empty().add(own_m) =~= own_m);
    }
    lemma_partition_points(blob, q, primary, own.0, count);
    if own.1 {
        lemma_some_of_more(own.0, own_m, blob.all_points(q, count));
    } else {
        assert(nearest_of(own.0, own_m));
        let skipped = skipped_points(blob, q, primary, own.0, count);
        let list = probes(blob, q, primary, own.0, count);
        law_far_points_change_nothing(own.0, own_m, skipped);
        let s = stable_sort(list, first_i64());
        law_stable_sort(list, first_i64());
        lemma_list_sort(blob, q, list);
        assert forall|k: int| 0 <= k < s.len() implies (#[trigger] s[k]).1 < blob.part_count
            && s[k].0 == part_bound(blob, q, s[k].1 as int) by {
            broadcast use vstd::seq_lib::group_to_multiset_ensures;

            assert(s.contains(s[k]));
            assert(list.to_multiset().count(s[k]) > 0);
            assert(list.contains(s[k]));
        }
        lemma_sweep_exact(blob, q, s, own.0, own_m.add(skipped));
    }
}

/// The points of `m` within the early-stop limit.
pub open spec fn close_points(m: Multiset<Scored>) -> Multiset<Scored> {
    m.filter(|p: Scored| p.0 <= EARLY_DISTANCE_LIMIT)
}

/// Where fewer than five points of the index are within the early-stop limit of a query, the five
/// neighbours that vote on it are five nearest of all the points.
pub proof fn law_exact_unless_crowded(blob: &KdBlob, q: Seq<int>, primary: int)
    requires
        searchable(blob),
        quantized(q),
        primary < blob.part_count,
        close_points(blob.all_points(q, blob.part_count as int)).len() < TOP_K,
    ensures
        nearest_of(neighbours(blob, q, primary), blob.all_points(q, blob.part_count as int)),
{
    broadcast use vstd::multiset::group_multiset_axioms;
    broadcast use vstd::seq_lib::group_to_multiset_ensures;

    law_search_is_exact(blob, q, primary);
    let found = neighbours(blob, q, primary);
    let all = blob.all_points(q, blob.part_count as int);
    if found[TOP_K - 1].0 <= EARLY_DISTANCE_LIMIT {
        let seen = choose|seen: Multiset<Scored>| #[trigger]
            nearest_of(found, seen) && seen.subset_of(all);
        assert(kept(seen) == TOP_K);
        assert(found.take(kept(seen)) =~= found);
        let listed = found.to_multiset();
        let close = close_points(all);
        assert forall|p: Scored| #[trigger] listed.count(p) <= close.count(p) by {
            if listed.count(p) > 0 {
                assert(found.contains(p));
                assert(listed.count(p) <= seen.count(p) <= all.count(p));
            }
        }
        assert(close =~= listed.add(close.sub(listed)));
        assert(listed.len() == TOP_K);
    }
}

/// Which partition is searched first does not matter for the distances found, unless a search stops
/// early.
pub proof fn law_primary_does_not_matter(blob: &KdBlob, q: Seq<int>, a: int, b: int, i: int)
    requires
        searchable(blob),
        quantized(q),
        a < blob.part_count,
        b < blob.part_count,
        0 <= i < TOP_K,
        neighbours(blob, q, a)[TOP_K - 1].0 > EARLY_DISTANCE_LIMIT,
        neighbours(blob, q, b)[TOP_K - 1].0 > EARLY_DISTANCE_LIMIT,
    ensures
        neighbours(blob, q, a)[i].0 == neighbours(blob, q, b)[i].0,
{
    law_search_is_exact(blob, q, a);
    law_search_is_exact(blob, q, b);
    let points = blob.all_points(q, blob.part_count as int);
    crate::best::law_nearest_distances_unique(neighbours(blob, q, a), neighbours(blob, q, b), points, i);
}

} // verus!
