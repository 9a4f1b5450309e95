//! In what order the KD-tree search goes, what it leaves out, and when it stops.
use crate::best::{empty_best, insert_pos, lemma_insert_pos, offer, offer_all, Scored};
use crate::kdtree::{box_distance, distance, KdBlob};
use crate::knn::{neighbours, part_bound, probes, scan, search_tree, sweep, visit};
use crate::sort::{first_i64, stable_sort};
use vstd::prelude::*;

verus! {

/// A pair that is no nearer than the fifth is not listed; any other goes before the first that is farther, and
/// the fifth goes. A list begins with five pairs at no distance, none of them fraud.
pub proof fn law_offer(best: Seq<Scored>, item: Scored, p: int)
    requires
        best.len() == 5,
        0 <= p <= 5,
        forall|i: int| 0 <= i < p ==> (#[trigger] best[i]).0 <= item.0,
        forall|i: int| p <= i < 5 ==> (#[trigger] best[i]).0 > item.0,
    ensures
        p == 5 ==> offer(best, item) == best,
        p < 5 ==> offer(best, item) == best.subrange(0, p) + seq![item] + best.subrange(p, 4),
        empty_best() == seq![
            (0x7FFF_FFFF_FFFF_FFFFi64, 0u8),
            (0x7FFF_FFFF_FFFF_FFFFi64, 0u8),
            (0x7FFF_FFFF_FFFF_FFFFi64, 0u8),
            (0x7FFF_FFFF_FFFF_FFFFi64, 0u8),
            (0x7FFF_FFFF_FFFF_FFFFi64, 0u8),
        ],
{
    if p < 5 {
        assert(best[4].0 > item.0);
        lemma_insert_pos(best, item.0, 4);
        let at = insert_pos(best, item.0, 4);
        assert(at == p) by {
            if at < p {
                assert(best[at].0 <= item.0);
            }
            if p < at {
                assert(best[at - 1].0 > item.0);
            }
        }
        assert(offer(best, item) =~= best.subrange(0, p) + seq![item] + best.subrange(p, 4));
    } else {
        assert(best[4].0 <= item.0);
    }
}

/// Pairs are offered one after the other.
pub proof fn law_offer_all(best: Seq<Scored>, items: Seq<Scored>, item: Scored)
    ensures
        offer_all(best, Seq::<Scored>::empty()) == best,
        offer_all(best, items.push(item)) == offer(offer_all(best, items), item),
{
    assert(items.push(item).drop_last() =~= items);
}

proof fn lemma_offer_concat(best: Seq<Scored>, a: Seq<Scored>, b: Seq<Scored>)
    ensures
        offer_all(best, a + b) == offer_all(offer_all(best, a), b),
    decreases b.len(),
{
    if b.len() == 0 {
        assert(a + b =~= a);
    } else {
        lemma_offer_concat(best, a, b.drop_last());
        assert((a + b).drop_last() =~= a + b.drop_last());
        assert((a + b).last() == b.last());
    }
}

/// The first `j` blocks of eight.
pub open spec fn blocks(items: Seq<Scored>, j: int) -> Seq<Scored> {
    items.subrange(0, if 8 * j < items.len() {
        8 * j
    } else {
        items.len() as int
    })
}

proof fn lemma_scan_from(best: Seq<Scored>, items: Seq<Scored>, j: int)
    requires
        0 <= j,
        8 * j <= items.len(),
        forall|i: int| 0 < i <= j ==> (#[trigger] offer_all(best, blocks(items, i)))[4].0 > 1_960_000,
    ensures
        scan(best, items) == scan(offer_all(best, blocks(items, j)), items.skip(8 * j)),
    decreases j,
{
    if j == 0 {
        assert(blocks(items, 0) =~= Seq::<Scored>::empty());
        assert(items.skip(0) =~= items);
    } else {
        lemma_scan_from(best, items, j - 1);
        let left = items.skip(8 * (j - 1));
        lemma_offer_concat(best, blocks(items, j - 1), left.take(8));
        assert(blocks(items, j - 1) + left.take(8) =~= blocks(items, j));
        assert(left.skip(8) =~= items.skip(8 * j));
        assert(offer_all(best, blocks(items, j))[4].0 > 1_960_000);
    }
}

/// A leaf is scanned block by block. The scan stops behind the first block after which the fifth distance is at
/// most 1960000, with what was offered so far; if there is none, everything is offered.
pub proof fn law_scan(best: Seq<Scored>, items: Seq<Scored>, k: int)
    requires
        0 < k,
        8 * (k - 1) < items.len(),
        forall|i: int| 0 < i < k ==> (#[trigger] offer_all(best, blocks(items, i)))[4].0 > 1_960_000,
    ensures
        offer_all(best, blocks(items, k))[4].0 <= 1_960_000 ==> scan(best, items) == (
            offer_all(best, blocks(items, k)),
            true,
        ),
        offer_all(best, blocks(items, k))[4].0 > 1_960_000 && 8 * k >= items.len() ==> scan(best, items) == (
            offer_all(best, items),
            false,
        ),
        scan(best, Seq::<Scored>::empty()) == (best, false),
{
    lemma_scan_from(best, items, k - 1);
    let so_far = offer_all(best, blocks(items, k - 1));
    let left = items.skip(8 * (k - 1));
    let n = if left.len() < 8 {
        left.len() as int
    } else {
        8
    };
    lemma_offer_concat(best, blocks(items, k - 1), left.take(n));
    assert(blocks(items, k - 1) + left.take(n) =~= blocks(items, k));
    if 8 * k >= items.len() {
        assert(blocks(items, k) =~= items);
        assert(left.skip(n).len() == 0);
        let after = offer_all(so_far, left.take(n));
        assert(scan(after, left.skip(n)) == (after, false));
    }
}

/// A subtree whose box is no nearer than the fifth distance is left out. A leaf's vectors are scanned. Of two
/// children the one with the nearer box comes first, the left one if both are equally near; the other one
/// follows if its box is nearer than the fifth distance was before and fewer than 128 subtrees wait, unless the
/// search of the first stopped.
pub proof fn law_visit(
    blob: &KdBlob,
    h: Seq<nat>,
    q: Seq<int>,
    i: int,
    bound: int,
    depth: int,
    best: Seq<Scored>,
)
    requires
        blob.ranks(h),
        0 <= i < blob.node_count,
    ensures
        ({
            let n = blob.node(i);
            let l = blob.node(n.left);
            let r = blob.node(n.right);
            let to_left = box_distance(q, l.min, l.max, 14);
            let to_right = box_distance(q, r.min, r.max, 14);
            let (near, near_at, far, far_at) = if to_left <= to_right {
                (n.left, to_left, n.right, to_right)
            } else {
                (n.right, to_right, n.left, to_left)
            };
            let found = visit(blob, h, q, i, bound, depth, best);
            &&& bound >= best[4].0 ==> found == (best, false)
            &&& bound < best[4].0 && n.left < 0 ==> found == scan(
                best,
                Seq::new(
                    n.len as nat,
                    |k: int|
                        (
                            distance(q, blob.vector(8 * n.start + k), 14) as i64,
                            blob.labels@[8 * n.start + k],
                        ),
                ),
            )
            &&& bound < best[4].0 && n.left >= 0 && far_at < best[4].0 && depth < 128 ==> {
                let first = visit(blob, h, q, near, near_at, depth + 1, best);
                found == if first.1 {
                    first
                } else {
                    visit(blob, h, q, far, far_at, depth, first.0)
                }
            }
            &&& bound < best[4].0 && n.left >= 0 && (far_at >= best[4].0 || depth >= 128) ==> found
                == visit(blob, h, q, near, near_at, depth, best)
        }),
{
    reveal_with_fuel(visit, 1);
    let n = blob.node(i);
    if n.left < 0 {
        assert(blob.leaf_points(q, n.start, n.len) =~= Seq::new(
            n.len as nat,
            |k: int|
                (
                    distance(q, blob.vector(8 * n.start + k), 14) as i64,
                    blob.labels@[8 * n.start + k],
                ),
        ));
    }
}

/// A tree without a root adds nothing. The search of any other tree ends the whole search if the fifth distance
/// is then at most 1960000.
pub proof fn law_search_tree(blob: &KdBlob, q: Seq<int>, root: int, bound: int, best: Seq<Scored>)
    ensures
        root < 0 || root >= blob.node_count ==> search_tree(blob, q, root, bound, best) == (best, false),
        0 <= root < blob.node_count ==> {
            let found = visit(blob, blob.heights(), q, root, bound, 0, best);
            search_tree(blob, q, root, bound, best) == (found.0, found.0[4].0 <= 1_960_000)
        },
{
}

/// There are 256 partitions in the list, all before partition `i`.
pub open spec fn all_before(list: Seq<(i64, u32)>, i: u32) -> bool {
    list.len() == 256 && forall|k: int| 0 <= k < list.len() ==> (#[trigger] list[k]).1 < i
}

proof fn lemma_probes(blob: &KdBlob, q: Seq<int>, primary: int, best: Seq<Scored>, n: int)
    requires
        0 <= n <= 0x1_0000_0000,
    ensures
        ({
            let list = probes(blob, q, primary, best, n);
            &&& list.len() <= n
            &&& forall|k: int|
                0 <= k < list.len() ==> (#[trigger] list[k]).1 < n && list[k].1 != primary && part_bound(
                    blob,
                    q,
                    list[k].1 as int,
                ) < best[4].0 && list[k].0 == part_bound(blob, q, list[k].1 as int) as i64
            &&& forall|a: int, b: int|
                0 <= a < b < list.len() ==> (#[trigger] list[a]).1 < (#[trigger] list[b]).1
            &&& list.len() <= 256
            &&& forall|i: u32|
                i < n && i != primary && #[trigger] part_bound(blob, q, i as int) < best[4].0
                    ==> list.contains((part_bound(blob, q, i as int) as i64, i)) || all_before(list, i)
        }),
    decreases n,
{
    if n > 0 {
        lemma_probes(blob, q, primary, best, n - 1);
        let before = probes(blob, q, primary, best, n - 1);
        let list = probes(blob, q, primary, best, n);
        assert forall|k: int| 0 <= k < list.len() implies (#[trigger] list[k]).1 < n && list[k].1 != primary
            && part_bound(blob, q, list[k].1 as int) < best[4].0 && list[k].0 == part_bound(
            blob,
            q,
            list[k].1 as int,
        ) as i64 by {
            if k < before.len() {
                assert(list[k] == before[k]);
            }
        }
        assert forall|a: int, b: int| 0 <= a < b < list.len() implies (#[trigger] list[a]).1 < (
        #[trigger] list[b]).1 by {
            assert(list[a] == before[a]);
            if b < before.len() {
                assert(list[b] == before[b]);
            }
        }
        assert forall|i: u32|
            i < n && i != primary && #[trigger] part_bound(blob, q, i as int) < best[4].0 implies list.contains(
            (part_bound(blob, q, i as int) as i64, i),
        ) || all_before(list, i) by {
            let x = (part_bound(blob, q, i as int) as i64, i);
            if i < n - 1 {
                if before.contains(x) {
                    let k = choose|k: int| 0 <= k < before.len() && before[k] == x;
                    assert(list[k] == x);
                } else {
                    assert(list == before);
                }
            } else if before.len() < 256 {
                assert(list[list.len() - 1] == x);
            } else {
                assert(list == before);
            }
        }
    }
}

/// The partitions to probe are the others whose box is nearer than the fifth distance, each once with the distance
/// of its box: all of them, or the first 256.
pub proof fn law_probes(blob: &KdBlob, q: Seq<int>, primary: int, best: Seq<Scored>, i: u32, a: int, b: int)
    requires
        i < blob.part_count,
    ensures
        ({
            let list = probes(blob, q, primary, best, blob.part_count as int);
            let p = blob.partition(i as int);
            let at = box_distance(q, p.min, p.max, 14);
            &&& i != primary && at < best[4].0 ==> list.contains((at as i64, i)) || all_before(list, i)
            &&& list.len() <= 256
            &&& 0 <= a < list.len() && list[a].1 == i ==> i != primary && at < best[4].0 && list[a].0
                == at as i64
            &&& 0 <= a < b < list.len() ==> list[a].1 != list[b].1
            &&& 0 <= a < list.len() ==> list[a].1 < blob.part_count
        }),
{
    lemma_probes(blob, q, primary, best, blob.part_count as int);
    let list = probes(blob, q, primary, best, blob.part_count as int);
    assert(part_bound(blob, q, i as int) == box_distance(
        q,
        blob.partition(i as int).min,
        blob.partition(i as int).max,
        14,
    ));
    if 0 <= a < list.len() {
        assert(list[a].1 < blob.part_count);
        if a < b < list.len() {
            assert(list[a].1 < list[b].1);
        }
    }
}

/// The listed partitions are probed in order, each from the distance of its box, until one is no nearer than the
/// fifth distance or the search of one ends the whole search.
pub proof fn law_sweep(blob: &KdBlob, q: Seq<int>, first: (i64, u32), rest: Seq<(i64, u32)>, best: Seq<Scored>)
    ensures
        sweep(blob, q, Seq::empty(), best) == best,
        ({
            let list = seq![first] + rest;
            let found = search_tree(
                blob,
                q,
                blob.partition(first.1 as int).root,
                first.0 as int,
                best,
            );
            &&& first.0 >= best[4].0 ==> sweep(blob, q, list, best) == best
            &&& first.0 < best[4].0 && found.1 ==> sweep(blob, q, list, best) == found.0
            &&& first.0 < best[4].0 && !found.1 ==> sweep(blob, q, list, best) == sweep(
                blob,
                q,
                rest,
                found.0,
            )
        }),
{
    let list = seq![first] + rest;
    assert(list[0] == first);
    assert(list.skip(1) =~= rest);
}

/// The query's own partition, if it has one, is searched first and whatever its distance. If that does not end the
/// search, the other partitions are probed by ascending distance of their boxes, ties in their order.
pub proof fn law_neighbours_search(blob: &KdBlob, q: Seq<int>, primary: int)
    ensures
        ({
            let own = if primary >= 0 {
                search_tree(blob, q, blob.partition(primary).root, 0, empty_best())
            } else {
                (empty_best(), false)
            };
            let list = probes(blob, q, primary, own.0, blob.part_count as int);
            &&& own.1 ==> neighbours(blob, q, primary) == own.0
            &&& !own.1 ==> neighbours(blob, q, primary) == sweep(
                blob,
                q,
                stable_sort(list, |p: (i64, u32)| p.0 as int),
                own.0,
            )
        }),
{
    assert(first_i64() =~= (|p: (i64, u32)| p.0 as int));
}

} // verus!
