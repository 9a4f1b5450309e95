//! The five best (distance, label) pairs seen so far, ascending by distance.
use crate::consts::{EARLY_DISTANCE_LIMIT, TOP_K};
use vstd::multiset::Multiset;
use vstd::prelude::*;

verus! {

/// One scored neighbour: squared distance and fraud label.
pub type Scored = (i64, u8);

/// The pairs held in two parallel arrays.
pub open spec fn pairs(dists: Seq<i64>, labels: Seq<u8>) -> Seq<Scored> {
    Seq::new(TOP_K as nat, |i: int| (dists[i], labels[i]))
}

/// A best-five list before anything was seen.
pub open spec fn empty_best() -> Seq<Scored> {
    Seq::new(TOP_K as nat, |i: int| (i64::MAX, 0u8))
}

/// Where a pair at distance `d` goes: below `pos`, behind everything not farther than `d`.
pub open spec fn insert_pos(best: Seq<Scored>, d: i64, pos: int) -> int
    decreases pos,
{
    if pos > 0 && d < best[pos - 1].0 {
        insert_pos(best, d, pos - 1)
    } else {
        pos
    }
}

/// `best` after `item` was offered: unchanged unless `item` is nearer than the last pair, else
/// with `item` in its place and the last pair gone.
pub open spec fn offer(best: Seq<Scored>, item: Scored) -> Seq<Scored> {
    if item.0 >= best[TOP_K - 1].0 {
        best
    } else {
        best.drop_last().insert(insert_pos(best, item.0, TOP_K - 1), item)
    }
}

/// `best` after every element of `items` was offered in order.
pub open spec fn offer_all(best: Seq<Scored>, items: Seq<Scored>) -> Seq<Scored>
    decreases items.len(),
{
    if items.len() == 0 {
        best
    } else {
        offer(offer_all(best, items.drop_last()), items.last())
    }
}

pub open spec fn sorted(best: Seq<Scored>) -> bool {
    forall|i: int, j: int| 0 <= i <= j < best.len() ==> best[i].0 <= best[j].0
}

/// The smaller of five and the number of points seen.
pub open spec fn kept(points: Multiset<Scored>) -> int {
    if points.len() < TOP_K {
        points.len() as int
    } else {
        TOP_K as int
    }
}

/// `best` lists five nearest of `points`: as many points as there are, at most five, ascending;
/// the rest of the list is blank; and no point left out is nearer than the last one listed.
pub open spec fn nearest_of(best: Seq<Scored>, points: Multiset<Scored>) -> bool {
    let listed = best.take(kept(points)).to_multiset();
    &&& best.len() == TOP_K
    &&& sorted(best)
    &&& listed.subset_of(points)
    &&& forall|i: int| kept(points) <= i < TOP_K ==> best[i] == (i64::MAX, 0u8)
    &&& forall|p: Scored| points.count(p) > listed.count(p) ==> #[trigger] p.0 >= best[TOP_K - 1].0
}

/// Sum of the first `n` labels.
pub open spec fn label_sum(labels: Seq<u8>, n: int) -> int
    decreases n,
{
    if n <= 0 {
        0
    } else {
        label_sum(labels, n - 1) + labels[n - 1]
    }
}

/// The number of fraud votes in `best`.
pub open spec fn votes(best: Seq<Scored>) -> int {
    label_sum(best.map_values(|p: Scored| p.1), TOP_K as int)
}

proof fn lemma_ones(best: Seq<Scored>, n: int)
    requires
        0 <= n <= best.len(),
        forall|i: int| 0 <= i < best.len() ==> (#[trigger] best[i]).1 <= 1,
    ensures
        ({
            let ones = Set::new(|i: int| 0 <= i < n && best[i].1 == 1);
            &&& ones.finite()
            &&& ones.len() == label_sum(best.map_values(|p: Scored| p.1), n)
        }),
    decreases n,
{
    let ones = Set::new(|i: int| 0 <= i < n && best[i].1 == 1);
    if n == 0 {
        assert(ones =~= Set::empty());
    } else {
        lemma_ones(best, n - 1);
        let fewer = Set::new(|i: int| 0 <= i < n - 1 && best[i].1 == 1);
        assert(best[n - 1].1 <= 1);
        if best[n - 1].1 == 1 {
            assert(ones =~= fewer.insert(n - 1));
        } else {
            assert(ones =~= fewer);
        }
    }
}

/// The votes are all five labels added up; where every label is zero or one, they are as many as there are
/// places among the five whose label is one, whatever the distances.
pub proof fn law_votes_count_labels(best: Seq<Scored>)
    requires
        best.len() == 5,
    ensures
        votes(best) == best[0].1 + best[1].1 + best[2].1 + best[3].1 + best[4].1,
        (forall|i: int| 0 <= i < 5 ==> (#[trigger] best[i]).1 <= 1) ==> votes(best) == Set::new(
            |i: int| 0 <= i < 5 && best[i].1 == 1,
        ).len(),
{
    reveal_with_fuel(label_sum, 6);
    if forall|i: int| 0 <= i < 5 ==> (#[trigger] best[i]).1 <= 1 {
        lemma_ones(best, 5);
    }
}

/// Whether the fifth-best distance is small enough to stop searching.
pub fn early_done(best: &[i64; TOP_K]) -> (r: bool)
    ensures
        r == (best@[TOP_K - 1] <= EARLY_DISTANCE_LIMIT),
{
    best[TOP_K - 1] <= EARLY_DISTANCE_LIMIT
}

/// Offers `(dist, label)` to the best-five arrays.
pub fn insert_best(dist: i64, label: u8, dists: &mut [i64; TOP_K], labels: &mut [u8; TOP_K])
    ensures
        pairs(final(dists)@, final(labels)@) == offer(pairs(old(dists)@, old(labels)@), (dist, label)),
{
    let ghost before = pairs(dists@, labels@);
    if dist >= dists[TOP_K - 1] {
        return;
    }
    let mut pos: usize = TOP_K - 1;
    while pos > 0 && dist < dists[pos - 1]
        invariant
            before == pairs(old(dists)@, old(labels)@),
            pos < TOP_K,
            before.len() == TOP_K,
            dist < before[TOP_K - 1].0,
            insert_pos(before, dist, TOP_K - 1) == insert_pos(before, dist, pos as int),
            forall|i: int| 0 <= i <= pos ==> dists@[i] == before[i].0 && labels@[i] == before[i].1,
            forall|i: int|
                pos < i < TOP_K ==> dists@[i] == before[i - 1].0 && labels@[i] == before[i - 1].1,
        decreases pos,
    {
        dists[pos] = dists[pos - 1];
        labels[pos] = labels[pos - 1];
        pos = pos - 1;
    }
    dists[pos] = dist;
    labels[pos] = label;
    proof {
        assert(insert_pos(before, dist, pos as int) == pos);
        assert(pairs(dists@, labels@) =~= before.drop_last().insert(pos as int, (dist, label)));
    }
}

/// Adds up the five labels.
pub fn sum_labels(labels: &[u8; TOP_K]) -> (n: u8)
    requires
        label_sum(labels@, TOP_K as int) <= u8::MAX,
    ensures
        n == label_sum(labels@, TOP_K as int),
{
    let mut n: u8 = 0;
    for i in 0..TOP_K
        invariant
            n == label_sum(labels@, i as int),
            label_sum(labels@, TOP_K as int) <= u8::MAX,
    {
        proof {
            lemma_label_sum_monotone(labels@, i + 1, TOP_K as int);
        }
        n = n + labels[i];
    }
    n
}

pub proof fn lemma_label_sum_monotone(labels: Seq<u8>, a: int, b: int)
    requires
        a <= b,
    ensures
        label_sum(labels, a) <= label_sum(labels, b),
    decreases b - a,
{
    if a < b {
        lemma_label_sum_monotone(labels, a, b - 1);
    }
}

pub proof fn lemma_insert_pos(best: Seq<Scored>, d: i64, pos: int)
    requires
        0 <= pos < best.len(),
    ensures
        0 <= insert_pos(best, d, pos) <= pos,
        forall|i: int| insert_pos(best, d, pos) <= i < pos ==> d < best[i].0,
        insert_pos(best, d, pos) > 0 ==> best[insert_pos(best, d, pos) - 1].0 <= d,
    decreases pos,
{
    if pos > 0 && d < best[pos - 1].0 {
        lemma_insert_pos(best, d, pos - 1);
    }
}

/// Offering a pair keeps the list's length and its order, and never raises its last distance.
pub proof fn law_offer_keeps_order(best: Seq<Scored>, item: Scored)
    requires
        best.len() == TOP_K,
        sorted(best),
    ensures
        offer(best, item).len() == TOP_K,
        sorted(offer(best, item)),
        offer(best, item)[TOP_K - 1].0 <= best[TOP_K - 1].0,
{
    lemma_insert_pos(best, item.0, TOP_K - 1);
}

proof fn lemma_insert_multiset(s: Seq<Scored>, at: int, item: Scored)
    requires
        0 <= at <= s.len(),
    ensures
        s.insert(at, item).to_multiset() == s.to_multiset().insert(item),
{
    broadcast use vstd::seq_lib::group_to_multiset_ensures;

    let t = s.insert(at, item);
    assert(t.remove(at) =~= s);
    assert(t.to_multiset().remove(item) == s.to_multiset());
    assert(t[at] == item);
    assert(t.contains(item));
    assert(t.to_multiset().count(item) > 0);
    assert(t.to_multiset() =~= s.to_multiset().insert(item));
}

/// Offering a further point to a list of nearest points gives a list of nearest points.
pub proof fn law_offer_nearest(best: Seq<Scored>, points: Multiset<Scored>, item: Scored)
    requires
        nearest_of(best, points),
        item.0 < i64::MAX,
    ensures
        nearest_of(offer(best, item), points.insert(item)),
{
    broadcast use vstd::multiset::group_multiset_axioms;
    broadcast use vstd::seq_lib::group_to_multiset_ensures;

    law_offer_keeps_order(best, item);
    lemma_insert_pos(best, item.0, TOP_K - 1);
    let k = kept(points);
    let listed = best.take(k).to_multiset();
    let after = offer(best, item);
    let more = points.insert(item);
    let p = insert_pos(best, item.0, TOP_K - 1);
    if k < TOP_K {
        assert(best[TOP_K - 1] == (i64::MAX, 0u8));
        assert(p <= k) by {
            if p > k {
                assert(best[p - 1] == (i64::MAX, 0u8));
            }
        }
        assert(after.take(k + 1) =~= best.take(k).insert(p, item));
        lemma_insert_multiset(best.take(k), p, item);
        assert(kept(more) == k + 1);
        assert(listed.len() == k);
    } else if item.0 >= best[TOP_K - 1].0 {
        assert(kept(more) == TOP_K);
    } else {
        assert(kept(more) == TOP_K);
        assert(best.take(k) =~= best);
        assert(after.take(TOP_K as int) =~= after);
        let last = best[TOP_K - 1];
        assert(best.drop_last().push(last) =~= best);
        assert(best.drop_last().to_multiset().insert(last) == listed);
        lemma_insert_multiset(best.drop_last(), p, item);
        assert(after.to_multiset() == best.drop_last().to_multiset().insert(item));
        assert forall|x: Scored| more.count(x) > after.to_multiset().count(x) implies #[trigger] x.0
            >= after[TOP_K - 1].0 by {
            if x == last {
            } else {
                assert(points.count(x) > listed.count(x));
            }
        }
    }
}

/// Points that are no nearer than the fifth best change nothing.
pub proof fn law_far_points_change_nothing(
    best: Seq<Scored>,
    points: Multiset<Scored>,
    far: Multiset<Scored>,
)
    requires
        nearest_of(best, points),
        forall|p: Scored| far.count(p) > 0 ==> #[trigger] p.0 >= best[TOP_K - 1].0 && p.0 < i64::MAX,
    ensures
        nearest_of(best, points.add(far)),
{
    broadcast use vstd::multiset::group_multiset_axioms;

    if kept(points) < TOP_K {
        assert(best[TOP_K - 1].0 == i64::MAX);
        assert forall|p: Scored| far.count(p) == 0 by {
            if far.count(p) > 0 {
                assert(p.0 >= best[TOP_K - 1].0);
            }
        }
        assert(points.add(far) =~= points);
    }
}

/// Nothing is nearest when nothing was seen.
pub proof fn law_empty_nearest()
    ensures
        nearest_of(empty_best(), Multiset::empty()),
{
    broadcast use vstd::multiset::group_multiset_axioms;
    broadcast use vstd::seq_lib::group_to_multiset_ensures;

    let listed = empty_best().take(0).to_multiset();
    assert(listed.len() == 0);
    assert(listed =~= Multiset::empty());
}

proof fn lemma_nearest_not_farther(
    a: Seq<Scored>,
    b: Seq<Scored>,
    points: Multiset<Scored>,
    i: int,
)
    requires
        nearest_of(a, points),
        nearest_of(b, points),
        0 <= i < TOP_K,
    ensures
        a[i].0 <= b[i].0,
{
    broadcast use vstd::multiset::group_multiset_axioms;
    broadcast use vstd::seq_lib::group_to_multiset_ensures;

    if b[i].0 < a[i].0 {
        let k = kept(points);
        assert(i < k);
        let near = b.take(i + 1);
        let lower = a.take(i);
        let upper = a.subrange(i, k);
        assert(a.take(k) =~= lower + upper);
        vstd::seq_lib::lemma_multiset_commutative(lower, upper);
        assert(b.take(k) =~= near + b.subrange(i + 1, k));
        vstd::seq_lib::lemma_multiset_commutative(near, b.subrange(i + 1, k));
        assert forall|p: Scored| near.to_multiset().count(p) <= lower.to_multiset().count(p) by {
            if near.to_multiset().count(p) > 0 {
                assert(near.contains(p));
                let j = choose|j: int| 0 <= j < near.len() && near[j] == p;
                assert(b[j].0 <= b[i].0);
                assert(a[i].0 <= a[TOP_K - 1].0);
                assert(!upper.contains(p)) by {
                    if upper.contains(p) {
                        let m = choose|m: int| 0 <= m < upper.len() && upper[m] == p;
                        assert(a[i].0 <= a[i + m].0);
                    }
                }
                assert(b.take(k).to_multiset().count(p) <= points.count(p));
                assert(a.take(k).to_multiset().count(p) >= points.count(p)) by {
                    if points.count(p) > a.take(k).to_multiset().count(p) {
                        assert(p.0 >= a[TOP_K - 1].0);
                    }
                }
            }
        }
        assert(near.to_multiset().subset_of(lower.to_multiset()));
        assert(lower.to_multiset().sub(near.to_multiset()).len() == lower.len() - near.len());
    }
}

/// Two lists of nearest points agree on every distance.
pub proof fn law_nearest_distances_unique(
    a: Seq<Scored>,
    b: Seq<Scored>,
    points: Multiset<Scored>,
    i: int,
)
    requires
        nearest_of(a, points),
        nearest_of(b, points),
        0 <= i < TOP_K,
    ensures
        a[i].0 == b[i].0,
{
    lemma_nearest_not_farther(a, b, points, i);
    lemma_nearest_not_farther(b, a, points, i);
}

} // verus!
