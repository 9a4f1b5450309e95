//! Choosing clusters and keeping the nearest vectors while clusters are scanned.
//!
//! Distances are bit patterns of floating-point numbers that are not negative. These have the order of
//! the numbers, with what is not a number behind infinity.
use crate::blob::Blob;
use crate::consts::{BLOCK_VECS, TOP_K};
use vstd::multiset::Multiset;
use vstd::prelude::*;

verus! {

/// Clusters probed at first.
pub const NPROBE_FAST: usize = 4;

/// Clusters probed if the first count is not unanimous.
pub const NPROBE_MID: usize = 12;

/// Clusters probed if the second count is close.
pub const NPROBE_DEEP: usize = 32;

/// Bits of infinity.
pub const INFINITY_BITS: u32 = 0x7F80_0000;

/// The nearest clusters so far: their distances, ascending, and their numbers.
#[verifier::ext_equal]
pub struct Probes {
    pub dists: Seq<u32>,
    pub ids: Seq<usize>,
}

/// The first place from `i` on whose distance is not below `d`.
pub open spec fn place_from(dists: Seq<u32>, d: u32, i: int) -> int
    decreases dists.len() - i,
{
    if 0 <= i < dists.len() && dists[i] < d {
        place_from(dists, d, i + 1)
    } else {
        i
    }
}

/// The probes after cluster `c` at distance `d` was looked at: if it is nearer than the last one, it goes
/// before the first that is not nearer, and the last one goes.
pub open spec fn probe_offer(p: Probes, c: usize, d: u32) -> Probes {
    if d < p.dists.last() {
        let at = place_from(p.dists, d, 0);
        Probes { dists: p.dists.drop_last().insert(at, d), ids: p.ids.drop_last().insert(at, c) }
    } else {
        p
    }
}

/// The `n` nearest clusters among the first `k`.
pub open spec fn nearest_clusters(dists: Seq<u32>, k: int, n: nat) -> Probes
    decreases k,
{
    if k <= 0 {
        Probes { dists: Seq::new(n, |i: int| INFINITY_BITS), ids: Seq::new(n, |i: int| 0usize) }
    } else {
        probe_offer(nearest_clusters(dists, k - 1, n), (k - 1) as usize, dists[k - 1])
    }
}

proof fn lemma_place_from(dists: Seq<u32>, d: u32, i: int)
    requires
        0 <= i <= dists.len(),
    ensures
        i <= place_from(dists, d, i) <= dists.len(),
        forall|j: int| i <= j < place_from(dists, d, i) ==> #[trigger] dists[j] < d,
        place_from(dists, d, i) < dists.len() ==> dists[place_from(dists, d, i)] >= d,
    decreases dists.len() - i,
{
    if i < dists.len() && dists[i] < d {
        lemma_place_from(dists, d, i + 1);
    }
}

/// What holds of the probes after `k` clusters: they are ascending; each is a filler at infinity or a
/// cluster at its distance; and a cluster that is not among them is no nearer than the last one.
pub open spec fn probes_ok(dists: Seq<u32>, k: int, p: Probes) -> bool {
    &&& p.ids.len() == p.dists.len()
    &&& forall|i: int, j: int|
        0 <= i <= j < p.dists.len() ==> (#[trigger] p.dists[i]) <= (#[trigger] p.dists[j])
    &&& forall|i: int|
        0 <= i < p.dists.len() ==> (#[trigger] p.dists[i]) == INFINITY_BITS || (p.ids[i] < k
            && p.dists[i] == dists[p.ids[i] as int])
    &&& forall|c: int|
        0 <= c < k ==> #[trigger] dists[c] >= p.dists.last() || exists|i: int|
            0 <= i < p.ids.len() && #[trigger] p.ids[i] == c && p.dists[i] == dists[c]
}

/// How many of the first `k` clusters are nearer than infinity.
pub open spec fn finite(dists: Seq<u32>, k: int) -> nat
    decreases k,
{
    if k <= 0 {
        0
    } else {
        finite(dists, k - 1) + if dists[k - 1] < INFINITY_BITS {
            1nat
        } else {
            0nat
        }
    }
}

/// The probes are distinct clusters nearer than infinity, as many as there are, and fillers behind them.
pub open spec fn distinct_then_fillers(p: Probes, count: nat) -> bool {
    &&& forall|i: int| 0 <= i < p.dists.len() ==> (#[trigger] p.dists[i] < INFINITY_BITS <==> i < count)
    &&& forall|i: int| count <= i < p.dists.len() ==> #[trigger] p.dists[i] == INFINITY_BITS
    &&& forall|i: int, j: int|
        0 <= i < j < p.ids.len() && j < count ==> #[trigger] p.ids[i] != #[trigger] p.ids[j]
}

/// The clusters chosen are the nearest ones. They are distinct, and there are fillers among them only
/// where fewer than `n` clusters are nearer than infinity.
pub proof fn law_nearest_clusters(dists: Seq<u32>, k: int, n: nat)
    requires
        n > 0,
        0 <= k <= dists.len(),
        k <= usize::MAX,
    ensures
        nearest_clusters(dists, k, n).dists.len() == n,
        probes_ok(dists, k, nearest_clusters(dists, k, n)),
        distinct_then_fillers(nearest_clusters(dists, k, n), finite(dists, k)),
    decreases k,
{
    lemma_nearest_clusters(dists, k, n);
    if k > 0 {
        law_nearest_clusters(dists, k - 1, n);
        let p = nearest_clusters(dists, k - 1, n);
        assert forall|i: int| 0 <= i < n && i < finite(dists, k - 1) implies #[trigger] p.ids[i] < k
            - 1 by {
            assert(p.dists[i] < INFINITY_BITS);
        }
        lemma_offer_distinct(p, (k - 1) as usize, dists[k - 1], finite(dists, k - 1), n);
    }
}

proof fn lemma_offer_distinct(p: Probes, c: usize, d: u32, count: nat, n: nat)
    requires
        n > 0,
        p.dists.len() == n,
        p.ids.len() == n,
        distinct_then_fillers(p, count),
        forall|i: int| 0 <= i < n && i < count ==> #[trigger] p.ids[i] < c,
    ensures
        distinct_then_fillers(
            probe_offer(p, c, d),
            count + if d < INFINITY_BITS {
                1nat
            } else {
                0nat
            },
        ),
{
    let r = probe_offer(p, c, d);
    assert(p.dists.last() == p.dists[n - 1]);
    if d < p.dists.last() {
        lemma_place_from(p.dists, d, 0);
        let at = place_from(p.dists, d, 0);
        assert(at < n) by {
            if at == n {
                assert(p.dists[n - 1] < d);
            }
        }
        assert(at <= count) by {
            if count < at {
                assert(p.dists[count as int] < d);
            }
        }
        assert forall|i: int| 0 <= i < n implies (#[trigger] r.dists[i] < INFINITY_BITS <==> i < count
            + 1) && (count + 1 <= i ==> r.dists[i] == INFINITY_BITS) by {
            if i < at {
                assert(r.dists[i] == p.dists[i]);
            } else if i > at {
                assert(r.dists[i] == p.dists[i - 1]);
            }
        }
        assert forall|i: int, j: int| 0 <= i < j < n && j < count + 1 implies #[trigger] r.ids[i]
            != #[trigger] r.ids[j] by {
            let a = if i < at {
                p.ids[i]
            } else {
                p.ids[i - 1]
            };
            let b = if j < at {
                p.ids[j]
            } else {
                p.ids[j - 1]
            };
            assert(i != at ==> r.ids[i] == a);
            assert(j != at ==> r.ids[j] == b);
        }
    }
}

proof fn lemma_nearest_clusters(dists: Seq<u32>, k: int, n: nat)
    requires
        n > 0,
        0 <= k <= dists.len(),
        k <= usize::MAX,
    ensures
        nearest_clusters(dists, k, n).dists.len() == n,
        probes_ok(dists, k, nearest_clusters(dists, k, n)),
    decreases k,
{
    if k > 0 {
        lemma_nearest_clusters(dists, k - 1, n);
        let p = nearest_clusters(dists, k - 1, n);
        let r = nearest_clusters(dists, k, n);
        let d = dists[k - 1];
        if d < p.dists.last() {
            lemma_place_from(p.dists, d, 0);
            let at = place_from(p.dists, d, 0);
            assert(at < n) by {
                if at == n {
                    assert(p.dists[n - 1] < d);
                }
            }
            assert forall|i: int, j: int| 0 <= i <= j < r.dists.len() implies (#[trigger] r.dists[i])
                <= (#[trigger] r.dists[j]) by {
                if i < at && j >= at {
                    assert(p.dists[i] < d);
                    if j > at {
                        assert(p.dists[at] <= p.dists[j - 1]);
                    }
                } else if i == at && j > at {
                    assert(p.dists[at] <= p.dists[j - 1]);
                } else if i > at {
                    assert(p.dists[i - 1] <= p.dists[j - 1]);
                } else if j < at {
                    assert(p.dists[i] <= p.dists[j]);
                }
            }
            assert forall|i: int| 0 <= i < r.dists.len() implies (#[trigger] r.dists[i])
                == INFINITY_BITS || (r.ids[i] < k && r.dists[i] == dists[r.ids[i] as int]) by {
                if i < at {
                    assert(p.dists[i] == INFINITY_BITS || p.ids[i] < k - 1);
                } else if i > at {
                    assert(p.dists[i - 1] == INFINITY_BITS || p.ids[i - 1] < k - 1);
                }
            }
            assert forall|c: int| 0 <= c < k implies #[trigger] dists[c] >= r.dists.last() || exists|i:
                int| 0 <= i < r.ids.len() && #[trigger] r.ids[i] == c && r.dists[i] == dists[c] by {
                assert(r.dists.last() <= p.dists.last()) by {
                    if at < n - 1 {
                        assert(r.dists[n - 1] == p.dists[n - 2]);
                        assert(p.dists[n - 2] <= p.dists[n - 1]);
                    }
                }
                if c == k - 1 {
                    assert(r.ids[at] == c);
                } else if dists[c] < p.dists.last() {
                    let i = choose|i: int|
                        0 <= i < p.ids.len() && #[trigger] p.ids[i] == c && p.dists[i] == dists[c];
                    if i < at {
                        assert(r.ids[i] == c);
                    } else {
                        assert(r.ids[i + 1] == c);
                    }
                }
            }
        } else {
            assert forall|i: int| 0 <= i < r.dists.len() implies (#[trigger] r.dists[i])
                == INFINITY_BITS || (r.ids[i] < k && r.dists[i] == dists[r.ids[i] as int]) by {
                assert(p.dists[i] == INFINITY_BITS || p.ids[i] < k - 1);
            }
        }
    }
}

/// The `n` nearest clusters, nearest first.
pub fn top_n_from_dists(dists: &[u32], n: usize) -> (ids: Vec<usize>)
    requires
        n > 0,
    ensures
        ids@ == nearest_clusters(dists@, dists@.len() as int, n as nat).ids,
{
    let mut top_dists: Vec<u32> = vec![INFINITY_BITS; n];
    let mut top_ids: Vec<usize> = vec![0usize; n];
    let k: usize = dists.len();
    proof {
        let p = nearest_clusters(dists@, 0, n as nat);
        assert(top_dists@ =~= p.dists);
        assert(top_ids@ =~= p.ids);
    }
    for c in 0..k
        invariant
            n > 0,
            k == dists.len(),
            top_dists@ == nearest_clusters(dists@, c as int, n as nat).dists,
            top_ids@ == nearest_clusters(dists@, c as int, n as nat).ids,
            top_dists@.len() == n,
            top_ids@.len() == n,
    {
        let d: u32 = dists[c];
        if d < top_dists[n - 1] {
            let ghost p = nearest_clusters(dists@, c as int, n as nat);
            let mut at: usize = 0;
            while at < n && top_dists[at] < d
                invariant
                    top_dists@ == p.dists,
                    top_dists@.len() == n,
                    at <= n,
                    place_from(p.dists, d, 0) == place_from(p.dists, d, at as int),
                decreases n - at,
            {
                at = at + 1;
            }
            proof {
                lemma_place_from(p.dists, d, 0);
                if at == n {
                    assert(p.dists[n - 1] < d);
                }
            }
            top_dists.pop();
            top_ids.pop();
            top_dists.insert(at, d);
            top_ids.insert(at, c);
        }
    }
    top_ids
}

/// The nearest cluster: the first of the nearest ones, or 0 if none is nearer than infinity.
pub fn nearest_one(dists: &[u32]) -> (id: usize)
    ensures
        id == nearest_clusters(dists@, dists@.len() as int, 1).ids[0],
{
    let mut best: usize = 0;
    let mut best_dist: u32 = INFINITY_BITS;
    for c in 0..dists.len()
        invariant
            nearest_clusters(dists@, c as int, 1).dists == seq![best_dist],
            nearest_clusters(dists@, c as int, 1).ids == seq![best],
    {
        let d: u32 = dists[c];
        let ghost p = nearest_clusters(dists@, c as int, 1);
        if d < best_dist {
            best = c;
            best_dist = d;
        }
        proof {
            reveal_with_fuel(place_from, 2);
            let r = nearest_clusters(dists@, c + 1, 1);
            assert(r.dists =~= seq![best_dist]);
            assert(r.ids =~= seq![best]);
        }
    }
    best
}

/// A distance and a label, 1 for fraud.
pub type Found = (u32, u8);

/// The place of the first of the largest distances among the first `n`.
pub open spec fn worst_of(top: Seq<Found>, n: int) -> int
    decreases n,
{
    if n <= 1 {
        0
    } else {
        let w = worst_of(top, n - 1);
        if top[n - 1].0 > top[w].0 {
            n - 1
        } else {
            w
        }
    }
}

/// The kept vectors after `x` was looked at: if it is nearer than the farthest one, it takes its place.
pub open spec fn top_offer(top: Seq<Found>, x: Found) -> Seq<Found> {
    let w = worst_of(top, TOP_K as int);
    if x.0 < top[w].0 {
        top.update(w, x)
    } else {
        top
    }
}

/// The kept vectors after each of `xs` was looked at.
pub open spec fn top_offer_all(top: Seq<Found>, xs: Seq<Found>) -> Seq<Found>
    decreases xs.len(),
{
    if xs.len() == 0 {
        top
    } else {
        top_offer(top_offer_all(top, xs.drop_last()), xs.last())
    }
}

/// Nothing kept yet.
pub open spec fn no_top() -> Seq<Found> {
    Seq::new(TOP_K as nat, |i: int| (INFINITY_BITS, 0u8))
}

proof fn lemma_worst_of(top: Seq<Found>, n: int)
    requires
        1 <= n <= top.len(),
    ensures
        0 <= worst_of(top, n) < n,
        forall|i: int| 0 <= i < n ==> (#[trigger] top[i]).0 <= top[worst_of(top, n)].0,
    decreases n,
{
    if n > 1 {
        lemma_worst_of(top, n - 1);
    }
}

/// The threshold is the distance of the farthest vector kept, the first one of equally far ones.
pub proof fn law_threshold_is_farthest(top: Seq<Found>)
    requires
        top.len() == 5,
    ensures
        ({
            let w = worst_of(top, TOP_K as int);
            &&& 0 <= w < 5
            &&& forall|i: int| 0 <= i < 5 ==> (#[trigger] top[i]).0 <= top[w].0
            &&& forall|i: int| 0 <= i < w ==> (#[trigger] top[i]).0 < top[w].0
        }),
{
    reveal_with_fuel(worst_of, 6);
    lemma_worst_of(top, 5);
}

/// A scan starts with five fillers at infinity, none of them fraud. A vector is kept only if it is nearer than
/// the farthest one kept, whose place it takes; the others stay.
pub proof fn law_offer_replaces_farthest(top: Seq<Found>, x: Found, w: int)
    requires
        top.len() == 5,
        0 <= w < 5,
        forall|i: int| 0 <= i < 5 ==> (#[trigger] top[i]).0 <= top[w].0,
        forall|i: int| 0 <= i < w ==> (#[trigger] top[i]).0 < top[w].0,
    ensures
        top_offer(top, x) == (if x.0 < top[w].0 {
            top.update(w, x)
        } else {
            top
        }),
        no_top() == seq![
            (0x7F80_0000u32, 0u8),
            (0x7F80_0000u32, 0u8),
            (0x7F80_0000u32, 0u8),
            (0x7F80_0000u32, 0u8),
            (0x7F80_0000u32, 0u8),
        ],
{
    law_threshold_is_farthest(top);
    let v = worst_of(top, TOP_K as int);
    assert(v == w) by {
        if v < w {
            assert(top[v].0 < top[w].0);
        }
        if w < v {
            assert(top[w].0 < top[v].0);
        }
    }
}

/// The eight vectors of block `b`: their distances with their labels.
pub open spec fn block_found(blob: &Blob, b: int, dists: Seq<u32>) -> Seq<Found> {
    Seq::new(
        BLOCK_VECS as nat,
        |s: int|
            (
                dists[s],
                if blob.label(b * BLOCK_VECS + s) {
                    1u8
                } else {
                    0u8
                },
            ),
    )
}

/// The five nearest vectors so far, in no order.
pub struct TopFive {
    pub items: [Found; TOP_K],
    /// The place of the farthest.
    pub worst: usize,
}

impl TopFive {
    pub open spec fn wf(&self) -> bool {
        self.worst == worst_of(self.items@, TOP_K as int)
    }

    pub fn new() -> (t: Self)
        ensures
            t.wf(),
            t.items@ == no_top(),
    {
        let items: [Found; TOP_K] = [(INFINITY_BITS, 0u8); TOP_K];
        proof {
            reveal_with_fuel(worst_of, 6);
            assert(items@ =~= no_top());
        }
        TopFive { items, worst: 0 }
    }

    /// The distance below which a vector is kept.
    pub fn threshold(&self) -> (d: u32)
        requires
            self.wf(),
        ensures
            d == self.items@[worst_of(self.items@, TOP_K as int)].0,
    {
        proof {
            lemma_worst_of(self.items@, TOP_K as int);
        }
        self.items[self.worst].0
    }

    /// Looks at a vector.
    pub fn offer(&mut self, d: u32, label: u8)
        requires
            old(self).wf(),
        ensures
            final(self).wf(),
            final(self).items@ == top_offer(old(self).items@, (d, label)),
    {
        proof {
            lemma_worst_of(self.items@, TOP_K as int);
        }
        if d < self.items[self.worst].0 {
            let w: usize = self.worst;
            self.items[w] = (d, label);
            let mut wi: usize = 0;
            let mut j: usize = 1;
            while j < TOP_K
                invariant
                    1 <= j <= TOP_K,
                    wi == worst_of(self.items@, j as int),
                    wi < j,
                decreases TOP_K - j,
            {
                if self.items[j].0 > self.items[wi].0 {
                    wi = j;
                }
                j = j + 1;
            }
            self.worst = wi;
        }
    }

    /// Looks at the eight vectors of block `block` at the given distances.
    pub fn scan_block(&mut self, blob: &Blob, block: u32, dists: &[u32; BLOCK_VECS])
        requires
            old(self).wf(),
            blob.regions_fit(),
            block < blob.total_blocks(),
        ensures
            final(self).wf(),
            final(self).items@ == top_offer_all(
                old(self).items@,
                block_found(blob, block as int, dists@),
            ),
    {
        let ghost before = self.items@;
        let ghost xs = block_found(blob, block as int, dists@);
        assert(xs.take(0) =~= Seq::empty());
        let mut s: usize = 0;
        while s < BLOCK_VECS
            invariant
                s <= BLOCK_VECS,
                blob.regions_fit(),
                block < blob.total_blocks(),
                self.wf(),
                xs == block_found(blob, block as int, dists@),
                self.items@ == top_offer_all(before, xs.take(s as int)),
            decreases BLOCK_VECS - s,
        {
            assert((block * BLOCK_VECS + s) / 8 == block);
            let fraud: bool = blob.is_fraud_slot(block, s as u32);
            let label: u8 = if fraud {
                1
            } else {
                0
            };
            self.offer(dists[s], label);
            proof {
                assert(xs.take(s + 1).drop_last() =~= xs.take(s as int));
                assert(xs.take(s + 1).last() == (dists@[s as int], label));
            }
            s = s + 1;
        }
        assert(xs.take(BLOCK_VECS as int) =~= xs);
    }
}

/// A block none of whose vectors is below the threshold changes nothing.
pub proof fn law_far_block_changes_nothing(top: Seq<Found>, xs: Seq<Found>)
    requires
        forall|i: int| 0 <= i < xs.len() ==> (#[trigger] xs[i]).0 >= top[worst_of(top, TOP_K as int)].0,
    ensures
        top_offer_all(top, xs) == top,
    decreases xs.len(),
{
    if xs.len() > 0 {
        let front = xs.drop_last();
        assert forall|i: int| 0 <= i < front.len() implies (#[trigger] front[i]).0 >= top[worst_of(
            top,
            TOP_K as int,
        )].0 by {
            assert(xs[i].0 >= top[worst_of(top, TOP_K as int)].0);
        }
        law_far_block_changes_nothing(top, front);
        assert(xs[xs.len() - 1] == xs.last());
    }
}

/// What was looked at and not kept: turned away, or kept for a while.
pub open spec fn discarded(top: Seq<Found>, xs: Seq<Found>) -> Multiset<Found>
    decreases xs.len(),
{
    if xs.len() == 0 {
        Multiset::empty()
    } else {
        let before = top_offer_all(top, xs.drop_last());
        let w = worst_of(before, TOP_K as int);
        let gone = discarded(top, xs.drop_last());
        if xs.last().0 < before[w].0 {
            gone.insert(before[w])
        } else {
            gone.insert(xs.last())
        }
    }
}

/// The vectors kept are the nearest of those looked at: nothing is lost or made up, and nothing that was
/// not kept is nearer than anything kept.
pub proof fn law_top_keeps_nearest(top: Seq<Found>, xs: Seq<Found>)
    requires
        top.len() == TOP_K,
    ensures
        top_offer_all(top, xs).len() == TOP_K,
        top_offer_all(top, xs).to_multiset().add(discarded(top, xs)) == top.to_multiset().add(
            xs.to_multiset(),
        ),
        forall|x: Found, i: int|
            #[trigger] discarded(top, xs).count(x) > 0 && 0 <= i < TOP_K ==> (
            #[trigger] top_offer_all(top, xs)[i]).0 <= x.0,
    decreases xs.len(),
{
    broadcast use vstd::seq_lib::group_to_multiset_ensures;
    broadcast use vstd::multiset::group_multiset_axioms;

    if xs.len() == 0 {
        assert(xs.to_multiset() =~= Multiset::empty());
        assert(top.to_multiset().add(Multiset::empty()) =~= top.to_multiset());
    } else {
        let front = xs.drop_last();
        let x = xs.last();
        law_top_keeps_nearest(top, front);
        let before = top_offer_all(top, front);
        let after = top_offer_all(top, xs);
        let w = worst_of(before, TOP_K as int);
        let gone = discarded(top, front);
        let now = discarded(top, xs);
        lemma_worst_of(before, TOP_K as int);
        assert(front.push(x) =~= xs);
        assert(xs.to_multiset() =~= front.to_multiset().insert(x));
        if x.0 < before[w].0 {
            vstd::seq_lib::to_multiset_update(before, w, x);
            assert(before.contains(before[w]));
            assert(before.to_multiset().count(before[w]) > 0);
            assert(after.to_multiset().add(now) =~= before.to_multiset().add(gone).insert(x));
        } else {
            assert(after.to_multiset().add(now) =~= before.to_multiset().add(gone).insert(x));
        }
        assert(top.to_multiset().add(xs.to_multiset()) =~= top.to_multiset().add(
            front.to_multiset(),
        ).insert(x));
        assert forall|y: Found, i: int|
            #[trigger] now.count(y) > 0 && 0 <= i < TOP_K implies (#[trigger] after[i]).0 <= y.0 by {
            assert(before[i].0 <= before[w].0);
            if gone.count(y) > 0 {
                assert(before[i].0 <= y.0);
                assert(before[w].0 <= y.0);
            }
        }
    }
}

/// How thorough a count is.
#[derive(Debug, Clone, Copy, PartialEq, Eq, Structural)]
pub enum Tier {
    Fast,
    Mid,
    Deep,
}

/// What follows a count.
#[derive(Debug, Clone, Copy, PartialEq, Eq, Structural)]
pub enum Verdict {
    /// The count stands.
    Done(u8),
    /// Count again, more thoroughly.
    Again(Tier),
}

impl Tier {
    pub open spec fn probes(self) -> usize {
        match self {
            Tier::Fast => NPROBE_FAST,
            Tier::Mid => NPROBE_MID,
            Tier::Deep => NPROBE_DEEP,
        }
    }

    /// Clusters that are probed.
    pub fn nprobe(self) -> (n: usize)
        ensures
            n == self.probes(),
            n > 0,
    {
        match self {
            Tier::Fast => NPROBE_FAST,
            Tier::Mid => NPROBE_MID,
            Tier::Deep => NPROBE_DEEP,
        }
    }

    /// What follows a fraud count: a unanimous fast count stands, so does a mid count that is not close,
    /// and so does every deep count.
    pub open spec fn verdict_on(self, count: u8) -> Verdict {
        match self {
            Tier::Fast => if count == 0 || count == 5 {
                Verdict::Done(count)
            } else {
                Verdict::Again(Tier::Mid)
            },
            Tier::Mid => if count == 2 || count == 3 {
                Verdict::Again(Tier::Deep)
            } else {
                Verdict::Done(count)
            },
            Tier::Deep => Verdict::Done(count),
        }
    }

    /// Decides what follows a fraud count.
    pub fn verdict(self, count: u8) -> (v: Verdict)
        ensures
            v == self.verdict_on(count),
    {
        match self {
            Tier::Fast => if count == 0 || count == 5 {
                Verdict::Done(count)
            } else {
                Verdict::Again(Tier::Mid)
            },
            Tier::Mid => if count == 2 || count == 3 {
                Verdict::Again(Tier::Deep)
            } else {
                Verdict::Done(count)
            },
            Tier::Deep => Verdict::Done(count),
        }
    }
}

/// A count that does not stand is followed by one with more probes, so there are at most three.
pub proof fn law_tiers_deepen(t: Tier, count: u8)
    ensures
        t.verdict_on(count) matches Verdict::Again(next) ==> next.probes() > t.probes(),
        t.verdict_on(count) matches Verdict::Done(c) ==> c == count,
{
}

/// Four clusters are probed at first, then twelve, then thirty-two. A first count of none or all five stands;
/// so does a second one but two or three; and so does every third one.
pub proof fn law_tiers(count: u8)
    ensures
        Tier::Fast.probes() == 4,
        Tier::Mid.probes() == 12,
        Tier::Deep.probes() == 32,
        count == 0 || count == 5 <==> Tier::Fast.verdict_on(count) == Verdict::Done(count),
        count != 0 && count != 5 <==> Tier::Fast.verdict_on(count) == Verdict::Again(Tier::Mid),
        count != 2 && count != 3 <==> Tier::Mid.verdict_on(count) == Verdict::Done(count),
        count == 2 || count == 3 <==> Tier::Mid.verdict_on(count) == Verdict::Again(Tier::Deep),
        Tier::Deep.verdict_on(count) == Verdict::Done(count),
{
}

/// The probes are clusters with their distances, ascending and distinct, with fillers at infinity behind them, and
/// no cluster that was left out is nearer than one chosen.
pub proof fn law_probes_are_nearest(dists: Seq<u32>, n: nat, i: int, c: int)
    requires
        n > 0,
        dists.len() <= usize::MAX,
        0 <= i < n,
        0 <= c < dists.len(),
    ensures
        ({
            let p = nearest_clusters(dists, dists.len() as int, n);
            &&& p.dists.len() == n && p.ids.len() == n
            &&& p.dists[i] < 0x7F80_0000 ==> p.ids[i] < dists.len() && p.dists[i] == dists[p.ids[i] as int]
            &&& p.dists[i] <= 0x7F80_0000
            &&& i + 1 < n ==> p.dists[i] <= p.dists[i + 1]
            &&& i + 1 < n && p.dists[i + 1] < 0x7F80_0000 ==> p.ids[i] != p.ids[i + 1]
            &&& !p.ids.contains(c as usize) ==> p.dists[i] <= dists[c]
        }),
{
    law_nearest_clusters(dists, dists.len() as int, n);
    let p = nearest_clusters(dists, dists.len() as int, n);
    assert(dists[c] >= p.dists.last() || exists|j: int|
        0 <= j < p.ids.len() && #[trigger] p.ids[j] == c && p.dists[j] == dists[c]);
    assert(p.dists[i] <= p.dists[n - 1]);
    if exists|j: int| 0 <= j < p.ids.len() && #[trigger] p.ids[j] == c && p.dists[j] == dists[c] {
        let j = choose|j: int| 0 <= j < p.ids.len() && #[trigger] p.ids[j] == c && p.dists[j] == dists[c];
        assert(p.ids.contains(p.ids[j]));
    }
}

proof fn lemma_ties(dists: Seq<u32>, k: int, n: nat)
    requires
        n > 0,
        0 <= k <= dists.len(),
        k <= usize::MAX,
    ensures
        ({
            let p = nearest_clusters(dists, k, n);
            forall|i: int, j: int|
                0 <= i < j < n && #[trigger] p.dists[i] == #[trigger] p.dists[j] && p.dists[i]
                    < INFINITY_BITS ==> p.ids[i] > p.ids[j]
        }),
    decreases k,
{
    if k > 0 {
        lemma_ties(dists, k - 1, n);
        lemma_nearest_clusters(dists, k - 1, n);
        let p = nearest_clusters(dists, k - 1, n);
        let r = nearest_clusters(dists, k, n);
        let d = dists[k - 1];
        if d < p.dists.last() {
            lemma_place_from(p.dists, d, 0);
            let at = place_from(p.dists, d, 0);
            assert forall|i: int, j: int|
                0 <= i < j < n && #[trigger] r.dists[i] == #[trigger] r.dists[j] && r.dists[i]
                    < INFINITY_BITS implies r.ids[i] > r.ids[j] by {
                let a = if i > at {
                    i - 1
                } else {
                    i
                };
                let b = if j > at {
                    j - 1
                } else {
                    j
                };
                if i == at {
                    assert(r.dists[j] == p.dists[b] && r.ids[j] == p.ids[b]);
                    assert(p.ids[b] < k - 1);
                } else if j == at {
                    assert(r.dists[i] == p.dists[a]);
                    assert(p.dists[a] < d);
                } else {
                    assert(r.dists[i] == p.dists[a] && r.dists[j] == p.dists[b]);
                    assert(r.ids[i] == p.ids[a] && r.ids[j] == p.ids[b]);
                    assert(p.dists[a] == p.dists[b]);
                }
            }
        }
    }
}

/// Of chosen clusters at the same distance the one with the higher number comes first.
pub proof fn law_probe_ties(dists: Seq<u32>, n: nat, i: int, j: int)
    requires
        n > 0,
        dists.len() <= usize::MAX,
        0 <= i < j < n,
    ensures
        ({
            let p = nearest_clusters(dists, dists.len() as int, n);
            p.dists[i] == p.dists[j] && p.dists[i] < 0x7F80_0000 ==> p.ids[i] > p.ids[j]
        }),
{
    lemma_ties(dists, dists.len() as int, n);
}

proof fn lemma_nearest_one(dists: Seq<u32>, k: int, c: int)
    requires
        0 <= k <= dists.len(),
        k <= usize::MAX,
    ensures
        ({
            let p = nearest_clusters(dists, k, 1);
            &&& p.dists.len() == 1 && p.ids.len() == 1
            &&& 0 <= c < k && dists[c] < 0x7F80_0000 && (forall|i: int|
                0 <= i < c ==> #[trigger] dists[i] > dists[c]) && (forall|i: int|
                c < i < k ==> #[trigger] dists[i] >= dists[c]) ==> p.ids[0] == c && p.dists[0] == dists[c]
            &&& (forall|i: int| 0 <= i < k ==> #[trigger] dists[i] >= 0x7F80_0000) ==> p.ids[0] == 0
                && p.dists[0] == 0x7F80_0000
            &&& forall|d: u32|
                d < 0x7F80_0000 && (forall|i: int| 0 <= i < k ==> #[trigger] dists[i] > d)
                    ==> #[trigger] above_bits(p.dists[0], d)
        }),
    decreases k,
{
    if k > 0 {
        lemma_nearest_one(dists, k - 1, c);
        let before = nearest_clusters(dists, k - 1, 1);
        let p = nearest_clusters(dists, k, 1);
        let d = dists[k - 1];
        if d < before.dists.last() {
            assert(place_from(before.dists, d, 0) == 0);
            assert(p.dists =~= seq![d]);
            assert(p.ids =~= seq![(k - 1) as usize]);
        }
        if c == k - 1 && dists[c] < 0x7F80_0000 && (forall|i: int|
            0 <= i < c ==> #[trigger] dists[i] > dists[c]) {
            assert(above_bits(before.dists[0], dists[c]));
        }
    }
}

/// `a` is above `b`.
spec fn above_bits(a: u32, b: u32) -> bool {
    a > b
}

/// The nearest cluster is the first of those at the smallest distance; it is 0 if none is nearer than infinity.
pub proof fn law_nearest_one(dists: Seq<u32>, c: int)
    requires
        dists.len() <= usize::MAX,
    ensures
        0 <= c < dists.len() && dists[c] < 0x7F80_0000 && (forall|i: int|
            0 <= i < c ==> #[trigger] dists[i] > dists[c]) && (forall|i: int|
            c < i < dists.len() ==> #[trigger] dists[i] >= dists[c]) ==> nearest_clusters(
            dists,
            dists.len() as int,
            1,
        ).ids[0] == c,
        (forall|i: int| 0 <= i < dists.len() ==> #[trigger] dists[i] >= 0x7F80_0000) ==> nearest_clusters(
            dists,
            dists.len() as int,
            1,
        ).ids[0] == 0,
{
    lemma_nearest_one(dists, dists.len() as int, c);
}

} // verus!
