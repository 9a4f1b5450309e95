//! Scanning the blocks of the clusters chosen for a query.
use crate::blob::{law_cluster_blocks_fit, Blob};
use crate::consts::{BLOCK_VECS, TOP_K};
use crate::ivf::{
    block_found, discarded, law_far_block_changes_nothing, law_top_keeps_nearest, no_top, top_offer_all,
    worst_of, Found, TopFive,
};
use vstd::prelude::*;

verus! {

/// The numbers from `a` up to, but not including, `b`.
pub open spec fn range(a: int, b: int) -> Seq<u32> {
    Seq::new(
        if a < b {
            (b - a) as nat
        } else {
            0
        },
        |i: int| (a + i) as u32,
    )
}

/// The blocks of the clusters `probes`, one cluster after the other.
pub open spec fn blocks_of(blob: &Blob, probes: Seq<usize>) -> Seq<u32>
    decreases probes.len(),
{
    if probes.len() == 0 {
        Seq::empty()
    } else {
        let c = probes.last() as int;
        blocks_of(blob, probes.drop_last()) + range(blob.offset(c), blob.offset(c + 1))
    }
}

/// Every listed cluster is one of the blob's.
pub open spec fn are_clusters(blob: &Blob, probes: Seq<usize>) -> bool {
    forall|i: int| 0 <= i < probes.len() ==> #[trigger] probes[i] < blob.k()
}

/// The vectors of the listed blocks, with the distances that `dists` gives for each block.
pub open spec fn found_in(
    blob: &Blob,
    blocks: Seq<u32>,
    dists: spec_fn(int) -> Seq<u32>,
) -> Seq<Found>
    decreases blocks.len(),
{
    if blocks.len() == 0 {
        Seq::empty()
    } else {
        let b = blocks[0] as int;
        block_found(blob, b, dists(b)) + found_in(blob, blocks.skip(1), dists)
    }
}

/// The kept vectors after the listed blocks were scanned, those left out for which `far` says so.
pub open spec fn scanned(
    blob: &Blob,
    blocks: Seq<u32>,
    dists: spec_fn(int) -> Seq<u32>,
    far: spec_fn(Seq<Found>, int) -> bool,
    top: Seq<Found>,
) -> Seq<Found>
    decreases blocks.len(),
{
    if blocks.len() == 0 {
        top
    } else {
        let b = blocks[0] as int;
        let after = if far(top, b) {
            top
        } else {
            top_offer_all(top, block_found(blob, b, dists(b)))
        };
        scanned(blob, blocks.skip(1), dists, far, after)
    }
}

/// Blocks are left out only if none of their vectors is nearer than the farthest one kept.
pub open spec fn skips_only_far(
    dists: spec_fn(int) -> Seq<u32>,
    far: spec_fn(Seq<Found>, int) -> bool,
) -> bool {
    forall|top: Seq<Found>, b: int, s: int|
        #![trigger far(top, b), dists(b)[s]]
        far(top, b) && 0 <= s < BLOCK_VECS ==> dists(b)[s] >= top[worst_of(top, TOP_K as int)].0
}

proof fn lemma_offer_all_concat(top: Seq<Found>, a: Seq<Found>, b: Seq<Found>)
    ensures
        top_offer_all(top, a + b) == top_offer_all(top_offer_all(top, a), b),
    decreases b.len(),
{
    if b.len() == 0 {
        assert(a + b =~= a);
    } else {
        lemma_offer_all_concat(top, a, b.drop_last());
        assert((a + b).drop_last() =~= a + b.drop_last());
        assert((a + b).last() == b.last());
    }
}

/// Leaving out far blocks makes no difference: the vectors kept are those that are kept when every
/// vector of every listed block is looked at.
pub proof fn law_skipping_far_blocks_is_harmless(
    blob: &Blob,
    blocks: Seq<u32>,
    dists: spec_fn(int) -> Seq<u32>,
    far: spec_fn(Seq<Found>, int) -> bool,
    top: Seq<Found>,
)
    requires
        skips_only_far(dists, far),
    ensures
        scanned(blob, blocks, dists, far, top) == top_offer_all(top, found_in(blob, blocks, dists)),
    decreases blocks.len(),
{
    if blocks.len() > 0 {
        let b = blocks[0] as int;
        let xs = block_found(blob, b, dists(b));
        if far(top, b) {
            assert forall|i: int| 0 <= i < xs.len() implies (#[trigger] xs[i]).0 >= top[worst_of(
                top,
                TOP_K as int,
            )].0 by {
                assert(xs[i].0 == dists(b)[i]);
            }
            law_far_block_changes_nothing(top, xs);
        }
        let after = top_offer_all(top, xs);
        law_skipping_far_blocks_is_harmless(blob, blocks.skip(1), dists, far, after);
        lemma_offer_all_concat(top, xs, found_in(blob, blocks.skip(1), dists));
    }
}

/// A scan of the chosen clusters keeps five nearest of their vectors: it ends with vectors of these
/// clusters, or fillers at infinity, and none that it dropped is nearer than any that it kept.
pub proof fn law_scan_keeps_nearest(
    blob: &Blob,
    blocks: Seq<u32>,
    dists: spec_fn(int) -> Seq<u32>,
    far: spec_fn(Seq<Found>, int) -> bool,
)
    requires
        skips_only_far(dists, far),
    ensures
        ({
            let kept = scanned(blob, blocks, dists, far, no_top());
            let all = found_in(blob, blocks, dists);
            let gone = discarded(no_top(), all);
            &&& kept.len() == TOP_K
            &&& kept.to_multiset().add(gone) == no_top().to_multiset().add(all.to_multiset())
            &&& forall|x: Found, i: int|
                #[trigger] gone.count(x) > 0 && 0 <= i < TOP_K ==> (#[trigger] kept[i]).0 <= x.0
        }),
{
    law_skipping_far_blocks_is_harmless(blob, blocks, dists, far, no_top());
    law_top_keeps_nearest(no_top(), found_in(blob, blocks, dists));
}

proof fn lemma_blocks_fit(blob: &Blob, probes: Seq<usize>)
    requires
        blob.wf(),
        are_clusters(blob, probes),
    ensures
        forall|j: int|
            0 <= j < blocks_of(blob, probes).len() ==> (#[trigger] blocks_of(blob, probes)[j])
                < blob.total_blocks(),
    decreases probes.len(),
{
    if probes.len() > 0 {
        let c = probes.last() as int;
        assert(probes[probes.len() - 1] < blob.k());
        assert(are_clusters(blob, probes.drop_last())) by {
            assert forall|i: int| 0 <= i < probes.drop_last().len() implies #[trigger]
                probes.drop_last()[i] < blob.k() by {
                assert(probes[i] < blob.k());
            }
        }
        lemma_blocks_fit(blob, probes.drop_last());
        law_cluster_blocks_fit(blob, c + 1, blob.k());
        let front = blocks_of(blob, probes.drop_last());
        let own = range(blob.offset(c), blob.offset(c + 1));
        assert(0 <= blob.offset(c) && blob.total_blocks() <= u32::MAX);
        assert forall|j: int| 0 <= j < (front + own).len() implies (#[trigger] (front + own)[j])
            < blob.total_blocks() by {
            if j >= front.len() {
                assert(own[j - front.len()] == blob.offset(c) + (j - front.len()));
            }
        }
    }
}

/// The blocks to scan are those that lie, for one of the chosen clusters, from its first block up to the first
/// block of the next cluster.
pub proof fn law_blocks_of_clusters(blob: &Blob, probes: Seq<usize>, b: u32)
    ensures
        blocks_of(blob, probes).contains(b) <==> exists|i: int|
            0 <= i < probes.len() && blob.offset(#[trigger] probes[i] as int) <= b && b < blob.offset(
                probes[i] + 1,
            ),
    decreases probes.len(),
{
    let all = blocks_of(blob, probes);
    if probes.len() > 0 {
        let rest = probes.drop_last();
        let c = probes.last() as int;
        let front = blocks_of(blob, rest);
        let own = range(blob.offset(c), blob.offset(c + 1));
        law_blocks_of_clusters(blob, rest, b);
        assert(0 <= blob.offset(c) && blob.offset(c + 1) <= u32::MAX);
        assert(all == front + own);
        assert(own.contains(b) <==> blob.offset(c) <= b < blob.offset(c + 1)) by {
            if blob.offset(c) <= b < blob.offset(c + 1) {
                assert(own[b - blob.offset(c)] == b);
            }
        }
        assert(all.contains(b) <==> front.contains(b) || own.contains(b)) by {
            if front.contains(b) {
                let j = choose|j: int| 0 <= j < front.len() && front[j] == b;
                assert(all[j] == b);
            }
            if own.contains(b) {
                let j = choose|j: int| 0 <= j < own.len() && own[j] == b;
                assert(all[front.len() + j] == b);
            }
        }
        if front.contains(b) {
            let i = choose|i: int|
                0 <= i < rest.len() && blob.offset(#[trigger] rest[i] as int) <= b && b < blob.offset(
                    rest[i] + 1,
                );
            assert(probes[i] == rest[i]);
        }
        if own.contains(b) {
            assert(probes[probes.len() - 1] == c);
        }
        if exists|i: int|
            0 <= i < probes.len() && blob.offset(#[trigger] probes[i] as int) <= b && b < blob.offset(
                probes[i] + 1,
            ) {
            let i = choose|i: int|
                0 <= i < probes.len() && blob.offset(#[trigger] probes[i] as int) <= b && b
                    < blob.offset(probes[i] + 1);
            if i < rest.len() {
                assert(rest[i] == probes[i]);
            }
        }
    }
}

/// No block of distinct clusters is scanned twice.
pub proof fn law_blocks_are_distinct(blob: &Blob, probes: Seq<usize>)
    requires
        blob.wf(),
        are_clusters(blob, probes),
        probes.no_duplicates(),
    ensures
        blocks_of(blob, probes).no_duplicates(),
    decreases probes.len(),
{
    if probes.len() > 0 {
        let rest = probes.drop_last();
        let c = probes.last() as int;
        let front = blocks_of(blob, rest);
        let own = range(blob.offset(c), blob.offset(c + 1));
        let all = blocks_of(blob, probes);
        assert(0 <= blob.offset(c) && blob.offset(c + 1) <= u32::MAX);
        assert(probes[probes.len() - 1] < blob.k());
        assert(are_clusters(blob, rest)) by {
            assert forall|i: int| 0 <= i < rest.len() implies #[trigger] rest[i] < blob.k() by {
                assert(probes[i] < blob.k());
            }
        }
        law_blocks_are_distinct(blob, rest);
        assert forall|a: int, b: int|
            0 <= a < all.len() && 0 <= b < all.len() && a != b implies all[a] != all[b] by {
            let (x, y) = if a < b {
                (a, b)
            } else {
                (b, a)
            };
            if x < front.len() && y >= front.len() {
                assert(all[y] == own[y - front.len()]);
                assert(front.contains(front[x]));
                law_blocks_of_clusters(blob, rest, front[x]);
                let i = choose|i: int|
                    0 <= i < rest.len() && blob.offset(#[trigger] rest[i] as int) <= front[x]
                        && front[x] < blob.offset(rest[i] + 1);
                let e = rest[i] as int;
                assert(probes[i] == e && probes[i] < blob.k());
                assert(e != c);
                if e < c {
                    law_cluster_blocks_fit(blob, e + 1, c);
                } else {
                    law_cluster_blocks_fit(blob, c + 1, e);
                }
            } else if x >= front.len() {
                assert(all[x] == own[x - front.len()]);
                assert(all[y] == own[y - front.len()]);
            }
        }
    }
}

/// Eight vectors are found in each block, slot by slot, each with its distance and 1 for fraud, 0 else.
pub proof fn law_found_in_blocks(
    blob: &Blob,
    blocks: Seq<u32>,
    dists: spec_fn(int) -> Seq<u32>,
    j: int,
    s: int,
)
    requires
        0 <= j < blocks.len(),
        0 <= s < 8,
    ensures
        found_in(blob, blocks, dists).len() == 8 * blocks.len(),
        found_in(blob, blocks, dists)[8 * j + s] == (
            dists(blocks[j] as int)[s],
            if blob.label(8 * blocks[j] + s) {
                1u8
            } else {
                0u8
            },
        ),
    decreases blocks.len(),
{
    let rest = blocks.skip(1);
    if rest.len() > 0 {
        let i = if j > 0 {
            j - 1
        } else {
            0
        };
        law_found_in_blocks(blob, rest, dists, i, s);
    } else {
        assert(found_in(blob, rest, dists).len() == 0);
    }
}

/// A scan of the blocks of chosen clusters.
pub struct Scan {
    pub top: TopFive,
    /// The blocks of the clusters.
    pub blocks: Vec<u32>,
    /// How many of them are done.
    pub done: usize,
}

impl Scan {
    pub open spec fn wf(&self, blob: &Blob) -> bool {
        &&& self.top.wf()
        &&& self.done <= self.blocks.len()
        &&& forall|j: int|
            0 <= j < self.blocks@.len() ==> (#[trigger] self.blocks@[j]) < blob.total_blocks()
    }

    /// The blocks that are left.
    pub open spec fn left(&self) -> Seq<u32> {
        self.blocks@.skip(self.done as int)
    }

    /// A scan of the clusters `probes` that is about to start.
    pub fn new(blob: &Blob, probes: &[usize]) -> (scan: Self)
        requires
            blob.wf(),
            are_clusters(blob, probes@),
        ensures
            scan.wf(blob),
            scan.top.items@ == no_top(),
            scan.left() == blocks_of(blob, probes@),
            scan.done == 0,
            forall|b: u32| #[trigger] scan.blocks@.contains(b) <==> exists|i: int|
                0 <= i < probes@.len() && blob.offset(#[trigger] probes@[i] as int) <= b && b
                    < blob.offset(probes@[i] + 1),
    {
        let mut blocks: Vec<u32> = Vec::new();
        let mut i: usize = 0;
        while i < probes.len()
            invariant
                i <= probes.len(),
                blob.wf(),
                are_clusters(blob, probes@),
                blocks@ == blocks_of(blob, probes@.take(i as int)),
            decreases probes.len() - i,
        {
            assert(probes@[i as int] < blob.k());
            let c: u32 = probes[i] as u32;
            let start: u32 = blob.cluster_offset(c);
            let end: u32 = blob.cluster_offset(c + 1);
            let ghost before = blocks@;
            let mut b: u32 = start;
            while b < end
                invariant
                    start <= end ==> b <= end,
                    start <= b,
                    blocks@ == before + range(start as int, b as int),
                decreases end - b,
            {
                blocks.push(b);
                assert(before + range(start as int, b + 1) =~= (before + range(
                    start as int,
                    b as int,
                )).push(b));
                b = b + 1;
            }
            proof {
                assert(range(start as int, b as int) =~= range(start as int, end as int));
                assert(probes@.take(i + 1).drop_last() =~= probes@.take(i as int));
            }
            i = i + 1;
        }
        assert(probes@.take(probes.len() as int) =~= probes@);
        proof {
            lemma_blocks_fit(blob, probes@);
        }
        let scan = Scan { top: TopFive::new(), blocks, done: 0 };
        proof {
            assert(scan.left() =~= blocks_of(blob, probes@));
            assert forall|b: u32| #[trigger] scan.blocks@.contains(b) <==> exists|i: int|
                0 <= i < probes@.len() && blob.offset(#[trigger] probes@[i] as int) <= b && b
                    < blob.offset(probes@[i] + 1) by {
                law_blocks_of_clusters(blob, probes@, b);
            }
        }
        scan
    }

    /// The next block, if one is left.
    pub fn current(&self, blob: &Blob) -> (b: Option<u32>)
        requires
            self.wf(blob),
        ensures
            b is None <==> self.left().len() == 0,
            b is Some ==> b.unwrap() == self.left()[0] && b.unwrap() < blob.total_blocks(),
    {
        if self.done < self.blocks.len() {
            Some(self.blocks[self.done])
        } else {
            None
        }
    }

    /// Looks at the vectors of the next block, which are at the given distances.
    pub fn take(&mut self, blob: &Blob, dists: &[u32; BLOCK_VECS])
        requires
            old(self).wf(blob),
            blob.regions_fit(),
            old(self).left().len() > 0,
        ensures
            final(self).wf(blob),
            final(self).top.items@ == top_offer_all(
                old(self).top.items@,
                block_found(blob, old(self).left()[0] as int, dists@),
            ),
            final(self).left() == old(self).left().skip(1),
    {
        let b: u32 = self.blocks[self.done];
        self.top.scan_block(blob, b, dists);
        self.done = self.done + 1;
        assert(self.left() =~= old(self).left().skip(1));
    }

    /// Leaves out the next block.
    pub fn skip(&mut self, blob: &Blob)
        requires
            old(self).wf(blob),
            old(self).left().len() > 0,
        ensures
            final(self).wf(blob),
            final(self).top == old(self).top,
            final(self).left() == old(self).left().skip(1),
    {
        self.done = self.done + 1;
        assert(self.left() =~= old(self).left().skip(1));
    }
}

} // verus!
