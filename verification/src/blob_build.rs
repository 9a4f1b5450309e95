//! Building a cluster blob.
//!
//! The blob is made of the header, the centroids dimension by dimension, the first block of each
//! cluster, the blocks, one label bit for each slot, and the risk table.
use crate::bytes::{
    i16_bytes, i16s_bytes, i8_byte, lemma_i16s_push, lemma_u32s_push, push_i16, push_i8, push_u32,
    u32s_bytes,
};
use crate::consts::{BLOCK_I16, BLOCK_VECS, MAGIC, MCC_TABLE_SIZE, VECTOR_DIM, VERSION};
use crate::header::{HEADER_PADDING, HEADER_SIZE, BlobHeader};
use crate::sort::{first_i64, law_stable_sort, sort_by_i64, stable_sort};
use vstd::prelude::*;

verus! {

/// The risk of a merchant category that is not listed: half, scaled to 127 and rounded.
pub const DEFAULT_RISK: i8 = 64;

/// What a blob is built from.
pub struct BuildInputs<'a> {
    /// Bit patterns of the centroids' coordinates.
    pub centroids: &'a [[u32; VECTOR_DIM]],
    /// The cluster of each vector.
    pub assignments: &'a [u32],
    /// The quantized vectors.
    pub vectors: &'a [[i16; VECTOR_DIM]],
    /// Bit patterns of the squared distances of the vectors to the centroids of their clusters.
    pub distances: &'a [u32],
    pub is_fraud: &'a [bool],
    /// Merchant categories with their risks, scaled to 127.
    pub mcc_risk: &'a [(u32, i8)],
}

/// The place of a floating-point number with the given bits in the total order of such numbers: below
/// zero the larger magnitude comes first.
pub open spec fn total_key(bits: u32) -> int {
    if bits < 0x8000_0000 {
        bits as int
    } else {
        0x7FFF_FFFF - bits
    }
}

/// The ids below `n` that are assigned to cluster `c`, ascending.
pub open spec fn members(assignments: Seq<u32>, c: int, n: int) -> Seq<u32>
    decreases n,
{
    if n <= 0 {
        Seq::empty()
    } else if assignments[n - 1] == c {
        members(assignments, c, n - 1).push((n - 1) as u32)
    } else {
        members(assignments, c, n - 1)
    }
}

/// An id with the key it is sorted by.
pub open spec fn keyed(distances: Seq<u32>) -> spec_fn(u32) -> (i64, u32) {
    |i: u32| (total_key(distances[i as int]) as i64, i)
}

/// The id of a pair.
pub open spec fn second() -> spec_fn((i64, u32)) -> u32 {
    |p: (i64, u32)| p.1
}

/// `ids` by ascending distance, ids at equal distance in their order.
pub open spec fn by_distance(distances: Seq<u32>, ids: Seq<u32>) -> Seq<u32> {
    stable_sort(ids.map_values(keyed(distances)), first_i64()).map_values(second())
}

/// Blocks that `len` vectors take up.
pub open spec fn blocks_for(len: int) -> int {
    (len + BLOCK_VECS - 1) / BLOCK_VECS as int
}

/// Coordinate `d` of the vector at place `g` of a cluster; `i16::MAX` behind the last vector.
pub open spec fn slot_value(
    vectors: Seq<[i16; VECTOR_DIM]>,
    ids: Seq<u32>,
    d: int,
    g: int,
) -> i16 {
    if g < ids.len() {
        vectors[ids[g] as int]@[d]
    } else {
        i16::MAX
    }
}

/// The blocks of a cluster: in each block the eight slots of dimension 0, of dimension 1, and so on.
pub open spec fn cluster_values(vectors: Seq<[i16; VECTOR_DIM]>, ids: Seq<u32>) -> Seq<i16> {
    Seq::new(
        (blocks_for(ids.len() as int) * BLOCK_I16) as nat,
        |i: int| slot_value(vectors, ids, (i % 112) / 8, (i / 112) * 8 + i % 8),
    )
}

/// 1 if the vector at place `g` of a cluster is labelled as fraud.
pub open spec fn flag(is_fraud: Seq<bool>, ids: Seq<u32>, g: int) -> int {
    if g < ids.len() && is_fraud[ids[g] as int] {
        1
    } else {
        0
    }
}

/// The label bits of block `b` of a cluster.
pub open spec fn label_byte(is_fraud: Seq<bool>, ids: Seq<u32>, b: int) -> u8 {
    (flag(is_fraud, ids, b * 8) + 2 * flag(is_fraud, ids, b * 8 + 1) + 4 * flag(
        is_fraud,
        ids,
        b * 8 + 2,
    ) + 8 * flag(is_fraud, ids, b * 8 + 3) + 16 * flag(is_fraud, ids, b * 8 + 4) + 32 * flag(
        is_fraud,
        ids,
        b * 8 + 5,
    ) + 64 * flag(is_fraud, ids, b * 8 + 6) + 128 * flag(is_fraud, ids, b * 8 + 7)) as u8
}

/// The label bytes of a cluster, one for each block.
pub open spec fn cluster_labels(is_fraud: Seq<bool>, ids: Seq<u32>) -> Seq<u8> {
    Seq::new(blocks_for(ids.len() as int) as nat, |b: int| label_byte(is_fraud, ids, b))
}

/// The risk table: where two categories share an entry the later one stands.
pub open spec fn risk_table(entries: Seq<(u32, i8)>) -> Seq<i8>
    decreases entries.len(),
{
    if entries.len() == 0 {
        Seq::new(MCC_TABLE_SIZE as nat, |i: int| DEFAULT_RISK)
    } else {
        risk_table(entries.drop_last()).update(
            entries.last().0 as int % MCC_TABLE_SIZE as int,
            entries.last().1,
        )
    }
}

impl<'a> BuildInputs<'a> {
    pub open spec fn n(&self) -> int {
        self.vectors@.len() as int
    }

    pub open spec fn k(&self) -> int {
        self.centroids@.len() as int
    }

    pub open spec fn wf(&self) -> bool {
        &&& self.vectors.len() <= u32::MAX
        &&& self.centroids.len() <= u32::MAX
        &&& self.assignments@.len() == self.n()
        &&& self.distances@.len() == self.n()
        &&& self.is_fraud@.len() == self.n()
        &&& forall|i: int| 0 <= i < self.n() ==> (#[trigger] self.assignments@[i]) < self.k()
    }

    /// The vectors of cluster `c`, nearest to the centroid first.
    pub open spec fn cluster(&self, c: int) -> Seq<u32> {
        by_distance(self.distances@, members(self.assignments@, c, self.n()))
    }

    /// The first block of cluster `c`.
    pub open spec fn offset(&self, c: int) -> int
        decreases c,
    {
        if c <= 0 {
            0
        } else {
            self.offset(c - 1) + blocks_for(self.cluster(c - 1).len() as int)
        }
    }

    /// The blocks of the clusters below `c`.
    pub open spec fn values(&self, c: int) -> Seq<i16>
        decreases c,
    {
        if c <= 0 {
            Seq::empty()
        } else {
            self.values(c - 1) + cluster_values(self.vectors@, self.cluster(c - 1))
        }
    }

    /// The label bytes of the clusters below `c`.
    pub open spec fn labels(&self, c: int) -> Seq<u8>
        decreases c,
    {
        if c <= 0 {
            Seq::empty()
        } else {
            self.labels(c - 1) + cluster_labels(self.is_fraud@, self.cluster(c - 1))
        }
    }

    /// The centroids' coordinates, dimension by dimension.
    pub open spec fn centroid_values(&self) -> Seq<u32> {
        Seq::new(
            (VECTOR_DIM * self.k()) as nat,
            |i: int| self.centroids@[i % self.k()]@[i / self.k()],
        )
    }

    /// The first block of each cluster, and the number of blocks.
    pub open spec fn offsets(&self) -> Seq<u32> {
        Seq::new((self.k() + 1) as nat, |c: int| self.offset(c) as u32)
    }

    pub open spec fn blocks_at(&self) -> int {
        HEADER_SIZE + 60 * self.k() + 4
    }

    pub open spec fn labels_at(&self) -> int {
        self.blocks_at() + 224 * self.offset(self.k())
    }

    /// Bytes of the blob.
    pub open spec fn size(&self) -> int {
        self.labels_at() + self.offset(self.k()) + MCC_TABLE_SIZE
    }

    /// The numbers of the header.
    pub open spec fn header_fields(&self) -> Seq<u32> {
        seq![
            VERSION,
            self.n() as u32,
            (self.offset(self.k()) * 8) as u32,
            self.offset(self.k()) as u32,
            self.k() as u32,
            HEADER_SIZE as u32,
            (HEADER_SIZE + 56 * self.k()) as u32,
            self.blocks_at() as u32,
            self.labels_at() as u32,
            (self.labels_at() + self.offset(self.k())) as u32,
            self.size() as u32,
        ]
    }

    /// The header.
    pub open spec fn header_bytes(&self) -> Seq<u8> {
        MAGIC@ + u32s_bytes(self.header_fields()) + Seq::new(HEADER_PADDING as nat, |i: int| 0u8)
    }

    /// The blob.
    pub open spec fn bytes(&self) -> Seq<u8> {
        self.header_bytes() + u32s_bytes(self.centroid_values()) + u32s_bytes(self.offsets())
            + i16s_bytes(self.values(self.k())) + self.labels(self.k()) + risk_table(
            self.mcc_risk@,
        ).map_values(|r: i8| i8_byte(r))
    }
}

proof fn lemma_members(assignments: Seq<u32>, c: int, n: int)
    requires
        0 <= n <= 0x1_0000_0000,
    ensures
        members(assignments, c, n).len() <= n,
        forall|j: int|
            0 <= j < members(assignments, c, n).len() ==> (#[trigger] members(assignments, c, n)[j]) < n
                && assignments[members(assignments, c, n)[j] as int] == c,
        forall|i: u32|
            i < n && #[trigger] assignments[i as int] == c ==> members(assignments, c, n).contains(i),
    decreases n,
{
    if n > 0 {
        lemma_members(assignments, c, n - 1);
        let before = members(assignments, c, n - 1);
        let all = members(assignments, c, n);
        assert forall|i: u32| i < n && #[trigger] assignments[i as int] == c implies all.contains(i) by {
            if i == n - 1 {
                assert(all[before.len() as int] == i);
            } else {
                assert(before.contains(i));
                let j = choose|j: int| 0 <= j < before.len() && before[j] == i;
                assert(all[j] == i);
            }
        }
    }
}

proof fn lemma_members_distinct(assignments: Seq<u32>, c: int, n: int)
    requires
        0 <= n <= 0x1_0000_0000,
    ensures
        members(assignments, c, n).no_duplicates(),
    decreases n,
{
    if n > 0 {
        lemma_members_distinct(assignments, c, n - 1);
        lemma_members(assignments, c, n - 1);
        let before = members(assignments, c, n - 1);
        let all = members(assignments, c, n);
        assert forall|a: int, b: int| 0 <= a < all.len() && 0 <= b < all.len() && a != b implies all[a]
            != all[b] by {
            if a < before.len() {
                assert(before[a] < n - 1);
            }
            if b < before.len() {
                assert(before[b] < n - 1);
            }
        }
    }
}

/// Sorting by distance keeps the ids, neither adding nor dropping one, and puts them in the order of
/// their distances.
pub proof fn law_by_distance(distances: Seq<u32>, ids: Seq<u32>)
    requires
        ids.no_duplicates(),
    ensures
        by_distance(distances, ids).len() == ids.len(),
        by_distance(distances, ids).no_duplicates(),
        forall|i: u32| #[trigger] by_distance(distances, ids).contains(i) <==> ids.contains(i),
        forall|a: int, b: int|
            0 <= a <= b < ids.len() ==> total_key(
                distances[#[trigger] by_distance(distances, ids)[a] as int],
            ) <= total_key(distances[#[trigger] by_distance(distances, ids)[b] as int]),
{
    broadcast use vstd::seq_lib::group_to_multiset_ensures;

    let pairs = ids.map_values(keyed(distances));
    let sorted = stable_sort(pairs, first_i64());
    let out = by_distance(distances, ids);
    law_stable_sort(pairs, first_i64());
    assert(pairs.no_duplicates()) by {
        assert forall|a: int, b: int|
            0 <= a < pairs.len() && 0 <= b < pairs.len() && a != b implies pairs[a] != pairs[b] by {
            assert(ids[a] != ids[b]);
        }
    }
    pairs.lemma_multiset_has_no_duplicates();
    sorted.lemma_multiset_has_no_duplicates_conv();
    assert forall|a: int| 0 <= a < sorted.len() implies (#[trigger] sorted[a]) == keyed(distances)(
        sorted[a].1,
    ) && ids.contains(sorted[a].1) by {
        assert(sorted.contains(sorted[a]));
        assert(sorted.to_multiset().count(sorted[a]) > 0);
        assert(pairs.contains(sorted[a]));
        let j = choose|j: int| 0 <= j < pairs.len() && pairs[j] == sorted[a];
        assert(ids[j] == sorted[a].1);
    }
    assert forall|i: u32| #[trigger] out.contains(i) <==> ids.contains(i) by {
        if ids.contains(i) {
            let j = choose|j: int| 0 <= j < ids.len() && ids[j] == i;
            assert(pairs[j] == keyed(distances)(i));
            assert(pairs.contains(pairs[j]));
            assert(pairs.to_multiset().count(pairs[j]) > 0);
            assert(sorted.contains(pairs[j]));
            let a = choose|a: int| 0 <= a < sorted.len() && sorted[a] == pairs[j];
            assert(out[a] == i);
        }
        if out.contains(i) {
            let a = choose|a: int| 0 <= a < out.len() && out[a] == i;
            assert(ids.contains(sorted[a].1));
        }
    }
    assert forall|a: int, b: int| 0 <= a < out.len() && 0 <= b < out.len() && a != b implies out[a]
        != out[b] by {
        assert(sorted[a] != sorted[b]);
    }
    assert forall|a: int, b: int| 0 <= a <= b < ids.len() implies total_key(
        distances[#[trigger] out[a] as int],
    ) <= total_key(distances[#[trigger] out[b] as int]) by {
        assert(first_i64()(sorted[a]) <= first_i64()(sorted[b]));
    }
}

/// A cluster holds every vector assigned to it, each once, nearest to the centroid first.
pub proof fn law_cluster(inp: &BuildInputs, c: int)
    requires
        inp.wf(),
    ensures
        inp.cluster(c).no_duplicates(),
        inp.cluster(c).len() <= inp.n(),
        inp.cluster(c).len() == members(inp.assignments@, c, inp.n()).len(),
        forall|j: int| 0 <= j < inp.cluster(c).len() ==> (#[trigger] inp.cluster(c)[j]) < inp.n(),
        forall|i: u32|
            i < inp.n() ==> (#[trigger] inp.cluster(c).contains(i) <==> inp.assignments@[i as int] == c),
        forall|a: int, b: int|
            0 <= a <= b < inp.cluster(c).len() ==> total_key(
                inp.distances@[#[trigger] inp.cluster(c)[a] as int],
            ) <= total_key(inp.distances@[#[trigger] inp.cluster(c)[b] as int]),
{
    let ids = members(inp.assignments@, c, inp.n());
    lemma_members(inp.assignments@, c, inp.n());
    lemma_members_distinct(inp.assignments@, c, inp.n());
    law_by_distance(inp.distances@, ids);
    let out = inp.cluster(c);
    assert forall|j: int| 0 <= j < out.len() implies (#[trigger] out[j]) < inp.n() by {
        assert(out.contains(out[j]));
        let m = choose|m: int| 0 <= m < ids.len() && ids[m] == out[j];
        assert(ids[m] < inp.n());
    }
    assert forall|i: u32| i < inp.n() implies (#[trigger] out.contains(i) <==> inp.assignments@[i as int]
        == c) by {
        if ids.contains(i) {
            let m = choose|m: int| 0 <= m < ids.len() && ids[m] == i;
            assert(inp.assignments@[ids[m] as int] == c);
        }
    }
}

pub proof fn lemma_offset_monotone(inp: &BuildInputs, a: int, b: int)
    requires
        0 <= a <= b,
    ensures
        0 <= inp.offset(a) <= inp.offset(b),
    decreases b,
{
    if b > 0 {
        if a < b {
            lemma_offset_monotone(inp, a, b - 1);
        } else {
            lemma_offset_monotone(inp, a - 1, b - 1);
        }
    }
}

pub proof fn lemma_region_lengths(inp: &BuildInputs, c: int)
    requires
        0 <= c,
    ensures
        inp.values(c).len() == inp.offset(c) * BLOCK_I16,
        inp.labels(c).len() == inp.offset(c),
    decreases c,
{
    if c > 0 {
        lemma_region_lengths(inp, c - 1);
        lemma_offset_monotone(inp, 0, c - 1);
    }
}

/// The place of a number in the total order of floating-point numbers.
pub fn total_order_key(bits: u32) -> (key: i64)
    ensures
        key == total_key(bits),
{
    if bits < 0x8000_0000 {
        bits as i64
    } else {
        0x7FFF_FFFF - bits as i64
    }
}

/// The vectors of each cluster, ascending by id.
fn group(inp: &BuildInputs) -> (buckets: Vec<Vec<u32>>)
    requires
        inp.wf(),
    ensures
        buckets@.len() == inp.k(),
        forall|c: int|
            0 <= c < inp.k() ==> (#[trigger] buckets@[c])@ == members(inp.assignments@, c, inp.n()),
{
    let k: usize = inp.centroids.len();
    let n: usize = inp.vectors.len();
    let mut buckets: Vec<Vec<u32>> = Vec::with_capacity(k);
    let mut c: usize = 0;
    while c < k
        invariant
            c <= k,
            buckets@.len() == c,
            forall|j: int| 0 <= j < c ==> (#[trigger] buckets@[j])@ == Seq::<u32>::empty(),
        decreases k - c,
    {
        buckets.push(Vec::new());
        c = c + 1;
    }
    let mut i: usize = 0;
    while i < n
        invariant
            inp.wf(),
            n == inp.n(),
            k == inp.k(),
            i <= n,
            buckets@.len() == k,
            forall|j: int|
                0 <= j < k ==> (#[trigger] buckets@[j])@ == members(inp.assignments@, j, i as int),
        decreases n - i,
    {
        let a: usize = inp.assignments[i] as usize;
        let ghost before = buckets@;
        assert(before[a as int]@ == members(inp.assignments@, a as int, i as int));
        buckets[a].push(i as u32);
        proof {
            assert forall|j: int| 0 <= j < k implies (#[trigger] buckets@[j])@ == members(
                inp.assignments@,
                j,
                i + 1,
            ) by {
                assert(before[j]@ == members(inp.assignments@, j, i as int));
            }
        }
        i = i + 1;
    }
    buckets
}

/// Sorts `ids` by distance.
fn order_cluster(distances: &[u32], ids: &Vec<u32>) -> (out: Vec<u32>)
    requires
        forall|j: int| 0 <= j < ids@.len() ==> (#[trigger] ids@[j]) < distances.len(),
    ensures
        out@ == by_distance(distances@, ids@),
{
    let mut pairs: Vec<(i64, u32)> = Vec::with_capacity(ids.len());
    for j in 0..ids.len()
        invariant
            forall|j: int| 0 <= j < ids@.len() ==> (#[trigger] ids@[j]) < distances.len(),
            pairs@ == ids@.take(j as int).map_values(keyed(distances@)),
    {
        let i: u32 = ids[j];
        pairs.push((total_order_key(distances[i as usize]), i));
        assert(pairs@ =~= ids@.take(j + 1).map_values(keyed(distances@)));
    }
    assert(ids@.take(ids@.len() as int) =~= ids@);
    let sorted: Vec<(i64, u32)> = sort_by_i64(&pairs);
    let mut out: Vec<u32> = Vec::with_capacity(sorted.len());
    for j in 0..sorted.len()
        invariant
            out@ == sorted@.take(j as int).map_values(second()),
    {
        out.push(sorted[j].1);
        assert(out@ =~= sorted@.take(j + 1).map_values(second()));
    }
    assert(sorted@.take(sorted@.len() as int) =~= sorted@);
    out
}

/// 1 if the vector at place `g` of a cluster is labelled as fraud.
fn flag_of(is_fraud: &[bool], ids: &Vec<u32>, g: usize) -> (f: u8)
    requires
        forall|j: int| 0 <= j < ids@.len() ==> (#[trigger] ids@[j]) < is_fraud.len(),
    ensures
        f == flag(is_fraud@, ids@, g as int),
        f <= 1,
{
    if g < ids.len() && is_fraud[ids[g] as usize] {
        1
    } else {
        0
    }
}

/// The bytes of a cluster's values up to and including value `e` of block `b`.
proof fn lemma_next_value(vectors: Seq<[i16; VECTOR_DIM]>, ids: Seq<u32>, b: int, e: int)
    requires
        0 <= b < blocks_for(ids.len() as int),
        0 <= e < 112,
    ensures
        i16s_bytes(cluster_values(vectors, ids).take(b * 112 + e + 1)) == i16s_bytes(
            cluster_values(vectors, ids).take(b * 112 + e),
        ) + i16_bytes(slot_value(vectors, ids, e / 8, b * 8 + e % 8)),
{
    let goal = cluster_values(vectors, ids);
    let at = b * 112 + e;
    let v = slot_value(vectors, ids, e / 8, b * 8 + e % 8);
    assert(at % 112 == e && at / 112 == b && at % 8 == e % 8);
    assert(at < goal.len());
    assert(goal[at] == v);
    lemma_i16s_push(goal.take(at), v);
    assert(goal.take(at).push(v) =~= goal.take(at + 1));
}

/// Appends the blocks of a cluster to `blocks` and their label bytes to `labels`.
fn pack_cluster(inp: &BuildInputs, ids: &Vec<u32>, blocks: &mut Vec<u8>, labels: &mut Vec<u8>)
    requires
        inp.wf(),
        ids.len() <= u32::MAX,
        forall|j: int| 0 <= j < ids@.len() ==> (#[trigger] ids@[j]) < inp.n(),
    ensures
        final(blocks)@ == old(blocks)@ + i16s_bytes(cluster_values(inp.vectors@, ids@)),
        final(labels)@ == old(labels)@ + cluster_labels(inp.is_fraud@, ids@),
{
    let ghost blocks0 = blocks@;
    let ghost labels0 = labels@;
    let ghost goal = cluster_values(inp.vectors@, ids@);
    let whole: usize = ids.len() / BLOCK_VECS;
    let count: usize = if ids.len() % BLOCK_VECS == 0 {
        whole
    } else {
        whole + 1
    };
    assert(count == blocks_for(ids@.len() as int));
    assert(blocks@ =~= blocks0 + i16s_bytes(goal.take(0)));
    let mut b: usize = 0;
    while b < count
        invariant
            inp.wf(),
            ids.len() <= u32::MAX,
            forall|j: int| 0 <= j < ids@.len() ==> (#[trigger] ids@[j]) < inp.n(),
            count == blocks_for(ids@.len() as int),
            goal == cluster_values(inp.vectors@, ids@),
            b <= count,
            blocks@ == blocks0 + i16s_bytes(goal.take(b * 112)),
            labels@ == labels0 + Seq::new(b as nat, |b: int| label_byte(inp.is_fraud@, ids@, b)),
        decreases count - b,
    {
        let base: usize = b * 8;
        let mut e: usize = 0;
        while e < 112
            invariant
                inp.wf(),
                forall|j: int| 0 <= j < ids@.len() ==> (#[trigger] ids@[j]) < inp.n(),
                ids.len() <= u32::MAX,
                count == blocks_for(ids@.len() as int),
                goal == cluster_values(inp.vectors@, ids@),
                b < count,
                base == b * 8,
                e <= 112,
                blocks@ == blocks0 + i16s_bytes(goal.take(b * 112 + e)),
            decreases 112 - e,
        {
            let d: usize = e / 8;
            let g: usize = base + e % 8;
            let v: i16 = if g < ids.len() {
                inp.vectors[ids[g] as usize][d]
            } else {
                i16::MAX
            };
            let ghost before = blocks@;
            proof {
                lemma_next_value(inp.vectors@, ids@, b as int, e as int);
            }
            push_i16(blocks, v);
            proof {
                let done = i16s_bytes(goal.take(b * 112 + e));
                assert(before + i16_bytes(v) =~= blocks0 + (done + i16_bytes(v)));
            }
            e = e + 1;
        }
        let byte: u8 = flag_of(inp.is_fraud, ids, base) + 2 * flag_of(inp.is_fraud, ids, base + 1) + 4
            * flag_of(inp.is_fraud, ids, base + 2) + 8 * flag_of(inp.is_fraud, ids, base + 3) + 16
            * flag_of(inp.is_fraud, ids, base + 4) + 32 * flag_of(inp.is_fraud, ids, base + 5) + 64
            * flag_of(inp.is_fraud, ids, base + 6) + 128 * flag_of(inp.is_fraud, ids, base + 7);
        labels.push(byte);
        assert(labels@ =~= labels0 + Seq::new(
            (b + 1) as nat,
            |b: int| label_byte(inp.is_fraud@, ids@, b),
        ));
        b = b + 1;
    }
    assert(goal.take(count * 112) =~= goal);
    assert(labels@ =~= labels0 + cluster_labels(inp.is_fraud@, ids@));
}

proof fn lemma_i16s_concat(a: Seq<i16>, b: Seq<i16>)
    ensures
        i16s_bytes(a + b) == i16s_bytes(a) + i16s_bytes(b),
{
    assert(i16s_bytes(a + b) =~= i16s_bytes(a) + i16s_bytes(b));
}

/// The place of column `c` of row `d` in rows of `k` columns.
pub proof fn lemma_grid(k: int, d: int, c: int)
    requires
        0 <= d < VECTOR_DIM,
        0 <= c < k,
    ensures
        0 <= d * k + c < 14 * k,
        (d * k + c) % k == c,
        (d * k + c) / k == d,
{
    assert(0 <= d * k + c < 14 * k) by (nonlinear_arith)
        requires
            0 <= d < 14,
            0 <= c < k,
    ;
    vstd::arithmetic::div_mod::lemma_fundamental_div_mod_converse(d * k + c, k, d, c);
}

/// Appends the centroids, dimension by dimension.
fn push_centroids(inp: &BuildInputs, out: &mut Vec<u8>)
    requires
        inp.wf(),
    ensures
        final(out)@ == old(out)@ + u32s_bytes(inp.centroid_values()),
{
    let ghost start = out@;
    let ghost all = inp.centroid_values();
    let k: usize = inp.centroids.len();
    assert(out@ =~= start + u32s_bytes(all.take(0)));
    let mut d: usize = 0;
    while d < VECTOR_DIM
        invariant
            inp.wf(),
            k == inp.k(),
            all == inp.centroid_values(),
            d <= VECTOR_DIM,
            out@ == start + u32s_bytes(all.take(d * k)),
        decreases VECTOR_DIM - d,
    {
        let mut c: usize = 0;
        while c < k
            invariant
                inp.wf(),
                k == inp.k(),
                all == inp.centroid_values(),
                d < VECTOR_DIM,
                c <= k,
                out@ == start + u32s_bytes(all.take(d * k + c)),
            decreases k - c,
        {
            let v: u32 = inp.centroids[c][d];
            let ghost at = d * k + c;
            proof {
                lemma_grid(k as int, d as int, c as int);
                assert(all[at] == v);
                lemma_u32s_push(all.take(at), v);
                assert(all.take(at).push(v) =~= all.take(at + 1));
            }
            push_u32(out, v);
            assert(out@ =~= start + u32s_bytes(all.take(at + 1)));
            c = c + 1;
        }
        assert(d * k + k == (d + 1) * k) by (nonlinear_arith);
        d = d + 1;
    }
    assert(all.take(14 * k) =~= all);
}

/// Appends the risk table.
fn push_risks(entries: &[(u32, i8)], out: &mut Vec<u8>)
    ensures
        final(out)@ == old(out)@ + risk_table(entries@).map_values(|r: i8| i8_byte(r)),
{
    let mut table: [i8; MCC_TABLE_SIZE] = [DEFAULT_RISK; MCC_TABLE_SIZE];
    assert(table@ =~= risk_table(entries@.take(0)));
    for j in 0..entries.len()
        invariant
            table@ == risk_table(entries@.take(j as int)),
    {
        let (mcc, risk): (u32, i8) = entries[j];
        assert(entries@.take(j + 1).drop_last() =~= entries@.take(j as int));
        table[(mcc % 1024) as usize] = risk;
    }
    assert(entries@.take(entries@.len() as int) =~= entries@);
    let ghost start = out@;
    let ghost coded = table@.map_values(|r: i8| i8_byte(r));
    let mut i: usize = 0;
    while i < MCC_TABLE_SIZE
        invariant
            i <= MCC_TABLE_SIZE,
            coded == table@.map_values(|r: i8| i8_byte(r)),
            out@ == start + coded.take(i as int),
        decreases MCC_TABLE_SIZE - i,
    {
        push_i8(out, table[i]);
        assert(out@ =~= start + coded.take(i + 1));
        i = i + 1;
    }
    assert(coded.take(MCC_TABLE_SIZE as int) =~= coded);
}

fn append(out: &mut Vec<u8>, more: &Vec<u8>)
    ensures
        final(out)@ == old(out)@ + more@,
{
    let ghost start = out@;
    let mut i: usize = 0;
    while i < more.len()
        invariant
            i <= more.len(),
            out@ == start + more@.take(i as int),
        decreases more.len() - i,
    {
        out.push(more[i]);
        assert(out@ =~= start + more@.take(i + 1));
        i = i + 1;
    }
    assert(more@.take(more@.len() as int) =~= more@);
}

/// Bytes of the blob that would be built; `None` if its places do not fit the header.
pub fn blob_size(inp: &BuildInputs) -> (size: Option<u32>)
    requires
        inp.wf(),
    ensures
        size is Some <==> inp.size() <= u32::MAX,
        size is Some ==> size.unwrap() == inp.size(),
{
    let k: usize = inp.centroids.len();
    let n: usize = inp.vectors.len();
    let buckets: Vec<Vec<u32>> = group(inp);
    let mut acc: u64 = 0;
    let mut c: usize = 0;
    while c < k
        invariant
            inp.wf(),
            k == inp.k(),
            n == inp.n(),
            c <= k,
            buckets@.len() == k,
            forall|c: int|
                0 <= c < inp.k() ==> (#[trigger] buckets@[c])@ == members(
                    inp.assignments@,
                    c,
                    inp.n(),
                ),
            acc == inp.offset(c as int),
            acc <= c * 0x2000_0000,
        decreases k - c,
    {
        proof {
            law_cluster(inp, c as int);
            assert(buckets@[c as int]@ == members(inp.assignments@, c as int, inp.n()));
        }
        let len: u64 = buckets[c].len() as u64;
        acc = acc + (len + 7) / 8;
        c = c + 1;
    }
    if acc > 0xFFFF_FFFF {
        return None;
    }
    let size: u64 = 256 + 60 * (k as u64) + 4 + 225 * acc + 1024;
    if size > 0xFFFF_FFFF {
        None
    } else {
        Some(size as u32)
    }
}

/// Builds the blob.
pub fn build_blob(inp: &BuildInputs) -> (out: Vec<u8>)
    requires
        inp.wf(),
        inp.size() <= u32::MAX,
    ensures
        out@ == inp.bytes(),
        out@.len() == inp.size(),
{
    let k: usize = inp.centroids.len();
    let n: usize = inp.vectors.len();
    let buckets: Vec<Vec<u32>> = group(inp);
    let mut offsets: Vec<u8> = Vec::new();
    let mut blocks: Vec<u8> = Vec::new();
    let mut labels: Vec<u8> = Vec::new();
    let mut acc: u32 = 0;
    push_u32(&mut offsets, 0);
    proof {
        let all = inp.offsets();
        assert(all.take(1) =~= Seq::<u32>::empty().push(0));
        lemma_u32s_push(Seq::empty(), 0);
        assert(offsets@ =~= u32s_bytes(all.take(1)));
        assert(blocks@ =~= i16s_bytes(inp.values(0)));
        assert(labels@ =~= inp.labels(0));
    }
    let mut c: usize = 0;
    while c < k
        invariant
            inp.wf(),
            inp.size() <= u32::MAX,
            k == inp.k(),
            n == inp.n(),
            c <= k,
            buckets@.len() == k,
            forall|c: int|
                0 <= c < inp.k() ==> (#[trigger] buckets@[c])@ == members(
                    inp.assignments@,
                    c,
                    inp.n(),
                ),
            acc == inp.offset(c as int),
            offsets@ == u32s_bytes(inp.offsets().take(c + 1)),
            blocks@ == i16s_bytes(inp.values(c as int)),
            labels@ == inp.labels(c as int),
        decreases k - c,
    {
        proof {
            law_cluster(inp, c as int);
            lemma_members(inp.assignments@, c as int, inp.n());
            assert(buckets@[c as int]@ == members(inp.assignments@, c as int, inp.n()));
            lemma_offset_monotone(inp, c + 1, k as int);
            lemma_offset_monotone(inp, 0, c as int);
        }
        let ids: Vec<u32> = order_cluster(inp.distances, &buckets[c]);
        assert(ids@ == inp.cluster(c as int));
        pack_cluster(inp, &ids, &mut blocks, &mut labels);
        proof {
            lemma_i16s_concat(
                inp.values(c as int),
                cluster_values(inp.vectors@, inp.cluster(c as int)),
            );
        }
        acc = (acc as u64 + (ids.len() as u64 + 7) / 8) as u32;
        push_u32(&mut offsets, acc);
        proof {
            let all = inp.offsets();
            lemma_u32s_push(all.take(c + 1), acc);
            assert(all.take(c + 1).push(acc) =~= all.take(c + 2));
        }
        c = c + 1;
    }
    proof {
        assert(inp.offsets().take(k + 1) =~= inp.offsets());
        lemma_region_lengths(inp, k as int);
        lemma_offset_monotone(inp, 0, k as int);
    }
    let centroids_offset: u32 = HEADER_SIZE as u32;
    let cluster_offsets_offset: u32 = centroids_offset + 56 * (k as u32);
    let blocks_offset: u32 = cluster_offsets_offset + 4 * (k as u32 + 1);
    let labels_offset: u32 = blocks_offset + 224 * acc;
    let mcc_table_offset: u32 = labels_offset + acc;
    let blob_size: u32 = mcc_table_offset + MCC_TABLE_SIZE as u32;
    let header = BlobHeader {
        magic: MAGIC,
        version: VERSION,
        total_vectors: n as u32,
        padded_n: acc * 8,
        total_blocks: acc,
        k_centroids: k as u32,
        centroids_offset,
        cluster_offsets_offset,
        blocks_offset,
        labels_offset,
        mcc_table_offset,
        blob_size,
        _padding: [0u8; HEADER_PADDING],
    };
    let mut out: Vec<u8> = Vec::with_capacity(blob_size as usize);
    header.encode(&mut out);
    proof {
        assert(header.fields() =~= inp.header_fields());
        assert(header._padding@ =~= Seq::new(HEADER_PADDING as nat, |i: int| 0u8));
        assert(out@ =~= inp.header_bytes());
    }
    push_centroids(inp, &mut out);
    append(&mut out, &offsets);
    append(&mut out, &blocks);
    append(&mut out, &labels);
    push_risks(inp.mcc_risk, &mut out);
    proof {
        lemma_risk_table_len(inp.mcc_risk@);
        assert(out@ =~= inp.bytes());
    }
    out
}

pub proof fn lemma_risk_table_len(entries: Seq<(u32, i8)>)
    ensures
        risk_table(entries).len() == MCC_TABLE_SIZE,
    decreases entries.len(),
{
    if entries.len() > 0 {
        lemma_risk_table_len(entries.drop_last());
    }
}

} // verus!
