//! The partitioned KD-tree index: how its bytes are read and what they stand for.
//!
//! The index is four byte regions. A partition entry is `key, root, len` (4 bytes each) followed by
//! the low and high corner of its bounding box. A node is `left, right, start, len` followed by its
//! box; `left < 0` marks a leaf, whose `len` vectors start at block `start`. A block holds eight
//! vectors dimension by dimension as `i16`; the label region has one byte per slot.
use crate::best::Scored;
use crate::bytes::{le_i16, le_i32, read_i16, read_i32};
use crate::consts::{LANES, NODE_SIZE, PACKED_DIMS, PART_SIZE, VECTOR_DIM, QueryVector};
use vstd::multiset::Multiset;
use vstd::prelude::*;

verus! {

/// A KD-tree index in its encoded form.
pub struct KdBlob<'a> {
    pub part_count: u32,
    pub node_count: u32,
    pub partitions: &'a [u8],
    pub nodes: &'a [u8],
    pub vectors: &'a [u8],
    pub labels: &'a [u8],
}

/// A decoded partition entry.
pub struct Partition {
    pub root: i32,
    pub len: i32,
    pub min: QueryVector,
    pub max: QueryVector,
}

/// A decoded tree node.
pub struct Node {
    pub left: i32,
    pub right: i32,
    pub start: i32,
    pub len: i32,
    pub min: QueryVector,
    pub max: QueryVector,
}

/// What a partition entry says.
#[verifier::ext_equal]
pub struct PartitionView {
    pub root: int,
    pub len: int,
    pub min: Seq<int>,
    pub max: Seq<int>,
}

/// What a tree node says.
#[verifier::ext_equal]
pub struct NodeView {
    pub left: int,
    pub right: int,
    pub start: int,
    pub len: int,
    pub min: Seq<int>,
    pub max: Seq<int>,
}

/// The values of a packed vector.
pub open spec fn ints(v: Seq<i16>) -> Seq<int> {
    v.map_values(|x: i16| x as int)
}

impl View for Partition {
    type V = PartitionView;

    open spec fn view(&self) -> PartitionView {
        PartitionView {
            root: self.root as int,
            len: self.len as int,
            min: ints(self.min@),
            max: ints(self.max@),
        }
    }
}

impl View for Node {
    type V = NodeView;

    open spec fn view(&self) -> NodeView {
        NodeView {
            left: self.left as int,
            right: self.right as int,
            start: self.start as int,
            len: self.len as int,
            min: ints(self.min@),
            max: ints(self.max@),
        }
    }
}

/// The packed vector stored at `at`.
pub open spec fn packed_at(s: Seq<u8>, at: int) -> Seq<int> {
    Seq::new(PACKED_DIMS as nat, |i: int| le_i16(s, at + 2 * i))
}

/// How far `q` lies outside `[lo, hi]`.
pub open spec fn gap(q: int, lo: int, hi: int) -> int {
    if q < lo {
        lo - q
    } else if q > hi {
        q - hi
    } else {
        0
    }
}

/// Squared distance of `q` to the box `[min, max]` over the first `n` dimensions.
pub open spec fn box_distance(q: Seq<int>, min: Seq<int>, max: Seq<int>, n: int) -> int
    decreases n,
{
    if n <= 0 {
        0
    } else {
        box_distance(q, min, max, n - 1) + gap(q[n - 1], min[n - 1], max[n - 1]) * gap(
            q[n - 1],
            min[n - 1],
            max[n - 1],
        )
    }
}

/// Squared distance of `q` and `v` over the first `n` dimensions.
pub open spec fn distance(q: Seq<int>, v: Seq<int>, n: int) -> int
    decreases n,
{
    if n <= 0 {
        0
    } else {
        distance(q, v, n - 1) + (v[n - 1] - q[n - 1]) * (v[n - 1] - q[n - 1])
    }
}

/// Whether `v` lies in the box `[min, max]`.
pub open spec fn in_box(v: Seq<int>, min: Seq<int>, max: Seq<int>) -> bool {
    forall|d: int| 0 <= d < VECTOR_DIM ==> min[d] <= #[trigger] v[d] <= max[d]
}

/// Number of blocks that hold `len` vectors.
pub open spec fn blocks_for(len: int) -> int {
    (len + LANES - 1) / LANES as int
}

impl<'a> KdBlob<'a> {
    /// The partition entry at `i`.
    pub open spec fn partition(&self, i: int) -> PartitionView {
        let at = i * PART_SIZE;
        PartitionView {
            root: le_i32(self.partitions@, at + 4),
            len: le_i32(self.partitions@, at + 8),
            min: packed_at(self.partitions@, at + 12),
            max: packed_at(self.partitions@, at + 44),
        }
    }

    /// The tree node at `i`.
    pub open spec fn node(&self, i: int) -> NodeView {
        let at = i * NODE_SIZE;
        NodeView {
            left: le_i32(self.nodes@, at),
            right: le_i32(self.nodes@, at + 4),
            start: le_i32(self.nodes@, at + 8),
            len: le_i32(self.nodes@, at + 12),
            min: packed_at(self.nodes@, at + 16),
            max: packed_at(self.nodes@, at + 48),
        }
    }

    /// The vector in slot `slot`, counting eight slots per block.
    pub open spec fn vector(&self, slot: int) -> Seq<int> {
        Seq::new(
            VECTOR_DIM as nat,
            |d: int|
                le_i16(
                    self.vectors@,
                    2 * ((slot / LANES as int) * VECTOR_DIM * LANES + d * LANES + slot % LANES as int),
                ),
        )
    }

    /// The distance of slot `slot` to `q`, with the slot's label.
    pub open spec fn scored(&self, q: Seq<int>, slot: int) -> Scored {
        (distance(q, self.vector(slot), VECTOR_DIM as int) as i64, self.labels@[slot])
    }

    /// Every leaf's vectors and labels are present.
    pub open spec fn leaf_fits(&self, n: NodeView) -> bool {
        &&& 0 <= n.start
        &&& 0 <= n.len
        &&& (n.start + blocks_for(n.len)) * LANES <= self.labels.len()
        &&& (n.start + blocks_for(n.len)) * LANES * VECTOR_DIM * 2 <= self.vectors.len()
    }

    /// Both children of an inner node are nodes.
    pub open spec fn children_fit(&self, n: NodeView) -> bool {
        &&& n.left < self.node_count
        &&& 0 <= n.right < self.node_count
    }

    /// `h` gives every inner node a greater rank than its children.
    pub open spec fn ranks(&self, h: Seq<nat>) -> bool {
        &&& h.len() == self.node_count
        &&& forall|i: int|
            0 <= i < self.node_count && (#[trigger] self.node(i)).left >= 0 ==> {
                &&& h[self.node(i).left] < h[i]
                &&& h[self.node(i).right] < h[i]
            }
    }

    /// No node is its own descendant.
    pub open spec fn acyclic(&self) -> bool {
        exists|h: Seq<nat>| self.ranks(h)
    }

    /// Some ranking of the nodes.
    pub open spec fn heights(&self) -> Seq<nat> {
        choose|h: Seq<nat>| self.ranks(h)
    }

    /// The partition entries and nodes are all there.
    pub open spec fn entries_fit(&self) -> bool {
        &&& self.part_count * PART_SIZE <= self.partitions.len()
        &&& self.node_count * NODE_SIZE <= self.nodes.len()
    }

    /// Every node comes before its children.
    pub open spec fn in_order(&self) -> bool {
        forall|i: int|
            0 <= i < self.node_count && (#[trigger] self.node(i)).left >= 0 ==> self.node(i).left > i
                && self.node(i).right > i
    }

    /// The regions hold what the counts announce, and the nodes form trees.
    pub open spec fn wf(&self) -> bool {
        &&& self.regions_fit()
        &&& self.acyclic()
    }

    /// The regions hold what the counts announce.
    pub open spec fn regions_fit(&self) -> bool {
        &&& self.entries_fit()
        &&& self.part_count <= i32::MAX
        &&& forall|i: int|
            0 <= i < self.node_count ==> {
                let n = #[trigger] self.node(i);
                if n.left < 0 {
                    self.leaf_fits(n)
                } else {
                    self.children_fit(n)
                }
            }
        &&& forall|k: int| 0 <= k < self.labels.len() ==> #[trigger] self.labels@[k] <= 1
    }

    /// The points of a leaf, in storage order.
    pub open spec fn leaf_points(&self, q: Seq<int>, start: int, len: int) -> Seq<Scored> {
        Seq::new(len as nat, |k: int| self.scored(q, start * LANES + k))
    }

    /// The points below node `i`.
    pub open spec fn points(&self, h: Seq<nat>, q: Seq<int>, i: int) -> Multiset<Scored>
        decreases h[i],
    {
        let n = self.node(i);
        if n.left < 0 {
            self.leaf_points(q, n.start, n.len).to_multiset()
        } else if h[n.left] < h[i] && h[n.right] < h[i] {
            self.points(h, q, n.left).add(self.points(h, q, n.right))
        } else {
            Multiset::empty()
        }
    }

    /// Every vector below node `i` lies in the box `[min, max]`.
    pub open spec fn bounded(&self, h: Seq<nat>, i: int, min: Seq<int>, max: Seq<int>) -> bool
        decreases h[i],
    {
        let n = self.node(i);
        if n.left < 0 {
            forall|k: int|
                0 <= k < n.len ==> in_box(#[trigger] self.vector(n.start * LANES + k), min, max)
        } else if h[n.left] < h[i] && h[n.right] < h[i] {
            self.bounded(h, n.left, min, max) && self.bounded(h, n.right, min, max)
        } else {
            true
        }
    }

    /// Every bounding box encloses the vectors below it.
    pub open spec fn boxes_enclose(&self) -> bool {
        let h = self.heights();
        &&& forall|i: int|
            0 <= i < self.node_count ==> {
                let n = #[trigger] self.node(i);
                self.bounded(h, i, n.min, n.max)
            }
        &&& forall|i: int|
            0 <= i < self.part_count ==> {
                let p = #[trigger] self.partition(i);
                self.bounded(h, p.root, p.min, p.max)
            }
    }

    /// The points of the first `n` partitions.
    pub open spec fn all_points(&self, q: Seq<int>, n: int) -> Multiset<Scored>
        decreases n,
    {
        if n <= 0 {
            Multiset::empty()
        } else {
            self.all_points(q, n - 1).add(
                self.points(self.heights(), q, self.partition(n - 1).root),
            )
        }
    }
}

/// Decodes the packed vector at `at`.
pub fn read_qv(s: &[u8], at: usize) -> (v: QueryVector)
    requires
        at + 2 * PACKED_DIMS <= s.len(),
    ensures
        ints(v@) == packed_at(s@, at as int),
{
    let mut v: QueryVector = [0; PACKED_DIMS];
    for i in 0..PACKED_DIMS
        invariant
            at + 2 * PACKED_DIMS <= s.len(),
            forall|j: int| 0 <= j < i ==> #[trigger] v@[j] == le_i16(s@, at + 2 * j),
    {
        v[i] = read_i16(s, at + 2 * i);
    }
    assert(ints(v@) =~= packed_at(s@, at as int));
    v
}

/// Decodes partition entry `idx`.
pub fn read_partition(blob: &KdBlob, idx: usize) -> (p: Partition)
    requires
        blob.entries_fit(),
        idx < blob.part_count,
    ensures
        p@ == blob.partition(idx as int),
{
    assert(idx * PART_SIZE + PART_SIZE <= blob.partitions.len());
    let at: usize = idx * PART_SIZE;
    Partition {
        root: read_i32(blob.partitions, at + 4),
        len: read_i32(blob.partitions, at + 8),
        min: read_qv(blob.partitions, at + 12),
        max: read_qv(blob.partitions, at + 44),
    }
}

/// Decodes node `idx`.
pub fn read_node(blob: &KdBlob, idx: usize) -> (n: Node)
    requires
        blob.entries_fit(),
        idx < blob.node_count,
    ensures
        n@ == blob.node(idx as int),
{
    assert(idx * NODE_SIZE + NODE_SIZE <= blob.nodes.len());
    let at: usize = idx * NODE_SIZE;
    Node {
        left: read_i32(blob.nodes, at),
        right: read_i32(blob.nodes, at + 4),
        start: read_i32(blob.nodes, at + 8),
        len: read_i32(blob.nodes, at + 12),
        min: read_qv(blob.nodes, at + 16),
        max: read_qv(blob.nodes, at + 48),
    }
}

/// Nodes that come before their children form trees.
pub proof fn law_in_order_is_acyclic(blob: &KdBlob)
    requires
        blob.regions_fit(),
        blob.in_order(),
    ensures
        blob.wf(),
{
    let h = Seq::new(blob.node_count as nat, |i: int| (blob.node_count - i) as nat);
    assert(blob.ranks(h));
}

impl<'a> KdBlob<'a> {
    /// Whether the regions hold what the counts announce and every node comes before its children, so
    /// that the index can be searched.
    pub fn check(&self) -> (ok: bool)
        ensures
            ok == (self.regions_fit() && self.in_order()),
            ok ==> self.wf(),
    {
        if self.part_count > 0x7FFF_FFFF || self.part_count as u64 * 76 > self.partitions.len() as u64
            || self.node_count as u64 * 80 > self.nodes.len() as u64 {
            return false;
        }
        let mut k: usize = 0;
        while k < self.labels.len()
            invariant
                k <= self.labels.len(),
                forall|j: int| 0 <= j < k ==> #[trigger] self.labels@[j] <= 1,
            decreases self.labels.len() - k,
        {
            if self.labels[k] > 1 {
                return false;
            }
            k = k + 1;
        }
        let mut i: u32 = 0;
        while i < self.node_count
            invariant
                i <= self.node_count,
                self.entries_fit(),
                forall|j: int|
                    0 <= j < i ==> {
                        let n = #[trigger] self.node(j);
                        if n.left < 0 {
                            self.leaf_fits(n)
                        } else {
                            self.children_fit(n) && n.left > j && n.right > j
                        }
                    },
            decreases self.node_count - i,
        {
            let n: Node = read_node(self, i as usize);
            assert(n@ == self.node(i as int));
            if n.left < 0 {
                if n.start < 0 || n.len < 0 {
                    return false;
                }
                let blocks: u64 = n.start as u64 + (n.len as u64 + 7) / 8;
                if blocks * 8 > self.labels.len() as u64 || blocks * 224 > self.vectors.len() as u64 {
                    return false;
                }
            } else {
                if n.right < 0 || n.left as u32 >= self.node_count || n.right as u32 >= self.node_count
                    || n.left as u32 <= i || n.right as u32 <= i {
                    return false;
                }
            }
            i = i + 1;
        }
        proof {
            law_in_order_is_acyclic(self);
        }
        true
    }
}

pub proof fn lemma_box_distance_bounds(q: Seq<int>, min: Seq<int>, max: Seq<int>, n: int)
    requires
        0 <= n,
        forall|d: int| 0 <= d < n ==> -32768 <= #[trigger] q[d] <= 32767,
        forall|d: int| 0 <= d < n ==> -32768 <= #[trigger] min[d] <= 32767,
        forall|d: int| 0 <= d < n ==> -32768 <= #[trigger] max[d] <= 32767,
    ensures
        0 <= box_distance(q, min, max, n) <= n * 4294836225,
    decreases n,
{
    if n > 0 {
        lemma_box_distance_bounds(q, min, max, n - 1);
        assert(-32768 <= q[n - 1] <= 32767 && -32768 <= min[n - 1] <= 32767 && -32768 <= max[n - 1]
            <= 32767);
        let g = gap(q[n - 1], min[n - 1], max[n - 1]);
        assert(0 <= g * g <= 4294836225) by (nonlinear_arith)
            requires
                0 <= g <= 65535,
        ;
    }
}

pub proof fn lemma_distance_bounds(q: Seq<int>, v: Seq<int>, n: int)
    requires
        0 <= n,
        forall|d: int| 0 <= d < n ==> -32768 <= #[trigger] q[d] <= 32767,
        forall|d: int| 0 <= d < n ==> -32768 <= #[trigger] v[d] <= 32767,
    ensures
        0 <= distance(q, v, n) <= n * 4294836225,
    decreases n,
{
    if n > 0 {
        lemma_distance_bounds(q, v, n - 1);
        assert(-32768 <= q[n - 1] <= 32767);
        assert(-32768 <= v[n - 1] <= 32767);
        let g = v[n - 1] - q[n - 1];
        assert(0 <= g * g <= 4294836225) by (nonlinear_arith)
            requires
                -65535 <= g <= 65535,
        ;
    }
}

/// The squared distance of `query` to the box `[min, max]`.
pub fn lower_bound_vec(query: &QueryVector, min: &QueryVector, max: &QueryVector) -> (s: i64)
    ensures
        s == box_distance(ints(query@), ints(min@), ints(max@), VECTOR_DIM as int),
{
    let ghost (q, lo, hi) = (ints(query@), ints(min@), ints(max@));
    let mut s: i64 = 0;
    for d in 0..VECTOR_DIM
        invariant
            q == ints(query@),
            lo == ints(min@),
            hi == ints(max@),
            s == box_distance(q, lo, hi, d as int),
            0 <= s <= d * 4294836225,
    {
        let x: i64 = query[d] as i64;
        let a: i64 = min[d] as i64;
        let b: i64 = max[d] as i64;
        let g: i64 = if x < a {
            a - x
        } else if x > b {
            x - b
        } else {
            0
        };
        proof {
            lemma_box_distance_bounds(q, lo, hi, d + 1);
            assert(0 <= g * g <= 4294836225) by (nonlinear_arith)
                requires
                    0 <= g <= 65535,
            ;
            assert(g == gap(q[d as int], lo[d as int], hi[d as int]));
        }
        s = s + g * g;
    }
    s
}

/// No vector in a box is nearer to `q` than the box is.
pub proof fn law_box_is_lower_bound(q: Seq<int>, v: Seq<int>, min: Seq<int>, max: Seq<int>, n: int)
    requires
        0 <= n <= VECTOR_DIM,
        in_box(v, min, max),
    ensures
        box_distance(q, min, max, n) <= distance(q, v, n),
    decreases n,
{
    if n > 0 {
        law_box_is_lower_bound(q, v, min, max, n - 1);
        let g = gap(q[n - 1], min[n - 1], max[n - 1]);
        let e = v[n - 1] - q[n - 1];
        assert(min[n - 1] <= v[n - 1] <= max[n - 1]);
        assert(g * g <= e * e) by (nonlinear_arith)
            requires
                0 <= g,
                g <= e || g <= -e,
        ;
    }
}

/// The vector of a box that is nearest to `q`.
pub open spec fn nearest_in_box(q: Seq<int>, min: Seq<int>, max: Seq<int>) -> Seq<int> {
    Seq::new(
        VECTOR_DIM as nat,
        |d: int|
            if q[d] < min[d] {
                min[d]
            } else if q[d] > max[d] {
                max[d]
            } else {
                q[d]
            },
    )
}

/// Some vector in a box is as near to `q` as the box is, so no greater bound would do.
pub proof fn law_box_bound_is_attained(q: Seq<int>, min: Seq<int>, max: Seq<int>, n: int)
    requires
        0 <= n <= VECTOR_DIM,
        forall|d: int| 0 <= d < VECTOR_DIM ==> #[trigger] min[d] <= max[d],
    ensures
        in_box(nearest_in_box(q, min, max), min, max),
        distance(q, nearest_in_box(q, min, max), n) == box_distance(q, min, max, n),
    decreases n,
{
    if n > 0 {
        law_box_bound_is_attained(q, min, max, n - 1);
        let g = gap(q[n - 1], min[n - 1], max[n - 1]);
        let e = nearest_in_box(q, min, max)[n - 1] - q[n - 1];
        assert(min[n - 1] <= max[n - 1]);
        assert(g * g == e * e) by (nonlinear_arith)
            requires
                g == e || g == -e,
        ;
    }
}

/// The square of `x`.
pub open spec fn square(x: int) -> int {
    x * x
}

/// The distance of two vectors is the sum of the squared differences of the fourteen dimensions.
pub proof fn law_distance_sum(q: Seq<int>, v: Seq<int>)
    ensures
        distance(q, v, 14) == square(v[0] - q[0]) + square(v[1] - q[1]) + square(v[2] - q[2]) + square(
            v[3] - q[3],
        ) + square(v[4] - q[4]) + square(v[5] - q[5]) + square(v[6] - q[6]) + square(v[7] - q[7])
            + square(v[8] - q[8]) + square(v[9] - q[9]) + square(v[10] - q[10]) + square(v[11] - q[11])
            + square(v[12] - q[12]) + square(v[13] - q[13]),
        VECTOR_DIM == 14,
{
    reveal_with_fuel(distance, 15);
}

/// What a partition entry and a node say, by the places of their bytes.
pub proof fn law_entries(blob: &KdBlob, i: int, d: int)
    requires
        0 <= d < 16,
    ensures
        ({
            let p = blob.partition(i);
            let n = blob.node(i);
            &&& p.root == le_i32(blob.partitions@, 76 * i + 4)
            &&& p.len == le_i32(blob.partitions@, 76 * i + 8)
            &&& p.min.len() == 16 && p.min[d] == le_i16(blob.partitions@, 76 * i + 12 + 2 * d)
            &&& p.max.len() == 16 && p.max[d] == le_i16(blob.partitions@, 76 * i + 44 + 2 * d)
            &&& n.left == le_i32(blob.nodes@, 80 * i)
            &&& n.right == le_i32(blob.nodes@, 80 * i + 4)
            &&& n.start == le_i32(blob.nodes@, 80 * i + 8)
            &&& n.len == le_i32(blob.nodes@, 80 * i + 12)
            &&& n.min.len() == 16 && n.min[d] == le_i16(blob.nodes@, 80 * i + 16 + 2 * d)
            &&& n.max.len() == 16 && n.max[d] == le_i16(blob.nodes@, 80 * i + 48 + 2 * d)
        }),
{
}

/// Lane `lane` of block `block` holds a vector whose dimensions stand eight values apart.
pub proof fn law_vector_places(blob: &KdBlob, block: int, lane: int, d: int)
    requires
        0 <= lane < 8,
        0 <= d < 14,
    ensures
        blob.vector(8 * block + lane).len() == 14,
        blob.vector(8 * block + lane)[d] == le_i16(blob.vectors@, 224 * block + 16 * d + 2 * lane),
{
    let slot = 8 * block + lane;
    assert(slot / 8 == block && slot % 8 == lane);
}

/// A leaf has the `len` vectors from its block on, each with its distance and label. An inner node has those of
/// its two children, and the index those of the trees of all its partitions.
pub proof fn law_points(blob: &KdBlob, h: Seq<nat>, q: Seq<int>, i: int, n: int)
    requires
        blob.regions_fit(),
        blob.ranks(h),
        0 <= i < blob.node_count,
        0 <= n,
    ensures
        ({
            let node = blob.node(i);
            &&& node.left < 0 ==> blob.points(h, q, i) == Seq::new(
                node.len as nat,
                |k: int|
                    (
                        distance(q, blob.vector(8 * node.start + k), 14) as i64,
                        blob.labels@[8 * node.start + k],
                    ),
            ).to_multiset()
            &&& node.left >= 0 ==> blob.points(h, q, i) == blob.points(h, q, node.left).add(
                blob.points(h, q, node.right),
            )
            &&& blob.all_points(q, 0) == Multiset::<Scored>::empty()
            &&& blob.all_points(q, n + 1) == blob.all_points(q, n).add(
                blob.points(blob.heights(), q, blob.partition(n).root),
            )
        }),
{
    let node = blob.node(i);
    if node.left < 0 {
        let listed = Seq::new(
            node.len as nat,
            |k: int|
                (
                    distance(q, blob.vector(8 * node.start + k), 14) as i64,
                    blob.labels@[8 * node.start + k],
                ),
        );
        assert(blob.leaf_points(q, node.start, node.len) =~= listed);
    } else {
        assert(h[node.left] < h[i] && h[node.right] < h[i]);
    }
}

/// The squared distance to a box is the sum over the fourteen dimensions of the squared distance to its side: to
/// the low side from below it, to the high side from above it, and zero in between.
pub proof fn law_box_sum(q: Seq<int>, min: Seq<int>, max: Seq<int>, x: int, lo: int, hi: int)
    ensures
        ({
            let g = |d: int| square(gap(q[d], min[d], max[d]));
            box_distance(q, min, max, 14) == g(0) + g(1) + g(2) + g(3) + g(4) + g(5) + g(6) + g(7) + g(8)
                + g(9) + g(10) + g(11) + g(12) + g(13)
        }),
        x < lo ==> gap(x, lo, hi) == lo - x,
        x >= lo && x > hi ==> gap(x, lo, hi) == x - hi,
        lo <= x <= hi ==> gap(x, lo, hi) == 0,
{
    reveal_with_fuel(box_distance, 15);
}

/// An index can be searched if its entries are all there, every leaf has its vectors and labels, every inner node
/// its two children, labels are zero or one, and every node comes before its children.
pub proof fn law_regions_fit(blob: &KdBlob)
    ensures
        blob.regions_fit() <==> {
            &&& 76 * blob.part_count <= blob.partitions@.len()
            &&& 80 * blob.node_count <= blob.nodes@.len()
            &&& blob.part_count <= 0x7FFF_FFFF
            &&& forall|i: int|
                0 <= i < blob.node_count && (#[trigger] blob.node(i)).left < 0 ==> {
                    let n = blob.node(i);
                    let used = n.start + (n.len + 7) / 8;
                    0 <= n.start && 0 <= n.len && 8 * used <= blob.labels@.len() && 224 * used
                        <= blob.vectors@.len()
                }
            &&& forall|i: int|
                0 <= i < blob.node_count && (#[trigger] blob.node(i)).left >= 0 ==> blob.node(i).left
                    < blob.node_count && 0 <= blob.node(i).right < blob.node_count
            &&& forall|k: int| 0 <= k < blob.labels@.len() ==> #[trigger] blob.labels@[k] <= 1
        },
        blob.in_order() <==> forall|i: int|
            0 <= i < blob.node_count && (#[trigger] blob.node(i)).left >= 0 ==> i < blob.node(i).left && i
                < blob.node(i).right,
{
}

} // verus!
