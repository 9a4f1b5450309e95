//! The layers of a neighbour graph.
//!
//! A layer gives each of its nodes a row of neighbour ids, filled from the front; the first
//! `HNSW_SENTINEL` ends the row.
use crate::consts::{HNSW_M, HNSW_M0, HNSW_SENTINEL};
use vstd::prelude::*;
use vstd::slice::slice_subrange;

verus! {

/// A layer: the rows of its nodes.
pub type Layer = Map<u32, Seq<u32>>;

/// Number of ids from position `i` on before the first sentinel, plus `i`.
pub open spec fn live_end(row: Seq<u32>, i: int) -> int
    decreases row.len() - i,
{
    if 0 <= i < row.len() && row[i] != HNSW_SENTINEL {
        live_end(row, i + 1)
    } else {
        i
    }
}

/// The ids in a row.
pub open spec fn live(row: Seq<u32>) -> Seq<u32> {
    row.take(live_end(row, 0))
}

/// The neighbours of `id`; none if it is not in the layer.
pub open spec fn neighbours_in(layer: Layer, id: u32) -> Seq<u32> {
    if layer.contains_key(id) {
        live(layer[id])
    } else {
        Seq::empty()
    }
}

/// `ids` filled up with sentinels to `width` slots.
pub open spec fn pad(ids: Seq<u32>, width: int) -> Seq<u32> {
    Seq::new(
        width as nat,
        |k: int|
            if k < ids.len() {
                ids[k]
            } else {
                HNSW_SENTINEL
            },
    )
}

/// Behind its ids a row has sentinels alone.
pub open spec fn tidy(row: Seq<u32>) -> bool {
    forall|k: int| live_end(row, 0) <= k < row.len() ==> #[trigger] row[k] == HNSW_SENTINEL
}

/// Row `k` of `width` slots in a flat table.
pub open spec fn flat_row(flat: Seq<u32>, width: int, k: int) -> Seq<u32> {
    flat.subrange(k * width, k * width + width)
}

/// `flat` with row `k` replaced.
pub open spec fn with_row(flat: Seq<u32>, width: int, k: int, row: Seq<u32>) -> Seq<u32> {
    Seq::new(
        flat.len(),
        |i: int|
            if k * width <= i < k * width + width {
                row[i - k * width]
            } else {
                flat[i]
            },
    )
}

/// The base layer that a flat table of `n` rows describes.
pub open spec fn base_layer(flat: Seq<u32>, n: int) -> Layer {
    Map::new(|id: u32| (id as int) < n, |id: u32| flat_row(flat, HNSW_M0 as int, id as int))
}

pub proof fn lemma_live_end(row: Seq<u32>, i: int)
    requires
        0 <= i <= row.len(),
    ensures
        i <= live_end(row, i) <= row.len(),
        forall|k: int| i <= k < live_end(row, i) ==> row[k] != HNSW_SENTINEL,
        live_end(row, i) < row.len() ==> row[live_end(row, i)] == HNSW_SENTINEL,
    decreases row.len() - i,
{
    if i < row.len() && row[i] != HNSW_SENTINEL {
        lemma_live_end(row, i + 1);
    }
}

/// The ids of a filled-up row are the ids it was filled from, and it has sentinels alone behind them.
pub proof fn law_live_of_pad(ids: Seq<u32>, width: int)
    requires
        ids.len() <= width,
        forall|k: int| 0 <= k < ids.len() ==> #[trigger] ids[k] != HNSW_SENTINEL,
    ensures
        live(pad(ids, width)) == ids,
        tidy(pad(ids, width)),
{
    let row = pad(ids, width);
    lemma_live_end(row, 0);
    let e = live_end(row, 0);
    if e < ids.len() {
        assert(row[e] == ids[e]);
    }
    if e > ids.len() {
        assert(row[ids.len() as int] == HNSW_SENTINEL);
    }
    assert(live(row) =~= ids);
}

pub proof fn lemma_row_index(k: int, n: int, width: int)
    requires
        0 <= k < n,
        0 <= width,
    ensures
        0 <= k * width,
        k * width + width <= n * width,
{
    assert(0 <= k * width && k * width + width <= n * width) by (nonlinear_arith)
        requires
            0 <= k < n,
            0 <= width,
    ;
}

/// Replacing a row changes that row and no other.
pub proof fn law_with_row(flat: Seq<u32>, width: int, n: int, k: int, row: Seq<u32>)
    requires
        0 <= k < n,
        0 < width,
        flat.len() == n * width,
        row.len() == width,
    ensures
        with_row(flat, width, k, row).len() == flat.len(),
        flat_row(with_row(flat, width, k, row), width, k) == row,
        forall|j: int|
            0 <= j < n && j != k ==> #[trigger] flat_row(with_row(flat, width, k, row), width, j)
                == flat_row(flat, width, j),
{
    lemma_row_index(k, n, width);
    assert(flat_row(with_row(flat, width, k, row), width, k) =~= row);
    assert forall|j: int| 0 <= j < n && j != k implies #[trigger] flat_row(
        with_row(flat, width, k, row),
        width,
        j,
    ) == flat_row(flat, width, j) by {
        lemma_row_index(j, n, width);
        assert(j * width + width <= k * width || k * width + width <= j * width)
            by (nonlinear_arith)
            requires
                j != k,
                0 < width,
        ;
        assert(flat_row(with_row(flat, width, k, row), width, j) =~= flat_row(flat, width, j));
    }
}

/// Writes `row` over row `k` of a flat table.
pub fn write_row(flat: &mut Vec<u32>, width: usize, k: usize, row: &[u32])
    requires
        0 < width,
        row.len() == width,
        k * width + width <= old(flat).len(),
    ensures
        final(flat)@ == with_row(old(flat)@, width as int, k as int, row@),
{
    let ghost before = flat@;
    assert(0 <= k * width) by (nonlinear_arith)
        requires
            0 <= k,
            0 < width,
    ;
    let base: usize = k * width;
    for s in 0..width
        invariant
            base == k * width,
            base + width <= before.len(),
            before.len() == flat.len(),
            flat@.len() == before.len(),
            row.len() == width,
            forall|i: int|
                0 <= i < before.len() ==> #[trigger] flat@[i] == (if base <= i < base + s {
                    row@[i - base]
                } else {
                    before[i]
                }),
    {
        flat[base + s] = row[s];
    }
    assert(flat@ =~= with_row(before, width as int, k as int, row@));
}

/// Distinct ids below `n` number at most `n`.
pub proof fn lemma_distinct_ids(ids: Seq<u32>, n: nat)
    requires
        ids.no_duplicates(),
        forall|k: int| 0 <= k < ids.len() ==> (#[trigger] ids[k]) < n,
    ensures
        ids.len() <= n,
{
    let ints = ids.map_values(|x: u32| x as int);
    assert(ints.no_duplicates());
    ints.unique_seq_to_set();
    let all = vstd::set_lib::set_int_range(0, n as int);
    vstd::set_lib::lemma_int_range(0, n as int);
    assert(ints.to_set().subset_of(all)) by {
        assert forall|x: int| ints.to_set().contains(x) implies all.contains(x) by {
            let k = choose|k: int| 0 <= k < ints.len() && ints[k] == x;
            assert(ids[k] < n);
        }
    }
    vstd::set_lib::lemma_len_subset(ints.to_set(), all);
}

/// A layer above the base while it is being built. Only some nodes are in it.
pub struct UpperEditable {
    /// For each id the index of its row, or -1.
    pub pos: Vec<i32>,
    /// The rows, `HNSW_M` slots each.
    pub flat: Vec<u32>,
    /// The ids in the layer, in the order of their rows.
    pub nodes: Vec<u32>,
}

impl View for UpperEditable {
    type V = Layer;

    open spec fn view(&self) -> Layer {
        Map::new(
            |id: u32| (id as int) < self.pos@.len() && self.pos@[id as int] >= 0,
            |id: u32| flat_row(self.flat@, HNSW_M as int, self.pos@[id as int] as int),
        )
    }
}

impl UpperEditable {
    pub open spec fn wf(&self) -> bool {
        &&& self.pos@.len() <= i32::MAX
        &&& self.nodes@.no_duplicates()
        &&& self.flat.len() == self.nodes@.len() * HNSW_M
        &&& forall|k: int|
            0 <= k < self.nodes@.len() ==> (#[trigger] self.nodes@[k]) < self.pos@.len()
                && self.pos@[self.nodes@[k] as int] == k
        &&& forall|id: int|
            0 <= id < self.pos@.len() && (#[trigger] self.pos@[id]) >= 0 ==> self.pos@[id]
                < self.nodes@.len() && self.nodes@[self.pos@[id] as int] == id
    }

    /// A layer without nodes, for ids below `num_nodes`.
    pub fn new(num_nodes: usize) -> (u: Self)
        requires
            num_nodes <= i32::MAX,
        ensures
            u.wf(),
            u.pos@.len() == num_nodes,
            u@ == Map::<u32, Seq<u32>>::empty(),
    {
        let u = UpperEditable { pos: vec![-1i32; num_nodes], flat: Vec::new(), nodes: Vec::new() };
        assert(u@ =~= Map::<u32, Seq<u32>>::empty());
        u
    }

    /// Puts `id` into the layer, without neighbours, unless it is there.
    pub fn ensure_node(&mut self, id: u32)
        requires
            old(self).wf(),
            id < old(self).pos@.len(),
        ensures
            final(self).wf(),
            final(self).pos@.len() == old(self).pos@.len(),
            final(self)@ == (if old(self)@.contains_key(id) {
                old(self)@
            } else {
                old(self)@.insert(id, pad(Seq::empty(), HNSW_M as int))
            }),
    {
        let ghost before = *self;
        if self.pos[id as usize] < 0 {
            let slot: usize = self.nodes.len();
            proof {
                assert(!self.nodes@.contains(id)) by {
                    if self.nodes@.contains(id) {
                        let k = choose|k: int|
                            0 <= k < self.nodes@.len() && self.nodes@[k] == id;
                        assert(self.pos@[self.nodes@[k] as int] == k);
                    }
                }
                let more = self.nodes@.push(id);
                assert(more.no_duplicates());
                assert forall|k: int| 0 <= k < more.len() implies (#[trigger] more[k])
                    < self.pos@.len() by {
                    if k < self.nodes@.len() {
                        assert(self.nodes@[k] < self.pos@.len());
                    }
                }
                lemma_distinct_ids(more, self.pos@.len());
            }
            self.pos[id as usize] = slot as i32;
            self.nodes.push(id);
            let mut s: usize = 0;
            while s < HNSW_M
                invariant
                    s <= HNSW_M,
                    self.pos@ == before.pos@.update(id as int, slot as i32),
                    self.nodes@ == before.nodes@.push(id),
                    self.flat@.len() == before.flat@.len() + s,
                    forall|i: int|
                        0 <= i < before.flat@.len() ==> #[trigger] self.flat@[i] == before.flat@[i],
                    forall|i: int|
                        before.flat@.len() <= i < before.flat@.len() + s ==> #[trigger] self.flat@[i]
                            == HNSW_SENTINEL,
                decreases HNSW_M - s,
            {
                self.flat.push(HNSW_SENTINEL);
                s = s + 1;
            }
            proof {
                let row = pad(Seq::empty(), HNSW_M as int);
                assert(flat_row(self.flat@, HNSW_M as int, slot as int) =~= row);
                assert forall|k: int| 0 <= k < slot implies #[trigger] flat_row(
                    self.flat@,
                    HNSW_M as int,
                    k,
                ) == flat_row(before.flat@, HNSW_M as int, k) by {
                    assert(flat_row(self.flat@, HNSW_M as int, k) =~= flat_row(
                        before.flat@,
                        HNSW_M as int,
                        k,
                    ));
                }
                assert(self@ =~= before@.insert(id, row));
            }
        } else {
            assert(self@ =~= before@);
        }
    }

    /// The row index of `id`.
    pub fn slot_for(&self, id: u32) -> (s: Option<usize>)
        requires
            self.wf(),
            id < self.pos@.len(),
        ensures
            s is Some <==> self@.contains_key(id),
            s is Some ==> s.unwrap() == self.pos@[id as int] && s.unwrap() < self.nodes@.len(),
    {
        let p: i32 = self.pos[id as usize];
        if p < 0 {
            None
        } else {
            Some(p as usize)
        }
    }

    /// The row of `id`.
    pub fn neighbors(&self, id: u32) -> (row: Option<&[u32]>)
        requires
            self.wf(),
            id < self.pos@.len(),
        ensures
            row is Some <==> self@.contains_key(id),
            row is Some ==> row.unwrap()@ == self@[id],
    {
        match self.slot_for(id) {
            None => None,
            Some(s) => {
                let start: usize = s * HNSW_M;
                Some(slice_subrange(self.flat.as_slice(), start, start + HNSW_M))
            },
        }
    }

    /// Replaces the row of `id`.
    pub fn set_neighbors(&mut self, id: u32, row: &[u32])
        requires
            old(self).wf(),
            id < old(self).pos@.len(),
            old(self)@.contains_key(id),
            row.len() == HNSW_M,
        ensures
            final(self).wf(),
            final(self).pos@ == old(self).pos@,
            final(self)@ == old(self)@.insert(id, row@),
    {
        let ghost before = *self;
        let p: i32 = self.pos[id as usize];
        proof {
            law_with_row(self.flat@, HNSW_M as int, self.nodes@.len() as int, p as int, row@);
        }
        write_row(&mut self.flat, HNSW_M, p as usize, row);
        proof {
            assert forall|j: u32| before@.contains_key(j) && j != id implies #[trigger] self@[j]
                == before@[j] by {
                assert(before.nodes@[before.pos@[j as int] as int] == j);
                assert(before.nodes@[p as int] == id);
            }
            assert(self@ =~= before@.insert(id, row@));
        }
    }

    /// Whether `id` is in the layer.
    pub fn contains(&self, id: u32) -> (b: bool)
        requires
            id < self.pos@.len(),
        ensures
            b == self@.contains_key(id),
    {
        self.pos[id as usize] >= 0
    }
}

} // verus!
