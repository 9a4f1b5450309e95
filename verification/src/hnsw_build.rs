//! Building the neighbour graph.
use crate::beam::{
    all_in, beam_search_layer0, beam_search_upper, clear_visited, closed, dist, dist_to_q, greedy,
    greedy_descend, law_beam_stays_in_layer, law_closed_points_below, law_greedy_stays_in_layer,
    lemma_put_in, lemma_taken_in, marks_logged, points_below, run_beam, start_beam, to_query, Vectors,
};
use crate::consts::{HNSW_M, HNSW_M0, HNSW_SENTINEL, VECTOR_DIM};
use crate::layer::{
    base_layer, flat_row, law_with_row, lemma_distinct_ids, lemma_live_end, lemma_row_index, live,
    live_end, neighbours_in, pad, write_row, Layer, UpperEditable,
};
use crate::order::{
    all_ids, insertion_order, law_insertion_order, law_shuffle_is_permutation, shuffle, shuffled,
    sort_by_level,
};
use crate::select::{
    among, back_edge, hits_of, law_select, lemma_link, lemma_set_row, link, rows_have, select,
    select_neighbors_heuristic,
};
use crate::topk::Hit;
use vstd::prelude::*;
use vstd::slice::slice_subrange;

verus! {

/// How many nearest nodes an insertion looks for in each layer.
pub const EF_CONSTRUCTION: usize = 200;

/// Slots in a row of layer `l`.
pub open spec fn width(l: int) -> int {
    if l == 0 {
        HNSW_M0 as int
    } else {
        HNSW_M as int
    }
}

/// A graph while it is being built: the base layer as a flat table of `n` rows, and the layers above.
pub struct EditableGraph {
    pub n: usize,
    pub layer0: Vec<u32>,
    pub uppers: Vec<UpperEditable>,
}

impl View for EditableGraph {
    type V = Seq<Layer>;

    open spec fn view(&self) -> Seq<Layer> {
        Seq::new(
            self.uppers@.len() + 1,
            |l: int|
                if l == 0 {
                    base_layer(self.layer0@, self.n as int)
                } else {
                    self.uppers@[l - 1]@
                },
        )
    }
}

impl EditableGraph {
    pub open spec fn wf(&self) -> bool {
        &&& self.n <= HNSW_SENTINEL
        &&& self.layer0.len() == self.n * HNSW_M0
        &&& forall|l: int|
            0 <= l < self.uppers@.len() ==> (#[trigger] self.uppers@[l]).wf()
                && self.uppers@[l].pos@.len() == self.n
    }

    /// The row of `id` in layer `l`.
    fn row(&self, l: usize, id: u32) -> (row: &[u32])
        requires
            self.wf(),
            l < self@.len(),
            id < self.n,
            self@[l as int].contains_key(id),
        ensures
            row@ == self@[l as int][id],
    {
        if l == 0 {
            assert(id * HNSW_M0 + HNSW_M0 <= self.layer0.len());
            let start: usize = id as usize * HNSW_M0;
            slice_subrange(self.layer0.as_slice(), start, start + HNSW_M0)
        } else {
            match self.uppers[l - 1].neighbors(id) {
                Some(row) => row,
                None => self.layer0.as_slice(),
            }
        }
    }

    /// Replaces the row of `id` in layer `l`.
    fn set_row(&mut self, l: usize, id: u32, row: &[u32])
        requires
            old(self).wf(),
            l < old(self)@.len(),
            id < old(self).n,
            old(self)@[l as int].contains_key(id),
            row.len() == width(l as int),
        ensures
            final(self).wf(),
            final(self).n == old(self).n,
            final(self)@ == old(self)@.update(l as int, old(self)@[l as int].insert(id, row@)),
    {
        let ghost before = *self;
        let ghost goal = self@[l as int].insert(id, row@);
        if l == 0 {
            proof {
                law_with_row(self.layer0@, HNSW_M0 as int, self.n as int, id as int, row@);
                lemma_row_index(id as int, self.n as int, HNSW_M0 as int);
            }
            write_row(&mut self.layer0, HNSW_M0, id as usize, row);
            assert(base_layer(self.layer0@, self.n as int) =~= goal);
        } else {
            self.uppers[l - 1].set_neighbors(id, row);
        }
        assert(self@ =~= before@.update(l as int, goal));
    }

    /// Puts `id`, without neighbours, into the layers from 1 to `level`.
    fn register(&mut self, id: u32, level: usize)
        requires
            old(self).wf(),
            level < old(self)@.len(),
            id < old(self).n,
        ensures
            final(self).wf(),
            final(self).n == old(self).n,
            final(self)@ == registered(old(self)@, id, level as int),
    {
        let ghost before = *self;
        let mut l: usize = 0;
        assert(self@ =~= registered(before@, id, 0));
        while l < level
            invariant
                0 <= l <= level,
                level < before@.len(),
                self.wf(),
                self.n == before.n,
                id < self.n,
                self.layer0@ == before.layer0@,
                self@ == registered(before@, id, l as int),
            decreases level - l,
        {
            let ghost prev = *self;
            assert(self@.len() == before@.len());
            self.uppers[l].ensure_node(id);
            proof {
                let after = registered(before@, id, l + 1);
                assert(prev@[l + 1] == before@[l + 1]);
                assert(prev@[l + 1] == prev.uppers@[l as int]@);
                assert forall|j: int| 0 <= j < after.len() implies self@[j] == after[j] by {
                    if j != l + 1 {
                        assert(prev@[j] == after[j]);
                    }
                }
                assert(self@ =~= after);
            }
            l = l + 1;
        }
    }
}

/// The layers after `id` was put, without neighbours, into the layers from 1 to `level`.
pub open spec fn registered(layers: Seq<Layer>, id: u32, level: int) -> Seq<Layer> {
    Seq::new(
        layers.len(),
        |l: int|
            if 1 <= l <= level && !layers[l].contains_key(id) {
                layers[l].insert(id, pad(Seq::empty(), HNSW_M as int))
            } else {
                layers[l]
            },
    )
}

/// Asks `target` for an edge to `new_neighbor` in layer `layer`.
fn add_back_edge(
    vectors: &[[i8; VECTOR_DIM]],
    target: u32,
    new_neighbor: u32,
    layer: usize,
    m_use: usize,
    graph: &mut EditableGraph,
)
    requires
        old(graph).wf(),
        old(graph).n == vectors.len(),
        layer < old(graph)@.len(),
        m_use == width(layer as int),
        closed(old(graph)@[layer as int], vectors.len() as int),
        rows_have(old(graph)@[layer as int], m_use as int),
        old(graph)@[layer as int].contains_key(target),
        old(graph)@[layer as int].contains_key(new_neighbor),
    ensures
        final(graph).wf(),
        final(graph).n == old(graph).n,
        final(graph)@ == old(graph)@.update(
            layer as int,
            back_edge(
                vectors@,
                old(graph)@[layer as int],
                m_use as int,
                target,
                new_neighbor,
            ),
        ),
{
    let ghost at = graph@[layer as int];
    let ghost ids = live(at[target]);
    let mut candidates: Vec<Hit> = Vec::with_capacity(m_use + 1);
    let row: &[u32] = graph.row(layer, target);
    let mut slot: usize = 0;
    proof {
        lemma_live_end(row@, 0);
        assert(hits_of(vectors@, target, ids.take(0)) =~= Seq::empty());
    }
    while slot < m_use && row[slot] != HNSW_SENTINEL
        invariant
            slot <= m_use,
            m_use == row.len(),
            row@ == at[target],
            ids == live(row@),
            live_end(row@, 0) == live_end(row@, slot as int),
            slot <= live_end(row@, 0) <= row.len(),
            target < vectors.len(),
            at.contains_key(target),
            closed(at, vectors.len() as int),
            candidates@ == hits_of(vectors@, target, ids.take(slot as int)),
            forall|k: int| 0 <= k < slot ==> ids[k] != new_neighbor,
            at == graph@[layer as int],
            *graph == *old(graph),
            graph.wf(),
            layer < graph@.len(),
        decreases m_use - slot,
    {
        let c: u32 = row[slot];
        proof {
            lemma_live_end(row@, slot + 1);
            assert(ids[slot as int] == c);
        }
        if c == new_neighbor {
            assert(ids.contains(new_neighbor));
            assert(graph@ =~= graph@.update(layer as int, at));
            return;
        }
        assert(at.contains_key(neighbours_in(at, target)[slot as int]));
        candidates.push((dist(vectors, target, c), c));
        assert(candidates@ =~= hits_of(vectors@, target, ids.take(slot + 1)));
        slot = slot + 1;
    }
    assert(ids.take(slot as int) =~= ids);
    assert(!ids.contains(new_neighbor));
    candidates.push((dist(vectors, target, new_neighbor), new_neighbor));
    let ghost cands = hits_of(vectors@, target, ids.push(new_neighbor));
    proof {
        assert(candidates@ =~= cands);
        assert forall|k: int| 0 <= k < cands.len() implies (#[trigger] cands[k]).1
            < vectors.len() by {
            if k < ids.len() {
                assert(at.contains_key(neighbours_in(at, target)[k]));
            }
        }
    }
    let mut new_neighbors: [u32; HNSW_M0] = [HNSW_SENTINEL; HNSW_M0];
    select_neighbors_heuristic(vectors, &mut candidates, m_use, &mut new_neighbors);
    let ghost sel = select(vectors@, cands, m_use as int);
    let new_row: &[u32] = slice_subrange(new_neighbors.as_slice(), 0, m_use);
    assert(new_row@ =~= pad(sel, m_use as int));
    graph.set_row(layer, target, new_row);
}

/// No marks.
pub open spec fn unmarked(n: nat) -> Seq<u8> {
    Seq::new(n, |i: int| 0u8)
}

/// The nodes near node `q` that a search of the layer from `from` finds.
pub open spec fn near(vectors: Vectors, layer: Layer, q: u32, from: Hit) -> Seq<Hit> {
    run_beam(
        vectors,
        vectors[q as int]@,
        layer,
        EF_CONSTRUCTION as int,
        start_beam(unmarked(vectors.len()), Seq::empty(), EF_CONSTRUCTION as int, from),
    ).found
}

/// The layer after node `q` got neighbours from `found` and they were asked for edges back.
pub open spec fn attached(
    vectors: Vectors,
    layer: Layer,
    w: int,
    q: u32,
    found: Seq<Hit>,
) -> Layer {
    let chosen = select(vectors, found, w);
    link(vectors, layer.insert(q, pad(chosen, w)), w, chosen, q)
}

/// Where the search of the next layer starts.
pub open spec fn next_start(found: Seq<Hit>, from: Hit) -> Hit {
    if found.len() > 0 {
        found[0]
    } else {
        from
    }
}

/// The layers after node `q` was attached in the layers from `cur` down to the base.
pub open spec fn attach_down(
    vectors: Vectors,
    layers: Seq<Layer>,
    q: u32,
    cur: int,
    from: Hit,
) -> Seq<Layer>
    decreases cur,
{
    let found = near(vectors, layers[cur], q, from);
    let after = layers.update(cur, attached(vectors, layers[cur], width(cur), q, found));
    if cur <= 0 {
        after
    } else {
        attach_down(vectors, after, q, cur - 1, next_start(found, from))
    }
}

/// Greedy walks through the layers from `cur` down to the one above `to`.
pub open spec fn descend(
    vectors: Vectors,
    q: Seq<i8>,
    layers: Seq<Layer>,
    cur: int,
    to: int,
    from: Hit,
) -> Hit
    decreases cur,
{
    if cur > to && cur > 0 {
        descend(vectors, q, layers, cur - 1, to, greedy(vectors, q, layers[cur], from))
    } else {
        from
    }
}

/// A graph: its layers, the node where searches start, and the layer in which they start.
#[verifier::ext_equal]
pub struct Graph {
    pub layers: Seq<Layer>,
    pub entry: u32,
    pub top: int,
}

/// Every layer is closed, has rows of its width, and holds every node of the layers above it; the base
/// holds every node.
pub open spec fn layers_ok(layers: Seq<Layer>, n: int) -> bool {
    &&& layers.len() > 0
    &&& forall|l: int|
        0 <= l < layers.len() ==> closed(#[trigger] layers[l], n) && rows_have(layers[l], width(l))
    &&& forall|id: u32| (id as int) < n ==> #[trigger] layers[0].contains_key(id)
    &&& forall|a: int, b: int, id: u32|
        0 <= a <= b < layers.len() && #[trigger] layers[b].contains_key(id) ==> (
        #[trigger] layers[a]).contains_key(id)
}

impl Graph {
    /// The layers belong together and a search can start.
    pub open spec fn sound(self, n: int) -> bool {
        &&& layers_ok(self.layers, n)
        &&& 0 <= self.top < self.layers.len()
        &&& self.layers[self.top].contains_key(self.entry)
    }

    /// A search can walk through the layers: the node where it starts and every neighbour are below `n`.
    pub open spec fn walkable(self, n: int) -> bool {
        &&& 0 <= self.top < self.layers.len()
        &&& self.entry < n
        &&& forall|l: int| 0 <= l < self.layers.len() ==> points_below(#[trigger] self.layers[l], n)
    }
}

/// A search can walk through the layers of a sound graph.
pub proof fn law_sound_is_walkable(g: Graph, n: int)
    requires
        g.sound(n),
    ensures
        g.walkable(n),
{
    assert(closed(g.layers[g.top], n));
    assert forall|l: int| 0 <= l < g.layers.len() implies points_below(#[trigger] g.layers[l], n) by {
        law_closed_points_below(g.layers[l], n);
    }
}

/// The graph after node `q` was inserted up to layer `level`.
pub open spec fn inserted(vectors: Vectors, g: Graph, q: u32, level: int) -> Graph {
    let layers = registered(g.layers, q, level);
    let start = (to_query(vectors, vectors[q as int]@, g.entry), g.entry);
    let from = descend(vectors, vectors[q as int]@, layers, g.top, level, start);
    let low = if g.top < level {
        g.top
    } else {
        level
    };
    Graph {
        layers: attach_down(vectors, layers, q, low, from),
        entry: if level > g.top {
            q
        } else {
            g.entry
        },
        top: if level > g.top {
            level
        } else {
            g.top
        },
    }
}

pub proof fn lemma_near(vectors: Vectors, layer: Layer, n: int, q: u32, from: Hit)
    requires
        closed(layer, n),
        layer.contains_key(from.1),
    ensures
        all_in(near(vectors, layer, q, from), layer),
{
    let ef = EF_CONSTRUCTION as int;
    lemma_put_in(Seq::empty(), from, layer);
    lemma_taken_in(Seq::empty(), ef, from, layer);
    law_beam_stays_in_layer(
        vectors,
        vectors[q as int]@,
        layer,
        n,
        ef,
        start_beam(unmarked(vectors.len()), Seq::empty(), ef, from),
    );
}

pub proof fn lemma_selected_in(vectors: Vectors, layer: Layer, w: int, found: Seq<Hit>)
    requires
        all_in(found, layer),
        0 <= w,
    ensures
        ({
            let sel = select(vectors, found, w);
            &&& sel.len() <= w
            &&& forall|k: int| 0 <= k < sel.len() ==> layer.contains_key(#[trigger] sel[k])
        }),
{
    law_select(vectors, found, w);
    let sel = select(vectors, found, w);
    assert forall|k: int| 0 <= k < sel.len() implies layer.contains_key(#[trigger] sel[k]) by {
        assert(among(found, sel[k]));
        let j = choose|j: int| 0 <= j < found.len() && (#[trigger] found[j]).1 == sel[k];
        assert(layer.contains_key(found[j].1));
    }
}

pub proof fn lemma_attached(vectors: Vectors, layer: Layer, n: int, w: int, q: u32, found: Seq<Hit>)
    requires
        closed(layer, n),
        rows_have(layer, w),
        n <= HNSW_SENTINEL,
        0 <= w,
        layer.contains_key(q),
        all_in(found, layer),
    ensures
        closed(attached(vectors, layer, w, q, found), n),
        rows_have(attached(vectors, layer, w, q, found), w),
        attached(vectors, layer, w, q, found).dom() == layer.dom(),
{
    lemma_selected_in(vectors, layer, w, found);
    let sel = select(vectors, found, w);
    lemma_set_row(layer, n, w, q, sel);
    let wired = layer.insert(q, pad(sel, w));
    assert forall|k: int| 0 <= k < sel.len() implies wired.contains_key(#[trigger] sel[k]) by {
        assert(layer.contains_key(sel[k]));
    }
    lemma_link(vectors, wired, n, w, sel, q);
}

/// The layers have the same nodes.
pub open spec fn same_nodes(a: Seq<Layer>, b: Seq<Layer>) -> bool {
    &&& a.len() == b.len()
    &&& forall|l: int| 0 <= l < a.len() ==> (#[trigger] a[l]).dom() == b[l].dom()
}

pub proof fn lemma_layers_ok_update(layers: Seq<Layer>, n: int, cur: int, after: Layer)
    requires
        layers_ok(layers, n),
        0 <= cur < layers.len(),
        closed(after, n),
        rows_have(after, width(cur)),
        after.dom() == layers[cur].dom(),
    ensures
        layers_ok(layers.update(cur, after), n),
        same_nodes(layers.update(cur, after), layers),
{
    let next = layers.update(cur, after);
    assert(forall|l: int, id: u32|
        0 <= l < layers.len() ==> #[trigger] next[l].dom().contains(id) == layers[l].dom().contains(id));
    assert forall|a: int, b: int, id: u32|
        0 <= a <= b < next.len() && #[trigger] next[b].contains_key(id) implies (
    #[trigger] next[a]).contains_key(id) by {
        assert(next[b].dom().contains(id) == layers[b].dom().contains(id));
        assert(layers[b].contains_key(id));
        assert(layers[a].contains_key(id));
        assert(next[a].dom().contains(id) == layers[a].dom().contains(id));
    }
    assert forall|id: u32| (id as int) < n implies #[trigger] next[0].contains_key(id) by {
        assert(layers[0].contains_key(id));
        assert(next[0].dom().contains(id) == layers[0].dom().contains(id));
    }
}

proof fn lemma_attach_down(vectors: Vectors, layers: Seq<Layer>, n: int, q: u32, cur: int, from: Hit)
    requires
        layers_ok(layers, n),
        n <= HNSW_SENTINEL,
        0 <= cur < layers.len(),
        layers[cur].contains_key(q),
        layers[cur].contains_key(from.1),
    ensures
        layers_ok(attach_down(vectors, layers, q, cur, from), n),
        same_nodes(attach_down(vectors, layers, q, cur, from), layers),
    decreases cur,
{
    let found = near(vectors, layers[cur], q, from);
    lemma_near(vectors, layers[cur], n, q, from);
    let layer = attached(vectors, layers[cur], width(cur), q, found);
    lemma_attached(vectors, layers[cur], n, width(cur), q, found);
    lemma_layers_ok_update(layers, n, cur, layer);
    let after = layers.update(cur, layer);
    if cur > 0 {
        let next = next_start(found, from);
        if found.len() > 0 {
            assert(layers[cur].contains_key(found[0].1));
        }
        assert(layers[cur - 1].contains_key(q));
        assert(layers[cur - 1].contains_key(next.1));
        assert(after[cur - 1] == layers[cur - 1]);
        lemma_attach_down(vectors, after, n, q, cur - 1, next);
        assert forall|l: int| 0 <= l < layers.len() implies (#[trigger] attach_down(
            vectors,
            layers,
            q,
            cur,
            from,
        )[l]).dom() == layers[l].dom() by {
            assert(after[l].dom() == layers[l].dom());
        }
    }
}

pub proof fn lemma_descend(
    vectors: Vectors,
    q: Seq<i8>,
    layers: Seq<Layer>,
    n: int,
    cur: int,
    to: int,
    from: Hit,
)
    requires
        layers_ok(layers, n),
        0 <= cur < layers.len(),
        0 <= to,
        layers[cur].contains_key(from.1),
    ensures
        ({
            let low = if cur < to {
                cur
            } else {
                to
            };
            layers[low].contains_key(descend(vectors, q, layers, cur, to, from).1)
        }),
    decreases cur,
{
    if cur > to {
        law_greedy_stays_in_layer(vectors, q, layers[cur], n, from);
        let next = greedy(vectors, q, layers[cur], from);
        assert(layers[cur].contains_key(next.1));
        assert(layers[cur - 1].contains_key(next.1));
        lemma_descend(vectors, q, layers, n, cur - 1, to, next);
    }
}

pub proof fn lemma_registered(layers: Seq<Layer>, n: int, q: u32, level: int)
    requires
        layers_ok(layers, n),
        n <= HNSW_SENTINEL,
        (q as int) < n,
        0 <= level < layers.len(),
    ensures
        layers_ok(registered(layers, q, level), n),
        forall|l: int|
            0 <= l <= level ==> (#[trigger] registered(layers, q, level)[l]).contains_key(q),
{
    let after = registered(layers, q, level);
    let none = Seq::<u32>::empty();
    assert(layers[0].contains_key(q));
    assert forall|l: int| 0 <= l < after.len() implies closed(#[trigger] after[l], n) && rows_have(
        after[l],
        width(l),
    ) by {
        assert(closed(layers[l], n));
        if 1 <= l <= level && !layers[l].contains_key(q) {
            crate::layer::law_live_of_pad(none, HNSW_M as int);
            assert forall|id: u32, k: int|
                after[l].contains_key(id) && 0 <= k < neighbours_in(
                    after[l],
                    id,
                ).len() implies after[l].contains_key(
                #[trigger] neighbours_in(after[l], id)[k],
            ) by {
                if id != q {
                    assert(neighbours_in(after[l], id) == neighbours_in(layers[l], id));
                    assert(layers[l].contains_key(neighbours_in(layers[l], id)[k]));
                }
            }
        }
    }
    assert forall|a: int, b: int, id: u32|
        0 <= a <= b < after.len() && #[trigger] after[b].contains_key(id) implies (
    #[trigger] after[a]).contains_key(id) by {
        if id != q {
            assert(layers[b].contains_key(id));
            assert(layers[a].contains_key(id));
        } else if !layers[b].contains_key(q) {
            assert(b <= level);
            assert(layers[0].contains_key(q));
        } else {
            assert(layers[a].contains_key(q));
        }
    }
    assert forall|id: u32| (id as int) < n implies #[trigger] after[0].contains_key(id) by {
        assert(layers[0].contains_key(id));
    }
}

/// Inserting a node keeps the graph sound, and adds the node to the layers up to its own and nothing
/// else to any layer.
pub proof fn law_insert_keeps_graph_sound(vectors: Vectors, g: Graph, q: u32, level: int)
    requires
        g.sound(vectors.len() as int),
        vectors.len() <= HNSW_SENTINEL,
        q < vectors.len(),
        0 <= level < g.layers.len(),
    ensures
        inserted(vectors, g, q, level).sound(vectors.len() as int),
        inserted(vectors, g, q, level).layers.len() == g.layers.len(),
        forall|l: int, id: u32|
            0 <= l < g.layers.len() ==> (#[trigger] inserted(vectors, g, q, level).layers[l].contains_key(
                id,
            ) <==> g.layers[l].contains_key(id) || (id == q && l <= level)),
{
    let n = vectors.len() as int;
    let layers = registered(g.layers, q, level);
    let start = (to_query(vectors, vectors[q as int]@, g.entry), g.entry);
    let low = if g.top < level {
        g.top
    } else {
        level
    };
    lemma_registered(g.layers, n, q, level);
    assert(layers[g.top].contains_key(g.entry));
    lemma_descend(vectors, vectors[q as int]@, layers, n, g.top, level, start);
    let from = descend(vectors, vectors[q as int]@, layers, g.top, level, start);
    assert(layers[low].contains_key(q));
    lemma_attach_down(vectors, layers, n, q, low, from);
    let out = attach_down(vectors, layers, q, low, from);
    assert forall|l: int, id: u32| 0 <= l < g.layers.len() implies (#[trigger] out[l].contains_key(id)
        <==> g.layers[l].contains_key(id) || (id == q && l <= level)) by {
        assert(out[l].dom() == layers[l].dom());
        assert(out[l].dom().contains(id) == layers[l].dom().contains(id));
        assert(g.layers[0].contains_key(q));
    }
    let r = inserted(vectors, g, q, level);
    assert(r.layers == out);
    assert(out[r.top].contains_key(r.entry)) by {
        assert(g.layers[g.top].contains_key(g.entry));
    }
}

/// Finds neighbours for node `q_id` in layer `cur`, from node `ep`, and wires them both ways. Returns
/// where the search of the next layer starts.
fn attach_layer(
    q_id: u32,
    vectors: &[[i8; VECTOR_DIM]],
    cur: usize,
    ep: u32,
    ep_dist: u32,
    graph: &mut EditableGraph,
    visited: &mut Vec<u8>,
    visited_log: &mut Vec<u32>,
) -> (next: (u32, u32))
    requires
        old(graph).wf(),
        old(graph).n == vectors.len(),
        vectors.len() <= HNSW_SENTINEL,
        layers_ok(old(graph)@, vectors.len() as int),
        cur < old(graph)@.len(),
        old(graph)@[cur as int].contains_key(q_id),
        old(graph)@[cur as int].contains_key(ep),
        old(visited)@.len() == vectors.len(),
        marks_logged(old(visited)@, old(visited_log)@),
    ensures
        final(graph).wf(),
        final(graph).n == old(graph).n,
        final(visited)@.len() == vectors.len(),
        marks_logged(final(visited)@, final(visited_log)@),
        ({
            let layer = old(graph)@[cur as int];
            let found = near(vectors@, layer, q_id, (ep_dist, ep));
            &&& (next.1, next.0) == next_start(found, (ep_dist, ep))
            &&& final(graph)@ == old(graph)@.update(
                cur as int,
                attached(vectors@, layer, width(cur as int), q_id, found),
            )
        }),
{
    let ghost n = vectors.len() as int;
    let ghost layers = graph@;
    let ghost layer = graph@[cur as int];
    let ghost found = near(vectors@, layer, q_id, (ep_dist, ep));
    assert(closed(layer, n) && rows_have(layer, width(cur as int)));
    proof {
        law_closed_points_below(layer, n);
    }
    clear_visited(visited, visited_log);
    assert(visited@ =~= unmarked(vectors@.len()));
    assert(visited_log@ =~= Seq::empty());
    let q: &[i8; VECTOR_DIM] = &vectors[q_id as usize];
    let candidates: Vec<Hit> = if cur == 0 {
        beam_search_layer0(
            vectors,
            q,
            ep,
            ep_dist,
            EF_CONSTRUCTION,
            graph.layer0.as_slice(),
            visited,
            visited_log,
        )
    } else {
        beam_search_upper(
            vectors,
            q,
            ep,
            ep_dist,
            EF_CONSTRUCTION,
            &graph.uppers[cur - 1],
            visited,
            visited_log,
        )
    };
    assert(candidates@ == found);
    let m_use: usize = if cur == 0 {
        HNSW_M0
    } else {
        HNSW_M
    };
    let mut next: (u32, u32) = (ep, ep_dist);
    if candidates.len() > 0 {
        next = (candidates[0].1, candidates[0].0);
    }
    let mut q_neighbors: [u32; HNSW_M0] = [HNSW_SENTINEL; HNSW_M0];
    let mut q_cands: Vec<Hit> = candidates;
    proof {
        assert forall|k: int| 0 <= k < q_cands@.len() implies (#[trigger] q_cands@[k]).1
            < vectors.len() by {
            assert(layer.contains_key(found[k].1));
        }
        lemma_selected_in(vectors@, layer, m_use as int, found);
    }
    let count: usize = select_neighbors_heuristic(vectors, &mut q_cands, m_use, &mut q_neighbors);
    let ghost sel = select(vectors@, found, m_use as int);
    let row: &[u32] = slice_subrange(q_neighbors.as_slice(), 0, m_use);
    assert(row@ =~= pad(sel, m_use as int));
    graph.set_row(cur, q_id, row);
    let ghost wired = layer.insert(q_id, pad(sel, m_use as int));
    proof {
        lemma_set_row(layer, n, m_use as int, q_id, sel);
        assert(sel.take(0) =~= Seq::empty());
        assert(link(vectors@, wired, m_use as int, sel.take(0), q_id) == wired);
    }
    let mut slot: usize = 0;
    while slot < count
        invariant
            slot <= count <= m_use <= HNSW_M0,
            count == sel.len(),
            n == vectors.len(),
            n <= HNSW_SENTINEL,
            graph.wf(),
            graph.n == n,
            cur < layers.len(),
            m_use == width(cur as int),
            layer == layers[cur as int],
            q_neighbors@ == pad(sel, HNSW_M0 as int),
            closed(wired, n),
            rows_have(wired, m_use as int),
            wired.contains_key(q_id),
            forall|k: int| 0 <= k < sel.len() ==> wired.contains_key(#[trigger] sel[k]),
            graph@ == layers.update(
                cur as int,
                link(vectors@, wired, m_use as int, sel.take(slot as int), q_id),
            ),
        decreases count - slot,
    {
        let x: u32 = q_neighbors[slot];
        let ghost part = sel.take(slot as int);
        proof {
            assert(x == sel[slot as int]);
            assert forall|k: int| 0 <= k < part.len() implies wired.contains_key(
                #[trigger] part[k],
            ) by {
                assert(wired.contains_key(sel[k]));
            }
            lemma_link(vectors@, wired, n, m_use as int, part, q_id);
            let now = link(vectors@, wired, m_use as int, part, q_id);
            assert(graph@[cur as int] == now);
            assert(now.dom().contains(x));
            assert(now.dom().contains(q_id));
            assert(sel.take(slot + 1).drop_last() =~= part);
        }
        add_back_edge(vectors, x, q_id, cur, m_use, graph);
        assert(graph@ =~= layers.update(
            cur as int,
            link(vectors@, wired, m_use as int, sel.take(slot + 1), q_id),
        ));
        slot = slot + 1;
    }
    assert(sel.take(slot as int) =~= sel);
    next
}

/// Inserts node `q_id` into the layers up to `q_level`.
fn insert_node(
    q_id: u32,
    q_level: usize,
    vectors: &[[i8; VECTOR_DIM]],
    entry: &mut u32,
    max_level: &mut usize,
    graph: &mut EditableGraph,
    visited: &mut Vec<u8>,
    visited_log: &mut Vec<u32>,
)
    requires
        old(graph).wf(),
        old(graph).n == vectors.len(),
        vectors.len() <= HNSW_SENTINEL,
        q_id < vectors.len(),
        q_level < old(graph)@.len(),
        (Graph { layers: old(graph)@, entry: *old(entry), top: *old(max_level) as int }).sound(
            vectors.len() as int,
        ),
        old(visited)@.len() == vectors.len(),
        marks_logged(old(visited)@, old(visited_log)@),
    ensures
        final(graph).wf(),
        final(graph).n == old(graph).n,
        (Graph { layers: final(graph)@, entry: *final(entry), top: *final(max_level) as int })
            == inserted(
            vectors@,
            (Graph { layers: old(graph)@, entry: *old(entry), top: *old(max_level) as int }),
            q_id,
            q_level as int,
        ),
        final(visited)@.len() == vectors.len(),
        marks_logged(final(visited)@, final(visited_log)@),
{
    let ghost n = vectors.len() as int;
    let ghost g = Graph { layers: graph@, entry: *entry, top: *max_level as int };
    let q: &[i8; VECTOR_DIM] = &vectors[q_id as usize];
    assert(closed(g.layers[g.top], n));
    let mut ep: u32 = *entry;
    let mut ep_dist: u32 = dist_to_q(vectors, q, ep);
    let ghost start = (ep_dist, ep);
    graph.register(q_id, q_level);
    let ghost layers = graph@;
    proof {
        lemma_registered(g.layers, n, q_id, q_level as int);
        assert(layers[g.top].contains_key(ep));
    }
    let ghost landing = descend(vectors@, q@, layers, g.top, q_level as int, start);
    let mut cur: usize = *max_level;
    while cur > q_level
        invariant
            n == vectors.len(),
            graph.wf(),
            graph.n == n,
            graph@ == layers,
            layers_ok(layers, n),
            cur < layers.len(),
            layers[cur as int].contains_key(ep),
            landing == descend(
                vectors@,
                q@,
                layers,
                cur as int,
                q_level as int,
                (ep_dist, ep),
            ),
            cur == g.top || (g.top > cur && cur >= q_level),
        decreases cur,
    {
        proof {
            assert(closed(layers[cur as int], n));
            law_closed_points_below(layers[cur as int], n);
        }
        let (e, d) = greedy_descend(vectors, q, ep, ep_dist, &graph.uppers[cur - 1]);
        ep = e;
        ep_dist = d;
        assert(layers[cur as int].contains_key(e));
        assert(layers[cur - 1].contains_key(e));
        cur = cur - 1;
    }
    let ghost low = if g.top < q_level {
        g.top
    } else {
        q_level as int
    };
    assert(cur == low);
    let ghost goal = attach_down(vectors@, layers, q_id, low, landing);
    assert(layers[low].contains_key(q_id));
    loop
        invariant_except_break
            cur < graph@.len(),
            graph@[cur as int].contains_key(q_id),
            graph@[cur as int].contains_key(ep),
            layers_ok(graph@, n),
            goal == attach_down(vectors@, graph@, q_id, cur as int, (ep_dist, ep)),
        invariant
            n == vectors.len(),
            n <= HNSW_SENTINEL,
            graph.wf(),
            graph.n == n,
            visited@.len() == n,
            marks_logged(visited@, visited_log@),
        ensures
            graph@ == goal,
        decreases cur,
    {
        let ghost prev = graph@;
        let ghost from = (ep_dist, ep);
        let ghost found = near(vectors@, prev[cur as int], q_id, from);
        proof {
            assert(closed(prev[cur as int], n));
            lemma_near(vectors@, prev[cur as int], n, q_id, from);
            lemma_attached(vectors@, prev[cur as int], n, width(cur as int), q_id, found);
            lemma_layers_ok_update(
                prev,
                n,
                cur as int,
                attached(vectors@, prev[cur as int], width(cur as int), q_id, found),
            );
            if found.len() > 0 {
                assert(prev[cur as int].contains_key(found[0].1));
            }
        }
        let (e, d) = attach_layer(q_id, vectors, cur, ep, ep_dist, graph, visited, visited_log);
        ep = e;
        ep_dist = d;
        if cur == 0 {
            break;
        }
        proof {
            assert(prev[cur - 1].contains_key(q_id));
            assert(prev[cur - 1].contains_key(e));
            assert(graph@[cur - 1] == prev[cur - 1]);
        }
        cur = cur - 1;
    }
    if q_level > *max_level {
        *max_level = q_level;
        *entry = q_id;
    }
}

/// A finished graph in compact form.
pub struct BuiltGraph {
    pub num_nodes: usize,
    pub entry_point: u32,
    /// The base and every layer above it.
    pub num_layers: usize,
    /// `num_nodes` rows of `HNSW_M0` neighbour slots.
    pub layer0_neighbors: Vec<u32>,
    /// The layers above the base, from the lowest.
    pub upper_layers: Vec<UpperLayer>,
}

/// A layer above the base in compact form.
pub struct UpperLayer {
    /// The ids in the layer, ascending.
    pub nodes: Vec<u32>,
    /// A row of `HNSW_M` neighbour slots for each of `nodes`.
    pub neighbors: Vec<u32>,
}

impl UpperLayer {
    pub open spec fn wf(&self) -> bool {
        &&& self.neighbors.len() == self.nodes@.len() * HNSW_M
        &&& forall|a: int, b: int|
            0 <= a < b < self.nodes@.len() ==> (#[trigger] self.nodes@[a]) < (
            #[trigger] self.nodes@[b])
    }

}

impl View for UpperLayer {
    type V = Layer;

    open spec fn view(&self) -> Layer {
        Map::new(
            |id: u32| self.nodes@.contains(id),
            |id: u32| flat_row(self.neighbors@, HNSW_M as int, self.nodes@.index_of(id)),
        )
    }
}

impl UpperLayer {
    pub proof fn lemma_row(&self, k: int)
        requires
            self.wf(),
            0 <= k < self.nodes@.len(),
        ensures
            self@.contains_key(self.nodes@[k]),
            self@[self.nodes@[k]] == flat_row(self.neighbors@, HNSW_M as int, k),
    {
        let id = self.nodes@[k];
        assert(self.nodes@.contains(id));
        let j = self.nodes@.index_of(id);
        assert(self.nodes@[j] == id);
        if j < k {
            assert(self.nodes@[j] < self.nodes@[k]);
        }
        if k < j {
            assert(self.nodes@[k] < self.nodes@[j]);
        }
    }
}

impl View for BuiltGraph {
    type V = Graph;

    open spec fn view(&self) -> Graph {
        Graph {
            layers: Seq::new(
                self.upper_layers@.len() + 1,
                |l: int|
                    if l == 0 {
                        base_layer(self.layer0_neighbors@, self.num_nodes as int)
                    } else {
                        self.upper_layers@[l - 1]@
                    },
            ),
            entry: self.entry_point,
            top: self.num_layers - 1,
        }
    }
}

impl BuiltGraph {
    pub open spec fn wf(&self) -> bool {
        &&& self.layer0_neighbors.len() == self.num_nodes * HNSW_M0
        &&& self.num_layers == self.upper_layers.len() + 1
        &&& forall|l: int|
            0 <= l < self.upper_layers@.len() ==> (#[trigger] self.upper_layers@[l]).wf()
    }
}

impl BuiltGraph {
    /// A search over `vectors` can use the graph.
    pub open spec fn searchable(&self, vectors: Vectors) -> bool {
        &&& self.wf()
        &&& self.num_nodes == vectors.len()
        &&& self@.walkable(vectors.len() as int)
        &&& forall|l: int|
            0 <= l < self.upper_layers@.len() ==> (#[trigger] self.upper_layers@[l]).nodes.len()
                <= u32::MAX
    }
}

proof fn lemma_node_count(layer: &UpperLayer, n: nat)
    requires
        layer.wf(),
        closed(layer@, n as int),
    ensures
        layer.nodes@.len() <= n,
{
    assert forall|k: int| 0 <= k < layer.nodes@.len() implies (#[trigger] layer.nodes@[k]) < n by {
        layer.lemma_row(k);
    }
    assert(layer.nodes@.no_duplicates()) by {
        assert forall|a: int, b: int|
            0 <= a < layer.nodes@.len() && 0 <= b < layer.nodes@.len() && a != b implies layer.nodes@[a]
            != layer.nodes@[b] by {
            if a < b {
                assert(layer.nodes@[a] < layer.nodes@[b]);
            } else {
                assert(layer.nodes@[b] < layer.nodes@[a]);
            }
        }
    }
    lemma_distinct_ids(layer.nodes@, n);
}

/// The graph of the first node alone, which is in the layers up to `level`.
pub open spec fn seed_graph(n: int, first: u32, level: int) -> Graph {
    Graph {
        layers: registered(
            Seq::new(
                (level + 1) as nat,
                |l: int|
                    if l == 0 {
                        Map::new(|id: u32| (id as int) < n, |id: u32| pad(Seq::empty(), HNSW_M0 as int))
                    } else {
                        Map::<u32, Seq<u32>>::empty()
                    },
            ),
            first,
            level,
        ),
        entry: first,
        top: level,
    }
}

/// The graph after the nodes of `order` were inserted one after the other.
pub open spec fn insert_all(vectors: Vectors, levels: Seq<u8>, order: Seq<u32>) -> Graph
    decreases order.len(),
{
    if order.len() <= 1 {
        seed_graph(vectors.len() as int, order[0], levels[order[0] as int] as int)
    } else {
        inserted(
            vectors,
            insert_all(vectors, levels, order.drop_last()),
            order.last(),
            levels[order.last() as int] as int,
        )
    }
}

/// The graph over `vectors` whose nodes have the given levels.
pub open spec fn built(vectors: Vectors, levels: Seq<u8>, seed: u64) -> Graph {
    insert_all(vectors, levels, insertion_order(vectors.len() as int, levels, seed))
}

proof fn lemma_seed_graph(n: int, first: u32, level: int)
    requires
        (first as int) < n <= HNSW_SENTINEL,
        0 <= level,
    ensures
        seed_graph(n, first, level).sound(n),
        seed_graph(n, first, level).layers.len() == level + 1,
        forall|l: int, id: u32|
            1 <= l <= level ==> (#[trigger] seed_graph(n, first, level).layers[l].contains_key(id) <==> id
                == first),
{
    let bare = Seq::new(
        (level + 1) as nat,
        |l: int|
            if l == 0 {
                Map::new(|id: u32| (id as int) < n, |id: u32| pad(Seq::empty(), HNSW_M0 as int))
            } else {
                Map::<u32, Seq<u32>>::empty()
            },
    );
    crate::layer::law_live_of_pad(Seq::empty(), HNSW_M0 as int);
    assert(layers_ok(bare, n));
    lemma_registered(bare, n, first, level);
}

/// The levels of the nodes of `order` never rise.
pub open spec fn falling(order: Seq<u32>, levels: Seq<u8>) -> bool {
    forall|a: int, b: int|
        0 <= a <= b < order.len() ==> levels[#[trigger] order[a] as int] >= levels[
            #[trigger] order[b] as int]
}

pub proof fn lemma_insert_all(vectors: Vectors, levels: Seq<u8>, order: Seq<u32>)
    requires
        order.len() > 0,
        vectors.len() <= HNSW_SENTINEL,
        forall|k: int| 0 <= k < order.len() ==> (#[trigger] order[k]) < vectors.len(),
        falling(order, levels),
    ensures
        ({
            let g = insert_all(vectors, levels, order);
            &&& g.sound(vectors.len() as int)
            &&& g.layers.len() == levels[order[0] as int] + 1
            &&& g.top == levels[order[0] as int]
            &&& g.entry == order[0]
            &&& forall|l: int, id: u32|
                1 <= l < g.layers.len() ==> (#[trigger] g.layers[l].contains_key(id) <==> order.contains(
                    id,
                ) && levels[id as int] >= l)
        }),
    decreases order.len(),
{
    let n = vectors.len() as int;
    let g = insert_all(vectors, levels, order);
    if order.len() == 1 {
        lemma_seed_graph(n, order[0], levels[order[0] as int] as int);
        assert(forall|id: u32| order.contains(id) <==> id == order[0]) by {
            assert(order[0] == order[0]);
        }
    } else {
        let front = order.drop_last();
        let q = order.last();
        assert forall|k: int| 0 <= k < front.len() implies (#[trigger] front[k]) < n by {
            assert(order[k] < n);
        }
        assert(falling(front, levels)) by {
            assert forall|a: int, b: int| 0 <= a <= b < front.len() implies levels[
                #[trigger] front[a] as int] >= levels[#[trigger] front[b] as int] by {
                assert(levels[order[a] as int] >= levels[order[b] as int]);
            }
        }
        lemma_insert_all(vectors, levels, front);
        let h = insert_all(vectors, levels, front);
        let last = order.len() - 1;
        assert(order[last] == q);
        assert(levels[order[0] as int] >= levels[order[last] as int]);
        assert(front[0] == order[0]);
        law_insert_keeps_graph_sound(vectors, h, q, levels[q as int] as int);
        assert forall|l: int, id: u32| 1 <= l < g.layers.len() implies (
        #[trigger] g.layers[l].contains_key(id) <==> order.contains(id) && levels[id as int] >= l) by {
            assert(g.layers[l].contains_key(id) <==> h.layers[l].contains_key(id) || (id == q && l
                <= levels[q as int]));
            if front.contains(id) {
                let k = choose|k: int| 0 <= k < front.len() && front[k] == id;
                assert(order[k] == id);
            }
            if order.contains(id) && id != q {
                let k = choose|k: int| 0 <= k < order.len() && order[k] == id;
                assert(front[k] == id);
            }
        }
    }
}

/// In the graph that is built, searches can start, every neighbour of a node of a layer is in that
/// layer, and a node is in exactly the layers up to its level.
pub proof fn law_built_graph(vectors: Vectors, levels: Seq<u8>, seed: u64)
    requires
        0 < vectors.len() <= HNSW_SENTINEL,
    ensures
        ({
            let g = built(vectors, levels, seed);
            &&& g.sound(vectors.len() as int)
            &&& g.top + 1 == g.layers.len()
            &&& g.entry < vectors.len()
            &&& g.top == levels[g.entry as int]
            &&& forall|id: u32| id < vectors.len() ==> #[trigger] levels[id as int] <= g.top
            &&& forall|l: int, id: u32|
                0 <= l < g.layers.len() ==> (#[trigger] g.layers[l].contains_key(id) <==> id
                    < vectors.len() && levels[id as int] >= l)
        }),
{
    let n = vectors.len() as int;
    let order = insertion_order(n, levels, seed);
    law_insertion_order(n, levels, seed);
    lemma_insert_all(vectors, levels, order);
    let g = built(vectors, levels, seed);
    assert(order[0] < n);
    assert forall|id: u32| id < n implies #[trigger] levels[id as int] <= g.top by {
        assert(order.contains(id));
        let k = choose|k: int| 0 <= k < order.len() && order[k] == id;
        assert(levels[order[0] as int] >= levels[order[k] as int]);
    }
    assert forall|l: int, id: u32| 0 <= l < g.layers.len() implies (
    #[trigger] g.layers[l].contains_key(id) <==> id < n && levels[id as int] >= l) by {
        if l == 0 {
            assert(closed(g.layers[0], n));
        } else {
            assert(g.layers[l].contains_key(id) <==> order.contains(id) && levels[id as int] >= l);
            if order.contains(id) {
                let k = choose|k: int| 0 <= k < order.len() && order[k] == id;
                assert(order[k] < n);
            }
        }
    }
}

/// The compact form of a layer.
fn compact(u: &UpperEditable) -> (out: UpperLayer)
    requires
        u.wf(),
    ensures
        out.wf(),
        out@ == u@,
{
    let mut nodes: Vec<u32> = Vec::with_capacity(u.nodes.len());
    let mut neighbors: Vec<u32> = Vec::with_capacity(u.flat.len());
    for id in 0..u.pos.len()
        invariant
            u.wf(),
            neighbors@.len() == nodes@.len() * HNSW_M,
            forall|k: int|
                0 <= k < nodes@.len() ==> (#[trigger] nodes@[k]) < id && u@.contains_key(nodes@[k])
                    && u@[nodes@[k]] == flat_row(neighbors@, HNSW_M as int, k),
            forall|a: int, b: int|
                0 <= a < b < nodes@.len() ==> (#[trigger] nodes@[a]) < (#[trigger] nodes@[b]),
            forall|x: u32| x < id && #[trigger] u@.contains_key(x) ==> nodes@.contains(x),
    {
        let x: u32 = id as u32;
        if let Some(row) = u.neighbors(x) {
            let ghost nodes0 = nodes@;
            let ghost flat0 = neighbors@;
            nodes.push(x);
            let mut s: usize = 0;
            while s < HNSW_M
                invariant
                    s <= HNSW_M,
                    row.len() == HNSW_M,
                    neighbors@ == flat0 + row@.take(s as int),
                decreases HNSW_M - s,
            {
                neighbors.push(row[s]);
                assert(neighbors@ =~= flat0 + row@.take(s + 1));
                s = s + 1;
            }
            proof {
                let m = nodes0.len() as int;
                assert(flat_row(neighbors@, HNSW_M as int, m) =~= row@);
                assert forall|k: int| 0 <= k < nodes@.len() implies (#[trigger] nodes@[k]) < id + 1
                    && u@.contains_key(nodes@[k]) && u@[nodes@[k]] == flat_row(
                    neighbors@,
                    HNSW_M as int,
                    k,
                ) by {
                    if k < m {
                        assert(nodes@[k] == nodes0[k]);
                        assert(flat_row(neighbors@, HNSW_M as int, k) =~= flat_row(
                            flat0,
                            HNSW_M as int,
                            k,
                        ));
                    }
                }
                assert forall|y: u32| y < id + 1 && #[trigger] u@.contains_key(
                    y,
                ) implies nodes@.contains(y) by {
                    if y == x {
                        assert(nodes@[m] == x);
                    } else {
                        assert(nodes0.contains(y));
                        let k = choose|k: int| 0 <= k < nodes0.len() && nodes0[k] == y;
                        assert(nodes@[k] == y);
                    }
                }
            }
        }
    }
    let out = UpperLayer { nodes, neighbors };
    proof {
        assert forall|id: u32| #[trigger] u@.contains_key(id) implies out@.contains_key(id) && out@[id]
            == u@[id] by {
            let k = choose|k: int| 0 <= k < nodes@.len() && nodes@[k] == id;
            out.lemma_row(k);
        }
        assert forall|id: u32| #[trigger] out@.contains_key(id) implies u@.contains_key(id) by {
            let k = choose|k: int| 0 <= k < nodes@.len() && nodes@[k] == id;
            assert(u@.contains_key(nodes@[k]));
        }
        assert(out@ =~= u@);
    }
    out
}

/// Builds the graph over `vectors`; `levels` gives the topmost layer of each node.
pub fn build(vectors: &[[i8; VECTOR_DIM]], levels: &[u8], seed: u64) -> (out: BuiltGraph)
    requires
        0 < vectors.len() < HNSW_SENTINEL,
        levels.len() == vectors.len(),
    ensures
        out.num_nodes == vectors.len(),
        out.wf(),
        out@ == built(vectors@, levels@, seed),
        out.searchable(vectors@),
{
    let n: usize = vectors.len();
    let ghost order_spec = insertion_order(n as int, levels@, seed);
    let mixed: Vec<u32> = shuffle(n, seed);
    proof {
        law_insertion_order(n as int, levels@, seed);
        lemma_shuffle_ids(n as int, (seed ^ crate::order::SHUFFLE_SALT) | 1);
    }
    let order: Vec<u32> = sort_by_level(&mixed, levels);
    assert(order@ == order_spec);
    let first: u32 = order[0];
    assert(first < n);
    let top: usize = levels[first as usize] as usize;
    let layer0: Vec<u32> = vec![HNSW_SENTINEL; n * HNSW_M0];
    let mut uppers: Vec<UpperEditable> = Vec::with_capacity(top);
    let mut l: usize = 0;
    while l < top
        invariant
            l <= top,
            n <= HNSW_SENTINEL,
            uppers@.len() == l,
            forall|k: int|
                0 <= k < l ==> (#[trigger] uppers@[k]).wf() && uppers@[k].pos@.len() == n
                    && uppers@[k]@ == Map::<u32, Seq<u32>>::empty(),
        decreases top - l,
    {
        uppers.push(UpperEditable::new(n));
        l = l + 1;
    }
    let mut graph = EditableGraph { n, layer0, uppers };
    let mut visited: Vec<u8> = vec![0u8; n];
    let mut visited_log: Vec<u32> = Vec::new();
    let mut entry: u32 = first;
    let mut max_level: usize = top;
    let ghost bare = graph@;
    graph.register(first, top);
    proof {
        let empty = pad(Seq::empty(), HNSW_M0 as int);
        let seeded = seed_graph(n as int, first, top as int);
        assert(bare[0] =~= Map::new(|id: u32| (id as int) < n, |id: u32| empty)) by {
            assert forall|id: u32| id < n implies #[trigger] bare[0][id] == empty by {
                lemma_row_index(id as int, n as int, HNSW_M0 as int);
                assert(bare[0][id] =~= empty);
            }
        }
        assert(bare =~= Seq::new(
            (top + 1) as nat,
            |l: int|
                if l == 0 {
                    Map::new(
                        |id: u32| (id as int) < n,
                        |id: u32| pad(Seq::empty(), HNSW_M0 as int),
                    )
                } else {
                    Map::<u32, Seq<u32>>::empty()
                },
        ));
        assert(graph@ == seeded.layers);
        assert(order@.take(1)[0] == first);
    }
    let mut i: usize = 1;
    while i < order.len()
        invariant
            n == vectors.len(),
            n == levels.len(),
            n < HNSW_SENTINEL,
            order@.len() == n,
            1 <= i <= order.len(),
            forall|k: int| 0 <= k < n ==> (#[trigger] order@[k]) < n,
            falling(order@, levels@),
            graph.wf(),
            graph.n == n,
            visited@.len() == n,
            marks_logged(visited@, visited_log@),
            (Graph { layers: graph@, entry, top: max_level as int }) == insert_all(
                vectors@,
                levels@,
                order@.take(i as int),
            ),
        decreases order.len() - i,
    {
        let q_id: u32 = order[i];
        let ghost part = order@.take(i as int);
        proof {
            lemma_falling_take(order@, levels@, i as int);
            lemma_insert_all(vectors@, levels@, part);
            assert(levels@[order@[0] as int] >= levels@[order@[i as int] as int]);
            assert(order@.take(i + 1).drop_last() =~= part);
            assert(order@.take(i + 1).last() == q_id);
        }
        insert_node(
            q_id,
            levels[q_id as usize] as usize,
            vectors,
            &mut entry,
            &mut max_level,
            &mut graph,
            &mut visited,
            &mut visited_log,
        );
        i = i + 1;
    }
    assert(order@.take(i as int) =~= order@);
    let ghost g = built(vectors@, levels@, seed);
    let mut upper_layers: Vec<UpperLayer> = Vec::with_capacity(graph.uppers.len());
    for k in 0..graph.uppers.len()
        invariant
            graph.wf(),
            upper_layers@.len() == k,
            graph@ == g.layers,
            forall|j: int|
                0 <= j < k ==> (#[trigger] upper_layers@[j]).wf() && upper_layers@[j]@ == g.layers[j + 1],
    {
        let u: UpperLayer = compact(&graph.uppers[k]);
        assert(g.layers[k + 1] == graph.uppers@[k as int]@);
        upper_layers.push(u);
    }
    proof {
        law_built_graph(vectors@, levels@, seed);
        assert(g.layers[0] == base_layer(graph.layer0@, n as int));
    }
    let out = BuiltGraph {
        num_nodes: n,
        entry_point: entry,
        num_layers: max_level + 1,
        layer0_neighbors: graph.layer0,
        upper_layers,
    };
    proof {
        assert(out@.layers =~= g.layers);
        law_sound_is_walkable(g, n as int);
        assert forall|l: int| 0 <= l < out.upper_layers@.len() implies (
        #[trigger] out.upper_layers@[l]).nodes.len() <= u32::MAX by {
            assert(out.upper_layers@[l]@ == g.layers[l + 1]);
            assert(closed(g.layers[l + 1], n as int));
            lemma_node_count(&out.upper_layers@[l], n as nat);
        }
    }
    out
}

pub proof fn lemma_falling_take(order: Seq<u32>, levels: Seq<u8>, i: int)
    requires
        falling(order, levels),
        0 <= i <= order.len(),
    ensures
        falling(order.take(i), levels),
{
    let part = order.take(i);
    assert forall|a: int, b: int| 0 <= a <= b < part.len() implies levels[#[trigger] part[a] as int]
        >= levels[#[trigger] part[b] as int] by {
        assert(levels[order[a] as int] >= levels[order[b] as int]);
    }
}

proof fn lemma_shuffle_ids(n: int, x: u64)
    requires
        0 < n <= 0x1_0000_0000,
    ensures
        forall|k: int|
            0 <= k < shuffled(all_ids(n), x, n - 1).len() ==> (#[trigger] shuffled(
                all_ids(n),
                x,
                n - 1,
            )[k]) < n,
{
    broadcast use vstd::seq_lib::group_to_multiset_ensures;

    let ids = all_ids(n);
    let s = shuffled(ids, x, n - 1);
    law_shuffle_is_permutation(ids, x, n - 1);
    assert forall|k: int| 0 <= k < s.len() implies (#[trigger] s[k]) < n by {
        assert(s.contains(s[k]));
        assert(s.to_multiset().count(s[k]) > 0);
        assert(ids.contains(s[k]));
    }
}

} // verus!
