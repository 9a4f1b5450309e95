//! Searching the neighbour graph.
use crate::beam::{
    greedy, hit, lemma_greedy_below, lemma_greedy_distance, lemma_nearest_in, lemma_unseen_mark,
    nearest_in, points_below, to_query, unseen, Vectors,
};
use crate::consts::{HNSW_M, HNSW_M0, HNSW_SENTINEL, TOP_K, VECTOR_DIM};
use crate::distance::{l2_spec, l2_squared};
use crate::heap::{
    is_heap, law_pop, law_push, law_root_is_extreme, peek_max, pop_max, pop_min, pulled, push_max,
    push_min, pushed,
};
use crate::hnsw_build::{descend, unmarked, BuiltGraph, Graph, UpperLayer};
use crate::layer::{
    base_layer, flat_row, lemma_live_end, lemma_row_index, live_end, neighbours_in, Layer,
};
use crate::sort::{first_u32, law_stable_sort, sort_by_u32, stable_sort};
use crate::topk::Hit;
use vstd::prelude::*;

verus! {

/// How many nearest nodes a search of the base layer keeps.
pub const EF_SEARCH: usize = 64;

/// Whether bit `i` of a bitmap is set.
pub open spec fn marked(words: Seq<u64>, i: int) -> bool {
    words[i / 64] & (1u64 << ((i % 64) as u64)) != 0
}

/// The first `n` bits of a bitmap, as marks.
pub open spec fn marks(words: Seq<u64>, n: nat) -> Seq<u8> {
    Seq::new(
        n,
        |i: int|
            if marked(words, i) {
                1u8
            } else {
                0u8
            },
    )
}

proof fn lemma_set_bit(w: u64, a: u64, b: u64)
    by (bit_vector)
    requires
        a < 64,
        b < 64,
    ensures
        ((w | (1u64 << a)) & (1u64 << b) != 0) == (a == b || w & (1u64 << b) != 0),
{
}

proof fn lemma_clear_bit(w: u64, a: u64, b: u64)
    by (bit_vector)
    requires
        a < 64,
        b < 64,
    ensures
        ((w & !(1u64 << a)) & (1u64 << b) != 0) == (a != b && w & (1u64 << b) != 0),
{
}

/// Working memory of a search, to be used again for the next one.
pub struct SearchState {
    /// One bit for each node.
    pub visited: Vec<u64>,
    /// The ids whose bits are set.
    pub visited_ids: Vec<u32>,
    /// Min-heap of the candidates to expand.
    pub candidates: Vec<Hit>,
    /// Max-heap of the nearest nodes found.
    pub found: Vec<Hit>,
}

impl SearchState {
    /// Number of nodes the bitmap has room for.
    pub open spec fn room(&self) -> int {
        self.visited@.len() as int * 64
    }

    pub open spec fn wf(&self) -> bool {
        &&& forall|k: int|
            0 <= k < self.visited_ids@.len() ==> (#[trigger] self.visited_ids@[k]) < self.room()
        &&& forall|i: int|
            0 <= i < self.room() && #[trigger] marked(self.visited@, i) ==> i <= u32::MAX
                && self.visited_ids@.contains(i as u32)
    }

    /// Working memory for up to `max_nodes` nodes.
    pub fn new(max_nodes: usize) -> (s: Self)
        requires
            max_nodes <= usize::MAX - 63,
        ensures
            s.wf(),
            max_nodes <= s.room() < max_nodes + 64,
            forall|i: int| 0 <= i < s.room() ==> !#[trigger] marked(s.visited@, i),
            s.visited_ids@.len() == 0,
            s.candidates@.len() == 0,
            s.found@.len() == 0,
    {
        let n_words: usize = (max_nodes + 63) / 64;
        let s = SearchState {
            visited: vec![0u64; n_words],
            visited_ids: Vec::new(),
            candidates: Vec::new(),
            found: Vec::new(),
        };
        proof {
            assert forall|i: int| 0 <= i < s.room() implies !#[trigger] marked(s.visited@, i) by {
                let b = (i % 64) as u64;
                assert(s.visited@[i / 64] == 0);
                assert(0u64 & (1u64 << b) == 0) by (bit_vector);
            }
        }
        s
    }

    /// Marks `id` as visited. Returns whether it was not before.
    pub fn mark_visited(&mut self, id: u32) -> (fresh: bool)
        requires
            old(self).wf(),
            id < old(self).room(),
        ensures
            final(self).wf(),
            final(self).room() == old(self).room(),
            final(self).candidates == old(self).candidates,
            final(self).found == old(self).found,
            fresh == !marked(old(self).visited@, id as int),
            final(self).visited_ids@ == (if fresh {
                old(self).visited_ids@.push(id)
            } else {
                old(self).visited_ids@
            }),
            forall|i: int|
                0 <= i < old(self).room() ==> #[trigger] marked(final(self).visited@, i) == (marked(
                    old(self).visited@,
                    i,
                ) || i == id),
    {
        let ghost before = *self;
        let i: usize = id as usize;
        let word: usize = i / 64;
        let shift: u64 = (i % 64) as u64;
        let bit: u64 = 1u64 << shift;
        let w: u64 = self.visited[word];
        let was: bool = w & bit != 0;
        if !was {
            self.visited[word] = w | bit;
            self.visited_ids.push(id);
        }
        proof {
            assert forall|j: int| 0 <= j < before.room() implies #[trigger] marked(self.visited@, j) == (
            marked(before.visited@, j) || j == id) by {
                if !was && j / 64 == word {
                    lemma_set_bit(w, shift, (j % 64) as u64);
                }
            }
            assert forall|j: int| 0 <= j < self.room() && #[trigger] marked(
                self.visited@,
                j,
            ) implies j <= u32::MAX && self.visited_ids@.contains(j as u32) by {
                if !was {
                    if j == id {
                        assert(self.visited_ids@[before.visited_ids@.len() as int] == id);
                    } else {
                        assert(marked(before.visited@, j));
                        let k = choose|k: int|
                            0 <= k < before.visited_ids@.len() && before.visited_ids@[k] == j as u32;
                        assert(self.visited_ids@[k] == j as u32);
                    }
                } else {
                    assert(marked(before.visited@, j));
                }
            }
        }
        !was
    }

    /// Removes every mark and empties the heaps.
    pub fn reset(&mut self)
        requires
            old(self).wf(),
        ensures
            final(self).wf(),
            final(self).room() == old(self).room(),
            forall|i: int| 0 <= i < old(self).room() ==> !#[trigger] marked(final(self).visited@, i),
            final(self).visited_ids@.len() == 0,
            final(self).candidates@.len() == 0,
            final(self).found@.len() == 0,
    {
        let ghost before = *self;
        let count: usize = self.visited_ids.len();
        for k in 0..count
            invariant
                before.wf(),
                count == before.visited_ids@.len(),
                self.visited_ids@ == before.visited_ids@,
                self.room() == before.room(),
                forall|j: int|
                    0 <= j < before.room() ==> #[trigger] marked(self.visited@, j) == (marked(
                        before.visited@,
                        j,
                    ) && !before.visited_ids@.take(k as int).contains(j as u32)),
        {
            let id: u32 = self.visited_ids[k];
            assert(before.visited_ids@[k as int] < before.room());
            let ghost prev = self.visited@;
            let i: usize = id as usize;
            let word: usize = i / 64;
            let shift: u64 = (i % 64) as u64;
            let bit: u64 = 1u64 << shift;
            let w: u64 = self.visited[word];
            self.visited[word] = w & !bit;
            proof {
                let a = before.visited_ids@.take(k as int);
                let b = before.visited_ids@.take(k + 1);
                assert forall|j: int| 0 <= j < before.room() implies #[trigger] marked(
                    self.visited@,
                    j,
                ) == (marked(before.visited@, j) && !b.contains(j as u32)) by {
                    let x = j as u32;
                    assert(marked(prev, j) == (marked(before.visited@, j) && !a.contains(x)));
                    if j / 64 == word {
                        lemma_clear_bit(w, shift, (j % 64) as u64);
                    }
                    if a.contains(x) {
                        let m = choose|m: int| 0 <= m < a.len() && a[m] == x;
                        assert(b[m] == x);
                    }
                    if b.contains(x) && x != id {
                        let m = choose|m: int| 0 <= m < b.len() && b[m] == x;
                        assert(a[m] == x);
                    }
                    assert(b[k as int] == id);
                }
            }
        }
        proof {
            let ids = before.visited_ids@;
            assert(ids.take(ids.len() as int) =~= ids);
            assert forall|i: int| 0 <= i < self.room() implies !#[trigger] marked(
                self.visited@,
                i,
            ) by {
                assert(marked(self.visited@, i) == (marked(before.visited@, i) && !ids.contains(
                    i as u32,
                )));
            }
        }
        self.visited_ids.clear();
        self.candidates.clear();
        self.found.clear();
    }
}

/// The state of a search of the base layer: the two heaps and the visited marks.
#[verifier::ext_equal]
pub struct Probe {
    pub candidates: Seq<Hit>,
    pub found: Seq<Hit>,
    pub visited: Seq<u8>,
}

/// The largest distance kept; `u32::MAX` if nothing is kept.
pub open spec fn farthest(found: Seq<Hit>) -> u32 {
    if found.len() == 0 {
        u32::MAX
    } else {
        found[0].0
    }
}

/// The kept nodes after `x` was added, the farthest one dropped if they were too many.
pub open spec fn keep(found: Seq<Hit>, x: Hit) -> Seq<Hit> {
    let more = pushed(true, found, x);
    if more.len() > EF_SEARCH {
        pulled(true, more)
    } else {
        more
    }
}

/// Looking at node `n`: if it was not visited, mark it, and if it is near enough, keep it and make it a
/// candidate.
pub open spec fn look(vectors: Vectors, q: Seq<i8>, p: Probe, n: u32) -> Probe {
    if n >= p.visited.len() || p.visited[n as int] != 0 {
        p
    } else {
        let d = to_query(vectors, q, n);
        let visited = p.visited.update(n as int, 1);
        if d < farthest(p.found) || p.found.len() < EF_SEARCH {
            Probe {
                candidates: pushed(false, p.candidates, (d, n)),
                found: keep(p.found, (d, n)),
                visited,
            }
        } else {
            Probe { candidates: p.candidates, found: p.found, visited }
        }
    }
}

/// Looking at the nodes `ids` in order.
pub open spec fn look_all(vectors: Vectors, q: Seq<i8>, p: Probe, ids: Seq<u32>) -> Probe
    decreases ids.len(),
{
    if ids.len() == 0 {
        p
    } else {
        look(vectors, q, look_all(vectors, q, p, ids.drop_last()), ids.last())
    }
}

/// `p` with its nearest candidate taken.
pub open spec fn taken(p: Probe) -> Probe {
    Probe { candidates: pulled(false, p.candidates), found: p.found, visited: p.visited }
}

pub proof fn lemma_look_all_measure(vectors: Vectors, q: Seq<i8>, p: Probe, ids: Seq<u32>)
    ensures
        ({
            let r = look_all(vectors, q, p, ids);
            unseen(r.visited) + r.candidates.len() <= unseen(p.visited) + p.candidates.len()
        }),
    decreases ids.len(),
{
    if ids.len() > 0 {
        lemma_look_all_measure(vectors, q, p, ids.drop_last());
        let m = look_all(vectors, q, p, ids.drop_last());
        let n = ids.last();
        if n < m.visited.len() && m.visited[n as int] == 0 {
            lemma_unseen_mark(m.visited, n as int);
            law_push(false, m.candidates, (to_query(vectors, q, n), n));
        }
    }
}

/// Expanding candidates, nearest first, until none is left or the next one is too far.
pub open spec fn run_probe(vectors: Vectors, q: Seq<i8>, base: Layer, p: Probe) -> Probe
    decreases unseen(p.visited) + p.candidates.len(),
{
    if p.candidates.len() == 0 {
        p
    } else if p.candidates[0].0 > farthest(p.found) && p.found.len() >= EF_SEARCH {
        taken(p)
    } else {
        proof {
            law_pop(false, p.candidates);
            lemma_look_all_measure(vectors, q, taken(p), neighbours_in(base, p.candidates[0].1));
        }
        run_probe(
            vectors,
            q,
            base,
            look_all(vectors, q, taken(p), neighbours_in(base, p.candidates[0].1)),
        )
    }
}

/// A search of the base layer about to start at `from`.
pub open spec fn start_probe(n: nat, from: Hit) -> Probe {
    Probe {
        candidates: seq![from],
        found: seq![from],
        visited: unmarked(n).update(from.1 as int, 1),
    }
}

/// The five nearest of the kept nodes, filled up with `(u32::MAX, u32::MAX)`.
pub open spec fn nearest_five(found: Seq<Hit>) -> Seq<Hit> {
    let sorted = stable_sort(found, first_u32());
    Seq::new(
        TOP_K as nat,
        |i: int|
            if i < sorted.len() {
                sorted[i]
            } else {
                (u32::MAX, u32::MAX)
            },
    )
}

/// What the search of the base layer ends with.
pub open spec fn probed(vectors: Vectors, g: Graph, q: Seq<i8>) -> Probe {
    let start = (to_query(vectors, q, g.entry), g.entry);
    let from = descend(vectors, q, g.layers, g.top, 0, start);
    run_probe(vectors, q, g.layers[0], start_probe(vectors.len(), from))
}

/// The result of a search of the graph.
pub open spec fn searched(vectors: Vectors, g: Graph, q: Seq<i8>) -> Seq<Hit> {
    nearest_five(probed(vectors, g, q).found)
}

/// Squared distance of the query to a node.
pub fn distance_to(vectors: &[[i8; VECTOR_DIM]], query: &[i8; VECTOR_DIM], node: u32) -> (d: u32)
    requires
        node < vectors.len(),
    ensures
        d == to_query(vectors@, query@, node),
        d == l2_spec(query@, vectors@[node as int]@),
{
    l2_squared(query, &vectors[node as usize]) as u32
}

/// The index of `zero_id` among the nodes of a layer; `u32::MAX` if it is not in the layer.
pub fn layer_local_index(layer: &UpperLayer, zero_id: u32) -> (i: u32)
    requires
        layer.wf(),
        layer.nodes.len() <= u32::MAX,
    ensures
        i == u32::MAX <==> !layer@.contains_key(zero_id),
        i != u32::MAX ==> i < layer.nodes.len() && layer.nodes@[i as int] == zero_id,
{
    let nodes: &Vec<u32> = &layer.nodes;
    let mut lo: usize = 0;
    let mut hi: usize = nodes.len();
    while lo < hi
        invariant
            layer.wf(),
            nodes == &layer.nodes,
            nodes.len() <= u32::MAX,
            lo <= hi <= nodes.len(),
            forall|k: int| 0 <= k < lo ==> (#[trigger] nodes@[k]) < zero_id,
            forall|k: int| hi <= k < nodes.len() ==> (#[trigger] nodes@[k]) > zero_id,
        decreases hi - lo,
    {
        let mid: usize = lo + (hi - lo) / 2;
        let id: u32 = nodes[mid];
        if id == zero_id {
            assert(nodes@.contains(zero_id));
            return mid as u32;
        }
        if id < zero_id {
            lo = mid + 1;
        } else {
            hi = mid;
        }
    }
    u32::MAX
}

/// Walks in a layer above the base from `ep` to ever nearer neighbours until none is nearer.
fn walk(
    vectors: &[[i8; VECTOR_DIM]],
    query: &[i8; VECTOR_DIM],
    layer: &UpperLayer,
    ep: u32,
    ep_dist: u32,
) -> (end: (u32, u32))
    requires
        layer.wf(),
        layer.nodes.len() <= u32::MAX,
        points_below(layer@, vectors.len() as int),
    ensures
        (end.1, end.0) == greedy(vectors@, query@, layer@, (ep_dist, ep)),
{
    let mut at: u32 = ep;
    let mut at_dist: u32 = ep_dist;
    let ghost goal = greedy(vectors@, query@, layer@, (ep_dist, ep));
    loop
        invariant
            layer.wf(),
            layer.nodes.len() <= u32::MAX,
            points_below(layer@, vectors.len() as int),
            goal == greedy(vectors@, query@, layer@, (ep_dist, ep)),
            goal == greedy(vectors@, query@, layer@, (at_dist, at)),
        decreases at_dist,
    {
        let ghost from = (at_dist, at);
        let ghost ids = neighbours_in(layer@, at);
        let start: u32 = at_dist;
        let local: u32 = layer_local_index(layer, at);
        if local == u32::MAX {
            return (at, at_dist);
        }
        let ghost row = flat_row(layer.neighbors@, HNSW_M as int, local as int);
        proof {
            layer.lemma_row(local as int);
            lemma_row_index(local as int, layer.nodes@.len() as int, HNSW_M as int);
            lemma_live_end(row, 0);
            assert(ids.take(0) =~= Seq::empty());
        }
        let base_slot: usize = local as usize * HNSW_M;
        let mut slot: usize = 0;
        while slot < HNSW_M && layer.neighbors[base_slot + slot] != HNSW_SENTINEL
            invariant
                points_below(layer@, vectors.len() as int),
                layer@.contains_key(from.1),
                base_slot == local * HNSW_M,
                base_slot + HNSW_M <= layer.neighbors.len(),
                row == flat_row(layer.neighbors@, HNSW_M as int, local as int),
                row == layer@[from.1],
                ids == neighbours_in(layer@, from.1),
                slot <= HNSW_M,
                live_end(row, 0) == live_end(row, slot as int),
                slot <= live_end(row, 0) <= row.len(),
                (at_dist, at) == nearest_in(vectors@, query@, ids.take(slot as int), from),
            decreases HNSW_M - slot,
        {
            let n: u32 = layer.neighbors[base_slot + slot];
            proof {
                lemma_live_end(row, slot + 1);
                assert(row[slot as int] == n);
                assert(ids[slot as int] == n);
                assert(neighbours_in(layer@, from.1)[slot as int] < vectors.len());
                assert(ids.take(slot + 1).drop_last() =~= ids.take(slot as int));
            }
            let d: u32 = distance_to(vectors, query, n);
            if d < at_dist {
                at = n;
                at_dist = d;
            }
            slot = slot + 1;
        }
        proof {
            if slot < HNSW_M {
                assert(row[slot as int] == layer.neighbors@[base_slot + slot]);
            }
            assert(ids.take(slot as int) =~= ids);
            lemma_nearest_in(vectors@, query@, ids, from);
        }
        if at_dist >= start {
            return (at, at_dist);
        }
    }
}

/// Every id in `hits` is below `n`.
pub open spec fn ids_below(hits: Seq<Hit>, n: int) -> bool {
    forall|k: int| 0 <= k < hits.len() ==> (#[trigger] hits[k]).1 < n
}

proof fn lemma_ids_below_multiset(a: Seq<Hit>, b: Seq<Hit>, n: int)
    requires
        ids_below(a, n),
        forall|x: Hit| #[trigger] b.to_multiset().count(x) > 0 ==> a.to_multiset().count(x) > 0,
    ensures
        ids_below(b, n),
{
    broadcast use vstd::seq_lib::group_to_multiset_ensures;

    assert forall|k: int| 0 <= k < b.len() implies (#[trigger] b[k]).1 < n by {
        assert(b.contains(b[k]));
        assert(b.to_multiset().count(b[k]) > 0);
        assert(a.contains(b[k]));
    }
}

proof fn lemma_ids_below_push(h: Seq<Hit>, x: Hit, n: int)
    requires
        ids_below(h, n),
        x.1 < n,
    ensures
        ids_below(pushed(false, h, x), n),
{
    broadcast use vstd::seq_lib::group_to_multiset_ensures;
    broadcast use vstd::multiset::group_multiset_axioms;

    law_push(false, h, x);
    assert(ids_below(h.push(x), n));
    assert(h.push(x).to_multiset() =~= h.to_multiset().insert(x));
    lemma_ids_below_multiset(h.push(x), pushed(false, h, x), n);
}

proof fn lemma_ids_below_pop(h: Seq<Hit>, n: int)
    requires
        ids_below(h, n),
        h.len() > 0,
    ensures
        ids_below(pulled(false, h), n),
{
    broadcast use vstd::multiset::group_multiset_axioms;

    law_pop(false, h);
    lemma_ids_below_multiset(h, pulled(false, h), n);
}

/// Searches the base layer from `ep`. Leaves the kept nodes in `state.found`.
fn search_base(
    vectors: &[[i8; VECTOR_DIM]],
    layer0: &Vec<u32>,
    query: &[i8; VECTOR_DIM],
    ep: u32,
    ep_dist: u32,
    state: &mut SearchState,
)
    requires
        layer0.len() == vectors.len() * HNSW_M0,
        points_below(base_layer(layer0@, vectors.len() as int), vectors.len() as int),
        ep < vectors.len(),
        old(state).wf(),
        old(state).room() >= vectors.len(),
        forall|i: int| 0 <= i < old(state).room() ==> !#[trigger] marked(old(state).visited@, i),
        old(state).candidates@.len() == 0,
        old(state).found@.len() == 0,
    ensures
        final(state).wf(),
        final(state).room() == old(state).room(),
        final(state).found@ == run_probe(
            vectors@,
            query@,
            base_layer(layer0@, vectors.len() as int),
            start_probe(vectors@.len(), (ep_dist, ep)),
        ).found,
        marks(final(state).visited@, vectors@.len()) == run_probe(
            vectors@,
            query@,
            base_layer(layer0@, vectors.len() as int),
            start_probe(vectors@.len(), (ep_dist, ep)),
        ).visited,
{
    let ghost n = vectors@.len();
    let ghost base = base_layer(layer0@, vectors.len() as int);
    let ghost room = state.room();
    let ghost goal = run_probe(vectors@, query@, base, start_probe(n, (ep_dist, ep)));
    state.mark_visited(ep);
    state.candidates.push((ep_dist, ep));
    state.found.push((ep_dist, ep));
    proof {
        let p = start_probe(n, (ep_dist, ep));
        assert(state.candidates@ =~= p.candidates);
        assert(state.found@ =~= p.found);
        assert(marks(state.visited@, n) =~= p.visited);
    }
    loop
        invariant_except_break
            goal == run_probe(
                vectors@,
                query@,
                base,
                Probe {
                    candidates: state.candidates@,
                    found: state.found@,
                    visited: marks(state.visited@, n),
                },
            ),
        invariant
            n == vectors.len(),
            layer0.len() == n * HNSW_M0,
            base == base_layer(layer0@, n as int),
            points_below(base, n as int),
            state.wf(),
            state.room() == room,
            room >= n,
            ids_below(state.candidates@, n as int),
        ensures
            goal.found == state.found@,
            goal.visited == marks(state.visited@, n),
        decreases unseen(marks(state.visited@, n)) + state.candidates@.len(),
    {
        let ghost b = Probe {
            candidates: state.candidates@,
            found: state.found@,
            visited: marks(state.visited@, n),
        };
        let top: Option<Hit> = pop_min(&mut state.candidates);
        match top {
            None => {
                break;
            },
            Some((d_c, c)) => {
                proof {
                    law_pop(false, b.candidates);
                    lemma_ids_below_pop(b.candidates, n as int);
                }
                let worst: u32 = match peek_max(&state.found) {
                    Some(x) => x.0,
                    None => u32::MAX,
                };
                if d_c > worst && state.found.len() >= EF_SEARCH {
                    break;
                }
                assert(b.candidates[0].1 < n);
                let ghost from = taken(b);
                let ghost ids = neighbours_in(base, c);
                let ghost row = flat_row(layer0@, HNSW_M0 as int, c as int);
                proof {
                    assert(base.contains_key(c));
                    lemma_look_all_measure(vectors@, query@, from, ids);
                    lemma_row_index(c as int, n as int, HNSW_M0 as int);
                    lemma_live_end(row, 0);
                    assert(ids.take(0) =~= Seq::empty());
                }
                let base_slot: usize = c as usize * HNSW_M0;
                let mut slot: usize = 0;
                while slot < HNSW_M0 && layer0[base_slot + slot] != HNSW_SENTINEL
                    invariant
                        n == vectors.len(),
                        points_below(base, n as int),
                        base.contains_key(c),
                        base_slot == c * HNSW_M0,
                        base_slot + HNSW_M0 <= layer0.len(),
                        row == flat_row(layer0@, HNSW_M0 as int, c as int),
                        row == base[c],
                        ids == neighbours_in(base, c),
                        slot <= HNSW_M0,
                        live_end(row, 0) == live_end(row, slot as int),
                        slot <= live_end(row, 0) <= row.len(),
                        state.wf(),
                        state.room() == room,
                        room >= n,
                        ids_below(state.candidates@, n as int),
                        (Probe {
                            candidates: state.candidates@,
                            found: state.found@,
                            visited: marks(state.visited@, n),
                        }) == look_all(vectors@, query@, from, ids.take(slot as int)),
                    decreases HNSW_M0 - slot,
                {
                    let m: u32 = layer0[base_slot + slot];
                    let ghost p = look_all(vectors@, query@, from, ids.take(slot as int));
                    proof {
                        lemma_live_end(row, slot + 1);
                        assert(row[slot as int] == m);
                        assert(ids[slot as int] == m);
                        assert(neighbours_in(base, c)[slot as int] < n);
                        assert(ids.take(slot + 1).drop_last() =~= ids.take(slot as int));
                        assert(ids.take(slot + 1).last() == m);
                        assert(p.visited[m as int] == 0 <==> !marked(state.visited@, m as int));
                    }
                    let fresh: bool = state.mark_visited(m);
                    if fresh {
                        assert(marks(state.visited@, n) =~= p.visited.update(m as int, 1));
                        let d: u32 = distance_to(vectors, query, m);
                        let far: u32 = match peek_max(&state.found) {
                            Some(x) => x.0,
                            None => u32::MAX,
                        };
                        if d < far || state.found.len() < EF_SEARCH {
                            proof {
                                lemma_ids_below_push(state.candidates@, (d, m), n as int);
                            }
                            push_min(&mut state.candidates, (d, m));
                            push_max(&mut state.found, (d, m));
                            if state.found.len() > EF_SEARCH {
                                pop_max(&mut state.found);
                            }
                        }
                    } else {
                        assert(marks(state.visited@, n) =~= p.visited);
                    }
                    slot = slot + 1;
                }
                proof {
                    if slot < HNSW_M0 {
                        assert(row[slot as int] == layer0@[base_slot + slot]);
                    }
                    assert(ids.take(slot as int) =~= ids);
                }
            },
        }
    }
}

/// Searches the graph. Writes the nearest nodes found to the front of `out`, nearest first, and leaves the
/// rest of it alone.
fn do_search(
    vectors: &[[i8; VECTOR_DIM]],
    graph: &BuiltGraph,
    query: &[i8; VECTOR_DIM],
    state: &mut SearchState,
    out: &mut [Hit; TOP_K],
)
    requires
        graph.num_layers > 0 && graph.num_nodes > 0 ==> graph.searchable(vectors@),
        old(state).wf(),
        old(state).room() >= graph.num_nodes,
        forall|i: int| 0 <= i < old(state).room() ==> !#[trigger] marked(old(state).visited@, i),
        old(state).candidates@.len() == 0,
        old(state).found@.len() == 0,
    ensures
        final(state).wf(),
        final(state).room() == old(state).room(),
        graph.num_layers == 0 || graph.num_nodes == 0 ==> final(out)@ == old(out)@,
        graph.num_layers > 0 && graph.num_nodes > 0 ==> {
            let sorted = stable_sort(probed(vectors@, graph@, query@).found, first_u32());
            final(out)@ == Seq::new(
                TOP_K as nat,
                |i: int|
                    if i < sorted.len() {
                        sorted[i]
                    } else {
                        old(out)@[i]
                    },
            )
        },
{
    if graph.num_layers == 0 || graph.num_nodes == 0 {
        return;
    }
    let ghost n = vectors.len() as int;
    let ghost g = graph@;
    let mut ep: u32 = graph.entry_point;
    let mut ep_dist: u32 = distance_to(vectors, query, ep);
    let ghost landing = descend(vectors@, query@, g.layers, g.top, 0, (ep_dist, ep));
    let mut layer: usize = graph.num_layers - 1;
    while layer > 0
        invariant
            n == vectors.len(),
            graph.searchable(vectors@),
            g == graph@,
            layer < g.layers.len(),
            ep < n,
            landing == descend(
                vectors@,
                query@,
                g.layers,
                layer as int,
                0,
                (ep_dist, ep),
            ),
        decreases layer,
    {
        proof {
            assert(points_below(g.layers[layer as int], n));
            lemma_greedy_below(vectors@, query@, g.layers[layer as int], n, (ep_dist, ep));
        }
        let (e, d) = walk(vectors, query, &graph.upper_layers[layer - 1], ep, ep_dist);
        ep = e;
        ep_dist = d;
        layer = layer - 1;
    }
    assert(points_below(g.layers[0], n));
    search_base(vectors, &graph.layer0_neighbors, query, ep, ep_dist, state);
    let sorted: Vec<Hit> = sort_by_u32(&state.found);
    let ghost before = out@;
    let mut i: usize = 0;
    while i < TOP_K && i < sorted.len()
        invariant
            i <= TOP_K,
            i <= sorted.len(),
            forall|k: int|
                0 <= k < TOP_K ==> #[trigger] out@[k] == (if k < i {
                    sorted@[k]
                } else {
                    before[k]
                }),
        decreases TOP_K - i,
    {
        out[i] = sorted[i];
        i = i + 1;
    }
    assert(out@ =~= Seq::new(
        TOP_K as nat,
        |i: int|
            if i < sorted@.len() {
                sorted@[i]
            } else {
                before[i]
            },
    ));
}

/// Returns the five nearest nodes that a search of the graph finds, nearest first, filled up with
/// `(u32::MAX, u32::MAX)`.
pub fn search_top_k(
    vectors: &[[i8; VECTOR_DIM]],
    graph: &BuiltGraph,
    query: &[i8; VECTOR_DIM],
    state: &mut SearchState,
) -> (result: [Hit; TOP_K])
    requires
        graph.num_layers > 0 && graph.num_nodes > 0 ==> graph.searchable(vectors@),
        old(state).wf(),
        graph.num_nodes <= old(state).room(),
    ensures
        final(state).wf(),
        final(state).room() == old(state).room(),
        result@ == (if graph.num_layers == 0 || graph.num_nodes == 0 {
            nearest_five(Seq::empty())
        } else {
            searched(vectors@, graph@, query@)
        }),
{
    state.reset();
    let mut result: [Hit; TOP_K] = [(u32::MAX, u32::MAX); TOP_K];
    do_search(vectors, graph, query, state, &mut result);
    proof {
        if graph.num_layers == 0 || graph.num_nodes == 0 {
            assert(result@ =~= nearest_five(Seq::empty()));
        } else {
            assert(result@ =~= searched(vectors@, graph@, query@));
        }
    }
    result
}

/// What holds throughout a search of the base layer: both lists are heaps, the kept nodes are distinct
/// visited nodes with their true distances, and a visited node that is not kept is no nearer than any
/// kept one, of which there are then `EF_SEARCH`.
pub open spec fn probe_ok(vectors: Vectors, q: Seq<i8>, p: Probe) -> bool {
    &&& p.visited.len() == vectors.len()
    &&& is_heap(true, p.found)
    &&& is_heap(false, p.candidates)
    &&& 0 < p.found.len() <= EF_SEARCH
    &&& p.found.no_duplicates()
    &&& forall|x: Hit| #[trigger] p.found.contains(x) ==> x.1 < vectors.len() && x == hit(vectors, q, x.1)
        && p.visited[x.1 as int] != 0
    &&& forall|id: u32|
        id < vectors.len() && #[trigger] p.visited[id as int] != 0 ==> p.found.contains(
            hit(vectors, q, id),
        ) || (p.found.len() == EF_SEARCH && hit(vectors, q, id).0 >= farthest(p.found))
}

proof fn lemma_keep(found: Seq<Hit>, x: Hit)
    requires
        is_heap(true, found),
        found.no_duplicates(),
        !found.contains(x),
        0 < found.len() <= EF_SEARCH,
    ensures
        ({
            let k = keep(found, x);
            &&& is_heap(true, k)
            &&& k.no_duplicates()
            &&& k.len() == if found.len() < EF_SEARCH {
                found.len() + 1
            } else {
                EF_SEARCH as nat
            }
            &&& forall|y: Hit| #[trigger] k.contains(y) ==> found.contains(y) || y == x
            &&& forall|y: Hit|
                (found.contains(y) || y == x) && !(#[trigger] k.contains(y)) ==> k.len() == EF_SEARCH
                    && y.0 >= farthest(k)
            &&& found.len() < EF_SEARCH ==> forall|y: Hit|
                (found.contains(y) || y == x) ==> #[trigger] k.contains(y)
        }),
{
    broadcast use vstd::seq_lib::group_to_multiset_ensures;
    broadcast use vstd::multiset::group_multiset_axioms;

    let more = pushed(true, found, x);
    let k = keep(found, x);
    law_push(true, found, x);
    found.lemma_multiset_has_no_duplicates();
    assert forall|y: Hit| #[trigger] more.to_multiset().count(y) <= 1 by {
        if y != x {
            assert(more.to_multiset().count(y) == found.to_multiset().count(y));
        }
        if found.to_multiset().count(x) > 0 {
            assert(found.contains(x));
        }
        if found.to_multiset().contains(y) {
            assert(found.to_multiset().count(y) == 1);
        }
    }
    assert forall|y: Hit| #[trigger] more.contains(y) <==> found.contains(y) || y == x by {
        assert(more.contains(y) <==> more.to_multiset().count(y) > 0);
        assert(found.contains(y) <==> found.to_multiset().count(y) > 0);
    }
    if more.len() > EF_SEARCH {
        let root = more[0];
        law_pop(true, more);
        assert(more.contains(root));
        assert(more.to_multiset().count(root) == 1);
        assert forall|y: Hit| #[trigger] k.contains(y) <==> more.contains(y) && y != root by {
            assert(k.contains(y) <==> k.to_multiset().count(y) > 0);
            assert(more.contains(y) <==> more.to_multiset().count(y) > 0);
            assert(k.to_multiset() == more.to_multiset().remove(root));
        }
        assert forall|y: Hit| #[trigger] k.to_multiset().contains(y) implies k.to_multiset().count(y)
            == 1 by {
            assert(more.to_multiset().count(y) <= 1);
        }
        k.lemma_multiset_has_no_duplicates_conv();
        assert(k.contains(k[0]));
        assert(more.contains(k[0]));
        let i = choose|i: int| 0 <= i < more.len() && more[i] == k[0];
        law_root_is_extreme(true, more, i);
    } else {
        assert forall|y: Hit| #[trigger] k.to_multiset().contains(y) implies k.to_multiset().count(y)
            == 1 by {
            assert(more.to_multiset().count(y) <= 1);
        }
        k.lemma_multiset_has_no_duplicates_conv();
    }
}

pub proof fn lemma_look_ok(vectors: Vectors, q: Seq<i8>, p: Probe, n: u32)
    requires
        probe_ok(vectors, q, p),
        n < vectors.len(),
    ensures
        probe_ok(vectors, q, look(vectors, q, p, n)),
{
    if p.visited[n as int] == 0 {
        let x = hit(vectors, q, n);
        let r = look(vectors, q, p, n);
        assert(!p.found.contains(x));
        if x.0 < farthest(p.found) || p.found.len() < EF_SEARCH {
            law_push(false, p.candidates, x);
            lemma_keep(p.found, x);
            assert forall|y: Hit| #[trigger] r.found.contains(y) implies y.1 < vectors.len() && y == hit(
                vectors,
                q,
                y.1,
            ) && r.visited[y.1 as int] != 0 by {
                if y != x {
                    assert(p.found.contains(y));
                }
            }
            assert forall|id: u32|
                id < vectors.len() && #[trigger] r.visited[id as int] != 0 implies r.found.contains(
                hit(vectors, q, id),
            ) || (r.found.len() == EF_SEARCH && hit(vectors, q, id).0 >= farthest(r.found)) by {
                let y = hit(vectors, q, id);
                if id == n || p.found.contains(y) {
                    if !r.found.contains(y) {
                        assert(y.0 >= farthest(r.found));
                    }
                } else {
                    assert(p.visited[id as int] != 0);
                    assert(p.found.len() == EF_SEARCH && y.0 >= farthest(p.found));
                    assert(r.found.contains(r.found[0]));
                    let top = r.found[0];
                    if top != x {
                        assert(p.found.contains(top));
                        let i = choose|i: int| 0 <= i < p.found.len() && p.found[i] == top;
                        law_root_is_extreme(true, p.found, i);
                    }
                }
            }
        } else {
            assert forall|y: Hit| #[trigger] r.found.contains(y) implies y.1 < vectors.len() && y == hit(
                vectors,
                q,
                y.1,
            ) && r.visited[y.1 as int] != 0 by {
                assert(p.found.contains(y));
            }
            assert forall|id: u32|
                id < vectors.len() && #[trigger] r.visited[id as int] != 0 implies r.found.contains(
                hit(vectors, q, id),
            ) || (r.found.len() == EF_SEARCH && hit(vectors, q, id).0 >= farthest(r.found)) by {
                if id != n {
                    assert(p.visited[id as int] != 0);
                }
            }
        }
    }
}

pub proof fn lemma_look_all_ok(vectors: Vectors, q: Seq<i8>, p: Probe, ids: Seq<u32>)
    requires
        probe_ok(vectors, q, p),
        forall|k: int| 0 <= k < ids.len() ==> (#[trigger] ids[k]) < vectors.len(),
    ensures
        probe_ok(vectors, q, look_all(vectors, q, p, ids)),
    decreases ids.len(),
{
    if ids.len() > 0 {
        let front = ids.drop_last();
        assert forall|k: int| 0 <= k < front.len() implies (#[trigger] front[k]) < vectors.len() by {
            assert(ids[k] < vectors.len());
        }
        lemma_look_all_ok(vectors, q, p, front);
        assert(ids[ids.len() - 1] < vectors.len());
        lemma_look_ok(vectors, q, look_all(vectors, q, p, front), ids.last());
    }
}

proof fn lemma_run_probe_ok(vectors: Vectors, q: Seq<i8>, base: Layer, p: Probe)
    requires
        probe_ok(vectors, q, p),
        points_below(base, vectors.len() as int),
    ensures
        probe_ok(vectors, q, run_probe(vectors, q, base, p)),
    decreases unseen(p.visited) + p.candidates.len(),
{
    if p.candidates.len() > 0 {
        law_pop(false, p.candidates);
        let t = taken(p);
        assert(probe_ok(vectors, q, t));
        if !(p.candidates[0].0 > farthest(p.found) && p.found.len() >= EF_SEARCH) {
            let c = p.candidates[0].1;
            let ids = neighbours_in(base, c);
            assert forall|k: int| 0 <= k < ids.len() implies (#[trigger] ids[k]) < vectors.len() by {
                assert(neighbours_in(base, c)[k] < vectors.len());
            }
            lemma_look_all_ok(vectors, q, t, ids);
            lemma_look_all_measure(vectors, q, t, ids);
            lemma_run_probe_ok(vectors, q, base, look_all(vectors, q, t, ids));
        }
    }
}

pub proof fn lemma_landing(vectors: Vectors, g: Graph, q: Seq<i8>)
    requires
        g.walkable(vectors.len() as int),
    ensures
        ({
            let from = descend(vectors, q, g.layers, g.top, 0, hit(vectors, q, g.entry));
            from.1 < vectors.len() && from == hit(vectors, q, from.1)
        }),
{
    let n = vectors.len() as int;
    let start = hit(vectors, q, g.entry);
    lemma_descend_below(vectors, q, g.layers, n, g.top, 0, start);
    lemma_descend_distance(vectors, q, g.layers, g.top, 0, start);
}

/// Throughout a search the kept nodes are the nearest of the visited ones.
pub proof fn law_search_keeps_nearest(vectors: Vectors, g: Graph, q: Seq<i8>)
    requires
        g.walkable(vectors.len() as int),
    ensures
        probe_ok(vectors, q, probed(vectors, g, q)),
{
    let n = vectors.len() as int;
    let start = hit(vectors, q, g.entry);
    lemma_landing(vectors, g, q);
    let from = descend(vectors, q, g.layers, g.top, 0, start);
    assert(points_below(g.layers[0], n));
    let p = start_probe(vectors.len(), from);
    assert(p.found.contains(p.found[0]));
    lemma_run_probe_ok(vectors, q, g.layers[0], p);
}

proof fn lemma_descend_below(
    vectors: Vectors,
    q: Seq<i8>,
    layers: Seq<Layer>,
    n: int,
    cur: int,
    to: int,
    from: Hit,
)
    requires
        forall|l: int| 0 <= l < layers.len() ==> points_below(#[trigger] layers[l], n),
        cur < layers.len(),
        from.1 < n,
    ensures
        descend(vectors, q, layers, cur, to, from).1 < n,
    decreases cur,
{
    if cur > to && cur > 0 {
        assert(points_below(layers[cur], n));
        lemma_greedy_below(vectors, q, layers[cur], n, from);
        lemma_descend_below(
            vectors,
            q,
            layers,
            n,
            cur - 1,
            to,
            greedy(vectors, q, layers[cur], from),
        );
    }
}

proof fn lemma_descend_distance(
    vectors: Vectors,
    q: Seq<i8>,
    layers: Seq<Layer>,
    cur: int,
    to: int,
    from: Hit,
)
    requires
        from == hit(vectors, q, from.1),
    ensures
        ({
            let end = descend(vectors, q, layers, cur, to, from);
            &&& end == hit(vectors, q, end.1)
            &&& end.0 <= from.0
        }),
    decreases cur,
{
    if cur > to && cur > 0 {
        lemma_greedy_distance(vectors, q, layers[cur], from);
        lemma_descend_distance(vectors, q, layers, cur - 1, to, greedy(vectors, q, layers[cur], from));
    }
}

/// The result of a search is ascending by distance; each pair in it is a visited node
/// with its true distance or a filler; and no visited node that is left out is nearer than one in it.
pub proof fn law_search_result(vectors: Vectors, g: Graph, q: Seq<i8>)
    requires
        g.walkable(vectors.len() as int),
    ensures
        ({
            let r = searched(vectors, g, q);
            let visited = probed(vectors, g, q).visited;
            &&& r.len() == TOP_K
            &&& forall|i: int, j: int| 0 <= i <= j < TOP_K ==> (#[trigger] r[i]).0 <= (#[trigger] r[j]).0
            &&& forall|i: int|
                0 <= i < TOP_K ==> (#[trigger] r[i]) == (u32::MAX, u32::MAX) || (r[i].1 < vectors.len()
                    && visited[r[i].1 as int] != 0 && r[i] == hit(vectors, q, r[i].1))
            &&& forall|i: int, j: int|
                0 <= i < j < TOP_K && (#[trigger] r[i]) == (#[trigger] r[j]) ==> r[i] == (
                u32::MAX,
                u32::MAX)
            &&& forall|id: u32, i: int|
                id < vectors.len() && #[trigger] visited[id as int] != 0 && 0 <= i < TOP_K
                    && !r.contains(hit(vectors, q, id)) ==> (#[trigger] r[i]).0 <= hit(vectors, q, id).0
        }),
{
    broadcast use vstd::seq_lib::group_to_multiset_ensures;

    let p = probed(vectors, g, q);
    let key = first_u32();
    let sorted = stable_sort(p.found, key);
    let r = searched(vectors, g, q);
    law_search_keeps_nearest(vectors, g, q);
    law_stable_sort(p.found, key);
    p.found.lemma_multiset_has_no_duplicates();
    sorted.lemma_multiset_has_no_duplicates_conv();
    assert forall|i: int| 0 <= i < sorted.len() implies p.found.contains(#[trigger] sorted[i]) by {
        assert(sorted.contains(sorted[i]));
        assert(sorted.to_multiset().count(sorted[i]) > 0);
    }
    assert forall|i: int, j: int| 0 <= i <= j < TOP_K implies (#[trigger] r[i]).0 <= (
    #[trigger] r[j]).0 by {
        if j < sorted.len() {
            assert(key(sorted[i]) <= key(sorted[j]));
        }
    }
    assert forall|i: int| 0 <= i < TOP_K implies (#[trigger] r[i]) == (u32::MAX, u32::MAX) || (r[i].1
        < vectors.len() && p.visited[r[i].1 as int] != 0 && r[i] == hit(vectors, q, r[i].1)) by {
        if i < sorted.len() {
            assert(p.found.contains(sorted[i]));
        }
    }
    assert forall|id: u32, i: int|
        id < vectors.len() && #[trigger] p.visited[id as int] != 0 && 0 <= i < TOP_K && !r.contains(
            hit(vectors, q, id),
        ) implies (#[trigger] r[i]).0 <= hit(vectors, q, id).0 by {
        let y = hit(vectors, q, id);
        if p.found.contains(y) {
            assert(p.found.to_multiset().count(y) > 0);
            assert(sorted.contains(y));
            let k = choose|k: int| 0 <= k < sorted.len() && sorted[k] == y;
            if k < TOP_K {
                assert(r[k] == y);
            }
            assert(i < sorted.len());
            assert(key(sorted[i]) <= key(sorted[k]));
        } else {
            assert(p.found.len() == EF_SEARCH);
            assert(i < sorted.len());
            assert(p.found.contains(sorted[i]));
            let m = choose|m: int| 0 <= m < p.found.len() && p.found[m] == sorted[i];
            law_root_is_extreme(true, p.found, m);
        }
    }
}

} // verus!
