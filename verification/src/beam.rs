//! Walking a layer of the graph towards a query vector.
use crate::consts::{HNSW_M0, HNSW_SENTINEL, VECTOR_DIM};
use crate::distance::{l2_spec, l2_squared_scalar, lemma_l2_prefix_bounds};
use crate::layer::{base_layer, lemma_live_end, live_end, neighbours_in, Layer, UpperEditable};
use crate::sort::put;
use crate::topk::{
    accepts, by_distance, far_first, law_taken_keeps_order, lemma_position_from, taken, worst, Frontier,
    Hit, TopK,
};
use vstd::prelude::*;
use vstd::slice::slice_subrange;

verus! {

/// The indexed vectors.
pub type Vectors = Seq<[i8; VECTOR_DIM]>;

/// Squared distance of `q` to node `n`.
pub open spec fn to_query(vectors: Vectors, q: Seq<i8>, n: u32) -> u32 {
    l2_spec(q, vectors[n as int]@) as u32
}

/// Squared distance of nodes `a` and `b`.
pub open spec fn between(vectors: Vectors, a: u32, b: u32) -> u32 {
    to_query(vectors, vectors[a as int]@, b)
}

/// Squared distance of nodes `a` and `b`.
pub fn dist(vectors: &[[i8; VECTOR_DIM]], a: u32, b: u32) -> (d: u32)
    requires
        a < vectors.len(),
        b < vectors.len(),
    ensures
        d == between(vectors@, a, b),
        d == l2_spec(vectors@[a as int]@, vectors@[b as int]@),
{
    dist_to_q(vectors, &vectors[a as usize], b)
}

/// Squared distance of `q` to node `n`.
pub fn dist_to_q(vectors: &[[i8; VECTOR_DIM]], q: &[i8; VECTOR_DIM], n: u32) -> (d: u32)
    requires
        n < vectors.len(),
    ensures
        d == to_query(vectors@, q@, n),
        d == l2_spec(q@, vectors@[n as int]@),
{
    let v: &[i8; VECTOR_DIM] = &vectors[n as usize];
    proof {
        lemma_l2_prefix_bounds(q@, v@, VECTOR_DIM as int);
    }
    l2_squared_scalar(q, v) as u32
}

/// Every id of the layer is below `n`, and every neighbour is in the layer.
pub open spec fn closed(layer: Layer, n: int) -> bool {
    &&& forall|id: u32| #[trigger] layer.contains_key(id) ==> (id as int) < n
    &&& forall|id: u32, k: int|
        layer.contains_key(id) && 0 <= k < neighbours_in(layer, id).len() ==> layer.contains_key(
            #[trigger] neighbours_in(layer, id)[k],
        )
}

/// Every neighbour of every node of the layer is an id below `n`.
pub open spec fn points_below(layer: Layer, n: int) -> bool {
    forall|id: u32, k: int|
        layer.contains_key(id) && 0 <= k < neighbours_in(layer, id).len() ==> (
        #[trigger] neighbours_in(layer, id)[k]) < n
}

/// The neighbours in a closed layer are ids below `n`.
pub proof fn law_closed_points_below(layer: Layer, n: int)
    requires
        closed(layer, n),
    ensures
        points_below(layer, n),
{
    assert forall|id: u32, k: int|
        layer.contains_key(id) && 0 <= k < neighbours_in(layer, id).len() implies (
    #[trigger] neighbours_in(layer, id)[k]) < n by {
        assert(layer.contains_key(neighbours_in(layer, id)[k]));
    }
}

/// The first node of `ids` that is nearest to `q`, if it is nearer than `from`; else `from`.
pub open spec fn nearest_in(vectors: Vectors, q: Seq<i8>, ids: Seq<u32>, from: Hit) -> Hit
    decreases ids.len(),
{
    if ids.len() == 0 {
        from
    } else {
        let so_far = nearest_in(vectors, q, ids.drop_last(), from);
        if to_query(vectors, q, ids.last()) < so_far.0 {
            (to_query(vectors, q, ids.last()), ids.last())
        } else {
            so_far
        }
    }
}

/// Where a greedy walk from `from` ends: at a node none of whose neighbours is nearer to `q`.
pub open spec fn greedy(vectors: Vectors, q: Seq<i8>, layer: Layer, from: Hit) -> Hit
    decreases from.0,
{
    let next = nearest_in(vectors, q, neighbours_in(layer, from.1), from);
    if next.0 < from.0 {
        greedy(vectors, q, layer, next)
    } else {
        from
    }
}

/// A greedy walk never ends farther away, and ends at a local minimum.
pub proof fn law_greedy_ends_at_local_minimum(vectors: Vectors, q: Seq<i8>, layer: Layer, from: Hit)
    ensures
        ({
            let end = greedy(vectors, q, layer, from);
            &&& end.0 <= from.0
            &&& forall|k: int|
                0 <= k < neighbours_in(layer, end.1).len() ==> to_query(
                    vectors,
                    q,
                    #[trigger] neighbours_in(layer, end.1)[k],
                ) >= end.0
        }),
    decreases from.0,
{
    let ids = neighbours_in(layer, from.1);
    let next = nearest_in(vectors, q, ids, from);
    lemma_nearest_in(vectors, q, ids, from);
    if next.0 < from.0 {
        law_greedy_ends_at_local_minimum(vectors, q, layer, next);
    }
}

pub proof fn lemma_nearest_in(vectors: Vectors, q: Seq<i8>, ids: Seq<u32>, from: Hit)
    ensures
        nearest_in(vectors, q, ids, from).0 <= from.0,
        nearest_in(vectors, q, ids, from).0 == from.0 ==> nearest_in(vectors, q, ids, from) == from,
        forall|k: int|
            0 <= k < ids.len() ==> to_query(vectors, q, #[trigger] ids[k]) >= nearest_in(
                vectors,
                q,
                ids,
                from,
            ).0,
    decreases ids.len(),
{
    if ids.len() > 0 {
        lemma_nearest_in(vectors, q, ids.drop_last(), from);
        assert forall|k: int| 0 <= k < ids.len() implies to_query(vectors, q, #[trigger] ids[k])
            >= nearest_in(vectors, q, ids, from).0 by {
            if k < ids.len() - 1 {
                assert(ids.drop_last()[k] == ids[k]);
            }
        }
    }
}

proof fn lemma_nearest_in_none(vectors: Vectors, q: Seq<i8>, ids: Seq<u32>, from: Hit)
    requires
        forall|k: int| 0 <= k < ids.len() ==> to_query(vectors, q, #[trigger] ids[k]) >= from.0,
    ensures
        nearest_in(vectors, q, ids, from) == from,
    decreases ids.len(),
{
    if ids.len() > 0 {
        let front = ids.drop_last();
        assert forall|k: int| 0 <= k < front.len() implies to_query(vectors, q, #[trigger] front[k])
            >= from.0 by {
            assert(to_query(vectors, q, ids[k]) >= from.0);
        }
        lemma_nearest_in_none(vectors, q, front, from);
        assert(ids[ids.len() - 1] == ids.last());
    }
}

/// Node `id` with its distance to the query.
pub open spec fn hit(vectors: Vectors, q: Seq<i8>, id: u32) -> Hit {
    (to_query(vectors, q, id), id)
}

pub proof fn lemma_greedy_distance(vectors: Vectors, q: Seq<i8>, layer: Layer, from: Hit)
    requires
        from == hit(vectors, q, from.1),
    ensures
        ({
            let end = greedy(vectors, q, layer, from);
            &&& end == hit(vectors, q, end.1)
            &&& end.0 <= from.0
        }),
    decreases from.0,
{
    let ids = neighbours_in(layer, from.1);
    let next = nearest_in(vectors, q, ids, from);
    lemma_nearest_distance(vectors, q, ids, from);
    if next.0 < from.0 {
        lemma_greedy_distance(vectors, q, layer, next);
    }
}

proof fn lemma_nearest_distance(vectors: Vectors, q: Seq<i8>, ids: Seq<u32>, from: Hit)
    requires
        from == hit(vectors, q, from.1),
    ensures
        nearest_in(vectors, q, ids, from) == hit(vectors, q, nearest_in(vectors, q, ids, from).1),
    decreases ids.len(),
{
    if ids.len() > 0 {
        lemma_nearest_distance(vectors, q, ids.drop_last(), from);
    }
}

/// A greedy walk stays below `n`.
pub proof fn lemma_greedy_below(vectors: Vectors, q: Seq<i8>, layer: Layer, n: int, from: Hit)
    requires
        points_below(layer, n),
        from.1 < n,
    ensures
        greedy(vectors, q, layer, from).1 < n,
    decreases from.0,
{
    let ids = neighbours_in(layer, from.1);
    let next = nearest_in(vectors, q, ids, from);
    lemma_nearest_in_member(vectors, q, ids, from);
    if next.0 < from.0 {
        let k = choose|k: int| 0 <= k < ids.len() && ids[k] == next.1;
        assert(neighbours_in(layer, from.1)[k] < n);
        lemma_greedy_below(vectors, q, layer, n, next);
    }
}

/// A layer to walk in.
pub enum LayerRef<'a> {
    /// The base layer: `n` rows in a flat table.
    Base(&'a [u32], usize),
    /// A layer above.
    Upper(&'a UpperEditable),
}

impl<'a> View for LayerRef<'a> {
    type V = Layer;

    open spec fn view(&self) -> Layer {
        match self {
            LayerRef::Base(flat, n) => base_layer(flat@, *n as int),
            LayerRef::Upper(u) => u@,
        }
    }
}

impl<'a> LayerRef<'a> {
    pub open spec fn wf(&self, n: int) -> bool {
        match self {
            LayerRef::Base(flat, rows) => *rows == n && flat.len() == n * HNSW_M0,
            LayerRef::Upper(u) => u.wf() && u.pos@.len() == n,
        }
    }

    /// The row of `id`.
    fn neighbors(&self, id: u32, Ghost(n): Ghost<int>) -> (row: Option<&[u32]>)
        requires
            self.wf(n),
            id < n,
        ensures
            row is Some <==> self@.contains_key(id),
            row is Some ==> row.unwrap()@ == self@[id],
    {
        match self {
            LayerRef::Base(flat, rows) => {
                assert(id * HNSW_M0 + HNSW_M0 <= flat.len());
                let start: usize = id as usize * HNSW_M0;
                Some(slice_subrange(flat, start, start + HNSW_M0))
            },
            LayerRef::Upper(u) => u.neighbors(id),
        }
    }
}

proof fn lemma_greedy_end(vectors: Vectors, q: Seq<i8>, layer: Layer, n: int, from: Hit)
    requires
        points_below(layer, n),
        from.1 < n,
    ensures
        ({
            let end = greedy(vectors, q, layer, from);
            let ids = neighbours_in(layer, from.1);
            &&& end.1 < n
            &&& end.0 <= from.0
            &&& from.0 == to_query(vectors, q, from.1) ==> end.0 == to_query(vectors, q, end.1)
            &&& forall|k: int|
                0 <= k < neighbours_in(layer, end.1).len() ==> to_query(
                    vectors,
                    q,
                    #[trigger] neighbours_in(layer, end.1)[k],
                ) >= end.0
            &&& (forall|k: int|
                0 <= k < ids.len() ==> to_query(vectors, q, #[trigger] ids[k]) >= from.0) ==> end
                == from
            &&& layer.contains_key(from.1) && closed(layer, n) ==> layer.contains_key(end.1)
        }),
{
    let ids = neighbours_in(layer, from.1);
    law_greedy_ends_at_local_minimum(vectors, q, layer, from);
    lemma_greedy_below(vectors, q, layer, n, from);
    if layer.contains_key(from.1) && closed(layer, n) {
        law_greedy_stays_in_layer(vectors, q, layer, n, from);
    }
    if from.0 == to_query(vectors, q, from.1) {
        lemma_greedy_distance(vectors, q, layer, from);
    }
    if forall|k: int| 0 <= k < ids.len() ==> to_query(vectors, q, #[trigger] ids[k]) >= from.0 {
        lemma_nearest_in_none(vectors, q, ids, from);
    }
}

/// Walks from `ep` to ever nearer neighbours until none is nearer. A node that is not in the layer has no
/// neighbours.
pub fn greedy_descend(
    vectors: &[[i8; VECTOR_DIM]],
    q: &[i8; VECTOR_DIM],
    ep: u32,
    ep_dist: u32,
    layer: &UpperEditable,
) -> (end: (u32, u32))
    requires
        layer.wf(),
        layer.pos@.len() == vectors.len(),
        points_below(layer@, vectors.len() as int),
        ep < vectors.len(),
    ensures
        (end.1, end.0) == greedy(vectors@, q@, layer@, (ep_dist, ep)),
        end.0 < vectors.len(),
        end.1 <= ep_dist,
        ep_dist == to_query(vectors@, q@, ep) ==> end.1 == to_query(vectors@, q@, end.0),
        forall|k: int|
            0 <= k < neighbours_in(layer@, end.0).len() ==> to_query(
                vectors@,
                q@,
                #[trigger] neighbours_in(layer@, end.0)[k],
            ) >= end.1,
        !layer@.contains_key(ep) ==> end == (ep, ep_dist),
        (forall|k: int|
            0 <= k < neighbours_in(layer@, ep).len() ==> to_query(
                vectors@,
                q@,
                #[trigger] neighbours_in(layer@, ep)[k],
            ) >= ep_dist) ==> end == (ep, ep_dist),
        layer@.contains_key(ep) && closed(layer@, vectors.len() as int) ==> layer@.contains_key(
            end.0,
        ),
{
    let mut at: u32 = ep;
    let mut at_dist: u32 = ep_dist;
    let ghost goal = greedy(vectors@, q@, layer@, (ep_dist, ep));
    loop
        invariant
            layer.wf(),
            layer.pos@.len() == vectors.len(),
            points_below(layer@, vectors.len() as int),
            ep < vectors.len(),
            at < vectors.len(),
            goal == greedy(vectors@, q@, layer@, (ep_dist, ep)),
            goal == greedy(vectors@, q@, layer@, (at_dist, at)),
        decreases at_dist,
    {
        let ghost from = (at_dist, at);
        let ghost ids = neighbours_in(layer@, at);
        let start: u32 = at_dist;
        let found: Option<&[u32]> = layer.neighbors(at);
        if let Some(row) = found {
            let mut k: usize = 0;
            proof {
                lemma_live_end(row@, 0);
                assert(ids.take(0) =~= Seq::empty());
            }
            while k < row.len() && row[k] != HNSW_SENTINEL
                invariant
                    layer.pos@.len() == vectors.len(),
                    points_below(layer@, vectors.len() as int),
                    layer@.contains_key(from.1),
                    at < vectors.len(),
                    row@ == layer@[from.1],
                    ids == neighbours_in(layer@, from.1),
                    k <= row.len(),
                    live_end(row@, 0) == live_end(row@, k as int),
                    k <= live_end(row@, 0) <= row.len(),
                    (at_dist, at) == nearest_in(vectors@, q@, ids.take(k as int), from),
                decreases row.len() - k,
            {
                let n: u32 = row[k];
                proof {
                    lemma_live_end(row@, k + 1);
                    assert(ids[k as int] == n);
                    assert(neighbours_in(layer@, from.1)[k as int] < vectors.len());
                    assert(ids.take(k + 1).drop_last() =~= ids.take(k as int));
                }
                let d: u32 = dist_to_q(vectors, q, n);
                if d < at_dist {
                    at_dist = d;
                    at = n;
                }
                k = k + 1;
            }
            assert(ids.take(k as int) =~= ids);
        }
        proof {
            lemma_nearest_in(vectors@, q@, ids, from);
        }
        if at_dist >= start {
            proof {
                lemma_greedy_end(vectors@, q@, layer@, vectors.len() as int, (ep_dist, ep));
            }
            return (at, at_dist);
        }
    }
}

/// The state of a beam search: candidates to expand (nearest last), nearest nodes found (nearest
/// first), visited marks, and the visited ids in order.
#[verifier::ext_equal]
pub struct Beam {
    pub queue: Seq<Hit>,
    pub found: Seq<Hit>,
    pub visited: Seq<u8>,
    pub log: Seq<u32>,
}

/// Looking at node `n`: if it was not visited, mark it, and if it is near enough, keep it and queue it.
pub open spec fn consider(vectors: Vectors, q: Seq<i8>, ef: int, b: Beam, n: u32) -> Beam {
    if n >= b.visited.len() || b.visited[n as int] != 0 {
        b
    } else {
        let d = to_query(vectors, q, n);
        let visited = b.visited.update(n as int, 1);
        let log = b.log.push(n);
        if (d < worst(b.found) || b.found.len() < ef) && accepts(b.found, ef, d) {
            Beam {
                queue: put(b.queue, far_first(), (d, n)),
                found: taken(b.found, ef, (d, n)),
                visited,
                log,
            }
        } else {
            Beam { queue: b.queue, found: b.found, visited, log }
        }
    }
}

/// Looking at the nodes `ids` in order.
pub open spec fn expand(vectors: Vectors, q: Seq<i8>, ef: int, b: Beam, ids: Seq<u32>) -> Beam
    decreases ids.len(),
{
    if ids.len() == 0 {
        b
    } else {
        consider(vectors, q, ef, expand(vectors, q, ef, b, ids.drop_last()), ids.last())
    }
}

/// Number of nodes that are not visited.
pub open spec fn unseen(visited: Seq<u8>) -> nat
    decreases visited.len(),
{
    if visited.len() == 0 {
        0
    } else {
        unseen(visited.drop_last()) + if visited.last() == 0 {
            1nat
        } else {
            0nat
        }
    }
}

pub proof fn lemma_unseen_mark(visited: Seq<u8>, i: int)
    requires
        0 <= i < visited.len(),
        visited[i] == 0,
    ensures
        unseen(visited.update(i, 1)) == unseen(visited) - 1,
    decreases visited.len(),
{
    let after = visited.update(i, 1);
    if i == visited.len() - 1 {
        assert(after.drop_last() =~= visited.drop_last());
    } else {
        lemma_unseen_mark(visited.drop_last(), i);
        assert(after.drop_last() =~= visited.drop_last().update(i, 1));
    }
}

proof fn lemma_consider_measure(vectors: Vectors, q: Seq<i8>, ef: int, b: Beam, n: u32)
    ensures
        ({
            let c = consider(vectors, q, ef, b, n);
            unseen(c.visited) + c.queue.len() <= unseen(b.visited) + b.queue.len()
        }),
{
    if n < b.visited.len() && b.visited[n as int] == 0 {
        lemma_unseen_mark(b.visited, n as int);
        crate::sort::lemma_put_len(b.queue, far_first(), (to_query(vectors, q, n), n));
    }
}

pub proof fn lemma_expand_measure(vectors: Vectors, q: Seq<i8>, ef: int, b: Beam, ids: Seq<u32>)
    ensures
        ({
            let c = expand(vectors, q, ef, b, ids);
            unseen(c.visited) + c.queue.len() <= unseen(b.visited) + b.queue.len()
        }),
    decreases ids.len(),
{
    if ids.len() > 0 {
        lemma_expand_measure(vectors, q, ef, b, ids.drop_last());
        lemma_consider_measure(
            vectors,
            q,
            ef,
            expand(vectors, q, ef, b, ids.drop_last()),
            ids.last(),
        );
    }
}

/// `b` with its nearest candidate taken.
pub open spec fn popped(b: Beam) -> Beam {
    Beam { queue: b.queue.drop_last(), found: b.found, visited: b.visited, log: b.log }
}

/// Whether the nearest candidate is too far to be worth expanding.
pub open spec fn exhausted(b: Beam, ef: int) -> bool {
    b.queue.last().0 > worst(b.found) && b.found.len() >= ef
}

/// Expanding candidates, nearest first, until none is left or the next one is too far.
pub open spec fn run_beam(vectors: Vectors, q: Seq<i8>, layer: Layer, ef: int, b: Beam) -> Beam
    decreases unseen(b.visited) + b.queue.len(),
{
    if b.queue.len() == 0 {
        b
    } else if exhausted(b, ef) {
        popped(b)
    } else {
        proof {
            lemma_expand_measure(
                vectors,
                q,
                ef,
                popped(b),
                neighbours_in(layer, b.queue.last().1),
            );
        }
        run_beam(
            vectors,
            q,
            layer,
            ef,
            expand(vectors, q, ef, popped(b), neighbours_in(layer, b.queue.last().1)),
        )
    }
}

/// A beam search about to start at `from`.
pub open spec fn start_beam(visited: Seq<u8>, log: Seq<u32>, ef: int, from: Hit) -> Beam {
    Beam {
        queue: put(Seq::empty(), far_first(), from),
        found: if accepts(Seq::empty(), ef, from.0) {
            taken(Seq::empty(), ef, from)
        } else {
            Seq::empty()
        },
        visited: visited.update(from.1 as int, 1),
        log: log.push(from.1),
    }
}

/// Every id in `hits` is in the layer.
pub open spec fn all_in(hits: Seq<Hit>, layer: Layer) -> bool {
    forall|k: int| 0 <= k < hits.len() ==> layer.contains_key((#[trigger] hits[k]).1)
}

/// The ids below `n`, without neighbours.
pub open spec fn all_below(n: int) -> Layer {
    Map::new(|id: u32| (id as int) < n, |id: u32| Seq::empty())
}

pub proof fn lemma_taken_in(items: Seq<Hit>, cap: int, item: Hit, layer: Layer)
    requires
        all_in(items, layer),
        layer.contains_key(item.1),
    ensures
        all_in(taken(items, cap, item), layer),
{
    lemma_position_from(items, item.0, 0);
}

pub proof fn lemma_put_in(items: Seq<Hit>, item: Hit, layer: Layer)
    requires
        all_in(items, layer),
        layer.contains_key(item.1),
    ensures
        all_in(put(items, far_first(), item), layer),
{
    crate::sort::lemma_place(items, far_first(), far_first()(item), items.len() as int);
}

/// A beam search in a closed layer keeps to the nodes of the layer.
pub proof fn law_beam_stays_in_layer(
    vectors: Vectors,
    q: Seq<i8>,
    layer: Layer,
    n: int,
    ef: int,
    b: Beam,
)
    requires
        closed(layer, n),
        all_in(b.queue, layer),
        all_in(b.found, layer),
    ensures
        all_in(run_beam(vectors, q, layer, ef, b).found, layer),
    decreases unseen(b.visited) + b.queue.len(),
{
    if b.queue.len() > 0 && !exhausted(b, ef) {
        let c = b.queue.last().1;
        assert(layer.contains_key(b.queue[b.queue.len() - 1].1));
        let ids = neighbours_in(layer, c);
        let from = popped(b);
        assert(all_in(from.queue, layer)) by {
            assert forall|k: int| 0 <= k < from.queue.len() implies layer.contains_key(
                (#[trigger] from.queue[k]).1,
            ) by {
                assert(from.queue[k] == b.queue[k]);
            }
        }
        lemma_expand_measure(vectors, q, ef, from, ids);
        lemma_expand_in(vectors, q, layer, ef, from, ids);
        law_beam_stays_in_layer(vectors, q, layer, n, ef, expand(vectors, q, ef, from, ids));
    }
}

proof fn lemma_expand_in(
    vectors: Vectors,
    q: Seq<i8>,
    layer: Layer,
    ef: int,
    b: Beam,
    ids: Seq<u32>,
)
    requires
        all_in(b.queue, layer),
        all_in(b.found, layer),
        forall|k: int| 0 <= k < ids.len() ==> layer.contains_key(#[trigger] ids[k]),
    ensures
        all_in(expand(vectors, q, ef, b, ids).queue, layer),
        all_in(expand(vectors, q, ef, b, ids).found, layer),
    decreases ids.len(),
{
    if ids.len() > 0 {
        let front = ids.drop_last();
        assert forall|k: int| 0 <= k < front.len() implies layer.contains_key(
            #[trigger] front[k],
        ) by {
            assert(layer.contains_key(ids[k]));
        }
        lemma_expand_in(vectors, q, layer, ef, b, front);
        let m = expand(vectors, q, ef, b, front);
        let n = ids[ids.len() - 1];
        let d = to_query(vectors, q, n);
        lemma_put_in(m.queue, (d, n), layer);
        lemma_taken_in(m.found, ef, (d, n), layer);
    }
}

/// A greedy walk in a closed layer ends at a node of the layer.
pub proof fn law_greedy_stays_in_layer(
    vectors: Vectors,
    q: Seq<i8>,
    layer: Layer,
    n: int,
    from: Hit,
)
    requires
        closed(layer, n),
        layer.contains_key(from.1),
    ensures
        layer.contains_key(greedy(vectors, q, layer, from).1),
    decreases from.0,
{
    let ids = neighbours_in(layer, from.1);
    let next = nearest_in(vectors, q, ids, from);
    lemma_nearest_in_member(vectors, q, ids, from);
    if next.0 < from.0 {
        if ids.contains(next.1) {
            let k = choose|k: int| 0 <= k < ids.len() && ids[k] == next.1;
            assert(layer.contains_key(neighbours_in(layer, from.1)[k]));
        }
        law_greedy_stays_in_layer(vectors, q, layer, n, next);
    }
}

pub proof fn lemma_nearest_in_member(vectors: Vectors, q: Seq<i8>, ids: Seq<u32>, from: Hit)
    ensures
        nearest_in(vectors, q, ids, from) == from || ids.contains(
            nearest_in(vectors, q, ids, from).1,
        ),
    decreases ids.len(),
{
    if ids.len() > 0 {
        let front = ids.drop_last();
        lemma_nearest_in_member(vectors, q, front, from);
        let so_far = nearest_in(vectors, q, front, from);
        if front.contains(so_far.1) {
            let k = choose|k: int| 0 <= k < front.len() && front[k] == so_far.1;
            assert(ids[k] == so_far.1);
        }
        assert(ids[ids.len() - 1] == ids.last());
    }
}

/// Whether id `i` is in the log.
pub open spec fn logged(log: Seq<u32>, i: int) -> bool {
    exists|k: int| 0 <= k < log.len() && #[trigger] log[k] == i
}

/// The marks and their log belong together: every mark is of a logged id.
pub open spec fn marks_logged(visited: Seq<u8>, log: Seq<u32>) -> bool {
    &&& forall|k: int| 0 <= k < log.len() ==> (#[trigger] log[k]) < visited.len()
    &&& forall|i: int| 0 <= i < visited.len() && #[trigger] visited[i] != 0 ==> logged(log, i)
}

proof fn lemma_mark_logged(visited: Seq<u8>, log: Seq<u32>, n: u32)
    requires
        marks_logged(visited, log),
        n < visited.len(),
    ensures
        marks_logged(visited.update(n as int, 1), log.push(n)),
{
    let v = visited.update(n as int, 1);
    let l = log.push(n);
    assert(l[log.len() as int] == n);
    assert forall|i: int| 0 <= i < v.len() && #[trigger] v[i] != 0 implies logged(l, i) by {
        if i != n {
            assert(visited[i] != 0);
            let k = choose|k: int| 0 <= k < log.len() && #[trigger] log[k] == i;
            assert(l[k] == i);
        }
    }
}

/// Beam search in `layer` for the `ef` nodes nearest to `q`, from node `ep`. Returns them ascending by
/// distance.
pub fn beam_search(
    vectors: &[[i8; VECTOR_DIM]],
    q: &[i8; VECTOR_DIM],
    ep: u32,
    ep_dist: u32,
    ef: usize,
    layer: &LayerRef,
    visited: &mut Vec<u8>,
    visited_log: &mut Vec<u32>,
) -> (hits: Vec<Hit>)
    requires
        layer.wf(vectors.len() as int),
        points_below(layer@, vectors.len() as int),
        ep < vectors.len(),
        old(visited)@.len() == vectors.len(),
    ensures
        ({
            let b = run_beam(
                vectors@,
                q@,
                layer@,
                ef as int,
                start_beam(old(visited)@, old(visited_log)@, ef as int, (ep_dist, ep)),
            );
            &&& hits@ == b.found
            &&& final(visited)@ == b.visited
            &&& final(visited_log)@ == b.log
        }),
        final(visited)@.len() == vectors.len(),
        marks_logged(old(visited)@, old(visited_log)@) ==> marks_logged(
            final(visited)@,
            final(visited_log)@,
        ),
        forall|k: int| 0 <= k < hits@.len() ==> (#[trigger] hits@[k]).1 < vectors.len(),
        layer@.contains_key(ep) && closed(layer@, vectors.len() as int) ==> all_in(hits@, layer@),
        by_distance(hits@),
        hits@.len() <= ef,
        ef > 0 && ep_dist < u32::MAX ==> hits@.len() > 0,
{
    let ghost n = vectors.len() as int;
    let ghost known = all_below(n);
    let ghost in_step = marks_logged(visited@, visited_log@);
    let ghost goal = run_beam(
        vectors@,
        q@,
        layer@,
        ef as int,
        start_beam(visited@, visited_log@, ef as int, (ep_dist, ep)),
    );
    proof {
        if in_step {
            lemma_mark_logged(visited@, visited_log@, ep);
        }
        lemma_put_in(Seq::empty(), (ep_dist, ep), known);
        lemma_taken_in(Seq::empty(), ef as int, (ep_dist, ep), known);
        if layer@.contains_key(ep) && closed(layer@, n) {
            lemma_put_in(Seq::empty(), (ep_dist, ep), layer@);
            lemma_taken_in(Seq::empty(), ef as int, (ep_dist, ep), layer@);
            law_beam_stays_in_layer(
                vectors@,
                q@,
                layer@,
                n,
                ef as int,
                start_beam(visited@, visited_log@, ef as int, (ep_dist, ep)),
            );
        }
    }
    visited[ep as usize] = 1;
    visited_log.push(ep);
    let mut cands: Frontier = Frontier::new();
    cands.push((ep_dist, ep));
    let mut found: TopK = TopK::new(ef);
    found.try_insert((ep_dist, ep));
    loop
        invariant_except_break
            goal == run_beam(
                vectors@,
                q@,
                layer@,
                ef as int,
                Beam {
                    queue: cands.items@,
                    found: found.items@,
                    visited: visited@,
                    log: visited_log@,
                },
            ),
        invariant
            n == vectors.len(),
            known == all_below(n),
            layer.wf(n),
            points_below(layer@, n),
            visited@.len() == n,
            in_step ==> marks_logged(visited@, visited_log@),
            cands.wf(),
            found.wf(),
            found.cap == ef,
            all_in(cands.items@, known),
            all_in(found.items@, known),
            ef > 0 && ep_dist < u32::MAX ==> found.items@.len() > 0,
        ensures
            goal.found == found.items@,
            goal.visited == visited@,
            goal.log == visited_log@,
        decreases unseen(visited@) + cands.items@.len(),
    {
        let ghost b = Beam {
            queue: cands.items@,
            found: found.items@,
            visited: visited@,
            log: visited_log@,
        };
        let top: Option<Hit> = cands.pop();
        match top {
            None => {
                break;
            },
            Some((d_c, c)) => {
                assert(b.queue.last() == (d_c, c));
                if d_c > found.worst_dist() && found.len() >= ef {
                    break;
                }
                assert(known.contains_key(b.queue[b.queue.len() - 1].1));
                let ghost ids = neighbours_in(layer@, c);
                let ghost from = popped(b);
                proof {
                    lemma_expand_measure(vectors@, q@, ef as int, from, ids);
                    assert(all_in(cands.items@, known)) by {
                        assert forall|k: int| 0 <= k < cands.items@.len() implies known.contains_key(
                            (#[trigger] cands.items@[k]).1,
                        ) by {
                            assert(b.queue[k] == cands.items@[k]);
                        }
                    }
                }
                if let Some(row) = layer.neighbors(c, Ghost(n)) {
                    let mut k: usize = 0;
                    proof {
                        lemma_live_end(row@, 0);
                        assert(ids.take(0) =~= Seq::empty());
                    }
                    while k < row.len() && row[k] != HNSW_SENTINEL
                        invariant
                            n == vectors.len(),
                            known == all_below(n),
                            points_below(layer@, n),
                            layer@.contains_key(c),
                            row@ == layer@[c],
                            ids == neighbours_in(layer@, c),
                            k <= row.len(),
                            live_end(row@, 0) == live_end(row@, k as int),
                            k <= live_end(row@, 0) <= row.len(),
                            visited@.len() == n,
                            in_step ==> marks_logged(visited@, visited_log@),
                            cands.wf(),
                            found.wf(),
                            found.cap == ef,
                            all_in(cands.items@, known),
                            all_in(found.items@, known),
                            ef > 0 && ep_dist < u32::MAX ==> found.items@.len() > 0,
                            (Beam {
                                queue: cands.items@,
                                found: found.items@,
                                visited: visited@,
                                log: visited_log@,
                            }) == expand(vectors@, q@, ef as int, from, ids.take(k as int)),
                        decreases row.len() - k,
                    {
                        let m: u32 = row[k];
                        proof {
                            lemma_live_end(row@, k + 1);
                            assert(ids[k as int] == m);
                            assert(neighbours_in(layer@, c)[k as int] < n);
                            assert(ids.take(k + 1).drop_last() =~= ids.take(k as int));
                            assert(ids.take(k + 1).last() == m);
                        }
                        if visited[m as usize] == 0 {
                            proof {
                                if in_step {
                                    lemma_mark_logged(visited@, visited_log@, m);
                                }
                            }
                            visited[m as usize] = 1;
                            visited_log.push(m);
                            let d: u32 = dist_to_q(vectors, q, m);
                            if d < found.worst_dist() || found.len() < ef {
                                proof {
                                    lemma_taken_in(found.items@, ef as int, (d, m), known);
                                    lemma_put_in(cands.items@, (d, m), known);
                                    law_taken_keeps_order(found.items@, ef as int, (d, m));
                                    lemma_position_from(found.items@, d, 0);
                                }
                                if found.try_insert((d, m)) {
                                    cands.push((d, m));
                                }
                            }
                        }
                        k = k + 1;
                    }
                    assert(ids.take(k as int) =~= ids);
                }
            },
        }
    }
    found.into_sorted()
}

/// Beam search in a layer above the base.
pub fn beam_search_upper(
    vectors: &[[i8; VECTOR_DIM]],
    q: &[i8; VECTOR_DIM],
    ep: u32,
    ep_dist: u32,
    ef: usize,
    layer: &UpperEditable,
    visited: &mut Vec<u8>,
    visited_log: &mut Vec<u32>,
) -> (hits: Vec<Hit>)
    requires
        layer.wf(),
        layer.pos@.len() == vectors.len(),
        points_below(layer@, vectors.len() as int),
        ep < vectors.len(),
        old(visited)@.len() == vectors.len(),
    ensures
        ({
            let b = run_beam(
                vectors@,
                q@,
                layer@,
                ef as int,
                start_beam(old(visited)@, old(visited_log)@, ef as int, (ep_dist, ep)),
            );
            &&& hits@ == b.found
            &&& final(visited)@ == b.visited
            &&& final(visited_log)@ == b.log
        }),
        final(visited)@.len() == vectors.len(),
        marks_logged(old(visited)@, old(visited_log)@) ==> marks_logged(
            final(visited)@,
            final(visited_log)@,
        ),
        forall|k: int| 0 <= k < hits@.len() ==> (#[trigger] hits@[k]).1 < vectors.len(),
        layer@.contains_key(ep) && closed(layer@, vectors.len() as int) ==> all_in(hits@, layer@),
        by_distance(hits@),
        hits@.len() <= ef,
        ef > 0 && ep_dist < u32::MAX ==> hits@.len() > 0,
{
    beam_search(vectors, q, ep, ep_dist, ef, &LayerRef::Upper(layer), visited, visited_log)
}

/// Beam search in the base layer.
pub fn beam_search_layer0(
    vectors: &[[i8; VECTOR_DIM]],
    q: &[i8; VECTOR_DIM],
    ep: u32,
    ep_dist: u32,
    ef: usize,
    layer0: &[u32],
    visited: &mut Vec<u8>,
    visited_log: &mut Vec<u32>,
) -> (hits: Vec<Hit>)
    requires
        layer0.len() == vectors.len() * HNSW_M0,
        points_below(base_layer(layer0@, vectors.len() as int), vectors.len() as int),
        ep < vectors.len(),
        old(visited)@.len() == vectors.len(),
    ensures
        ({
            let b = run_beam(
                vectors@,
                q@,
                base_layer(layer0@, vectors.len() as int),
                ef as int,
                start_beam(old(visited)@, old(visited_log)@, ef as int, (ep_dist, ep)),
            );
            &&& hits@ == b.found
            &&& final(visited)@ == b.visited
            &&& final(visited_log)@ == b.log
        }),
        final(visited)@.len() == vectors.len(),
        marks_logged(old(visited)@, old(visited_log)@) ==> marks_logged(
            final(visited)@,
            final(visited_log)@,
        ),
        all_in(hits@, base_layer(layer0@, vectors.len() as int)),
        by_distance(hits@),
        hits@.len() <= ef,
        ef > 0 && ep_dist < u32::MAX ==> hits@.len() > 0,
{
    beam_search(
        vectors,
        q,
        ep,
        ep_dist,
        ef,
        &LayerRef::Base(layer0, vectors.len()),
        visited,
        visited_log,
    )
}

/// Removes every logged mark and empties the log.
pub fn clear_visited(visited: &mut Vec<u8>, log: &mut Vec<u32>)
    requires
        forall|k: int| 0 <= k < old(log)@.len() ==> (#[trigger] old(log)@[k]) < old(visited)@.len(),
    ensures
        final(visited)@ == Seq::new(
            old(visited)@.len(),
            |i: int|
                if logged(old(log)@, i) {
                    0u8
                } else {
                    old(visited)@[i]
                },
        ),
        marks_logged(old(visited)@, old(log)@) ==> final(visited)@ == Seq::new(
            old(visited)@.len(),
            |i: int| 0u8,
        ),
        final(log)@ == Seq::<u32>::empty(),
{
    let ghost v0 = visited@;
    let ghost l0 = log@;
    for k in 0..log.len()
        invariant
            log@ == l0,
            forall|k: int| 0 <= k < l0.len() ==> (#[trigger] l0[k]) < v0.len(),
            visited@.len() == v0.len(),
            forall|i: int|
                0 <= i < v0.len() ==> #[trigger] visited@[i] == (if logged(l0.take(k as int), i) {
                    0u8
                } else {
                    v0[i]
                }),
    {
        let id: u32 = log[k];
        assert(l0[k as int] < v0.len());
        let ghost prev = visited@;
        visited[id as usize] = 0;
        proof {
            let a = l0.take(k as int);
            let b = l0.take(k + 1);
            assert forall|i: int| 0 <= i < v0.len() implies #[trigger] visited@[i] == (if logged(
                b,
                i,
            ) {
                0u8
            } else {
                v0[i]
            }) by {
                assert(prev[i] == if logged(a, i) {
                    0u8
                } else {
                    v0[i]
                });
                if i == id {
                    assert(b[k as int] == id);
                } else {
                    if logged(a, i) {
                        let j = choose|j: int| 0 <= j < a.len() && #[trigger] a[j] == i;
                        assert(b[j] == i);
                    }
                    if logged(b, i) {
                        let j = choose|j: int| 0 <= j < b.len() && #[trigger] b[j] == i;
                        assert(a[j] == i);
                    }
                }
            }
        }
    }
    proof {
        assert(l0.take(l0.len() as int) =~= l0);
        assert(visited@ =~= Seq::new(
            v0.len(),
            |i: int|
                if logged(l0, i) {
                    0u8
                } else {
                    v0[i]
                },
        ));
        if marks_logged(v0, l0) {
            assert forall|i: int| 0 <= i < v0.len() implies #[trigger] visited@[i] == 0u8 by {
                if v0[i] != 0 {
                    assert(logged(l0, i));
                }
            }
            assert(visited@ =~= Seq::new(v0.len(), |i: int| 0u8));
        }
    }
    log.clear();
}

} // verus!
