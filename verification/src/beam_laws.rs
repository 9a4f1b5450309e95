//! What a beam search keeps, and where it stops.
use crate::beam::{
    between, consider, exhausted, expand, greedy, hit, law_greedy_ends_at_local_minimum,
    lemma_expand_measure, lemma_greedy_distance, lemma_nearest_in, lemma_nearest_in_member, nearest_in,
    points_below, popped, run_beam, start_beam, to_query, unseen, Beam, Vectors,
};
use crate::distance::{l2_spec, lemma_l2_prefix_bounds};
use crate::hnsw_build::{descend, near, unmarked, BuiltGraph};
use crate::layer::{lemma_live_end, live_end, neighbours_in, Layer};
use crate::sort::{ascending, law_put_ascending, lemma_place, place, put};
use crate::topk::{
    accepts, by_distance, far_first, law_taken_keeps_order, lemma_position_from, position_from, taken,
    worst, Hit,
};
use vstd::prelude::*;

verus! {

proof fn lemma_taken_members(items: Seq<Hit>, cap: int, x: Hit)
    requires
        by_distance(items),
        0 < cap,
        items.len() <= cap,
        items.len() < cap || x.0 < worst(items),
    ensures
        ({
            let r = taken(items, cap, x);
            &&& by_distance(r)
            &&& 0 < r.len() <= cap
            &&& forall|y: Hit| #[trigger] r.contains(y) ==> items.contains(y) || y == x
            &&& forall|y: Hit|
                items.contains(y) || y == x ==> #[trigger] r.contains(y) || (r.len() == cap && y.0
                    >= worst(r))
            &&& items.len() == cap ==> r.len() == cap && worst(r) <= worst(items)
        }),
{
    let p = position_from(items, x.0, 0);
    let all = items.insert(p, x);
    let r = taken(items, cap, x);
    lemma_position_from(items, x.0, 0);
    law_taken_keeps_order(items, cap, x);
    law_taken_keeps_order(items, cap + 1, x);
    assert(taken(items, cap + 1, x) == all);
    assert forall|y: Hit| #[trigger] all.contains(y) <==> items.contains(y) || y == x by {
        if items.contains(y) {
            let i = choose|i: int| 0 <= i < items.len() && items[i] == y;
            if i < p {
                assert(all[i] == y);
            } else {
                assert(all[i + 1] == y);
            }
        }
        assert(all[p] == x);
        if all.contains(y) && y != x {
            let i = choose|i: int| 0 <= i < all.len() && all[i] == y;
            if i < p {
                assert(items[i] == y);
            } else {
                assert(items[i - 1] == y);
            }
        }
    }
    if all.len() > cap {
        let n = items.len() as int;
        assert(p < n) by {
            if p == n {
                assert(items[n - 1].0 < x.0);
            }
        }
        assert(all[n] == items[n - 1]);
        assert(r == all.drop_last());
        assert forall|y: Hit| #[trigger] r.contains(y) implies all.contains(y) by {
            let i = choose|i: int| 0 <= i < r.len() && r[i] == y;
            assert(all[i] == y);
        }
        assert forall|y: Hit| items.contains(y) || y == x implies #[trigger] r.contains(y) || (r.len()
            == cap && y.0 >= worst(r)) by {
            assert(all.contains(y));
            let i = choose|i: int| 0 <= i < all.len() && all[i] == y;
            if i < n {
                assert(r[i] == y);
            } else {
                assert(all[n - 1].0 <= all[n].0);
            }
        }
        assert(all[n - 1].0 <= all[n].0);
    } else {
        assert(r == all);
        assert forall|y: Hit| items.contains(y) || y == x implies #[trigger] r.contains(y) by {
            assert(all.contains(y));
        }
    }
}

/// What holds throughout a beam search: the kept nodes are visited nodes with their distances, ascending, and a
/// visited node that is not kept is no nearer than any kept one, of which there are then `ef`.
spec fn beam_keeps(vectors: Vectors, q: Seq<i8>, ef: int, b: Beam) -> bool {
    &&& b.visited.len() == vectors.len()
    &&& by_distance(b.found)
    &&& 0 < b.found.len() <= ef
    &&& forall|x: Hit| #[trigger] b.found.contains(x) ==> x.1 < vectors.len() && x == hit(vectors, q, x.1)
        && b.visited[x.1 as int] != 0
    &&& forall|id: u32|
        id < vectors.len() && #[trigger] b.visited[id as int] != 0 ==> b.found.contains(
            hit(vectors, q, id),
        ) || too_far(vectors, q, ef, b, id)
    &&& ascending(b.queue, far_first())
}

/// The kept nodes are complete and `id` is no nearer than any of them.
spec fn too_far(vectors: Vectors, q: Seq<i8>, ef: int, b: Beam, id: u32) -> bool {
    b.found.len() == ef && to_query(vectors, q, id) >= worst(b.found)
}

/// Every id in `ids` is visited.
spec fn all_marked(visited: Seq<u8>, ids: Seq<u32>) -> bool {
    forall|k: int|
        0 <= k < ids.len() ==> (#[trigger] ids[k]) < visited.len() && visited[ids[k] as int] != 0
}

/// Every visited node but `but` waits in the queue, has all its neighbours visited, or is too far.
spec fn guarded(
    vectors: Vectors,
    q: Seq<i8>,
    layer: Layer,
    ef: int,
    b: Beam,
    but: Option<u32>,
) -> bool {
    forall|id: u32|
        id < b.visited.len() && #[trigger] b.visited[id as int] != 0 && but != Some(id)
            ==> b.queue.contains(hit(vectors, q, id)) || all_marked(
            b.visited,
            neighbours_in(layer, id),
        ) || too_far(vectors, q, ef, b, id)
}

proof fn lemma_put_contains(h: Seq<Hit>, x: Hit, y: Hit)
    ensures
        put(h, far_first(), x).contains(y) <==> h.contains(y) || y == x,
{
    let p = place(h, far_first(), far_first()(x), h.len() as int);
    lemma_place(h, far_first(), far_first()(x), h.len() as int);
    let all = h.insert(p, x);
    assert(all[p] == x);
    if h.contains(y) {
        let i = choose|i: int| 0 <= i < h.len() && h[i] == y;
        if i < p {
            assert(all[i] == y);
        } else {
            assert(all[i + 1] == y);
        }
    }
    if all.contains(y) && y != x {
        let i = choose|i: int| 0 <= i < all.len() && all[i] == y;
        if i < p {
            assert(h[i] == y);
        } else {
            assert(h[i - 1] == y);
        }
    }
}

proof fn lemma_consider_keeps(vectors: Vectors, q: Seq<i8>, ef: int, b: Beam, n: u32)
    requires
        0 < ef,
        beam_keeps(vectors, q, ef, b),
        n < vectors.len(),
    ensures
        ({
            let r = consider(vectors, q, ef, b, n);
            &&& beam_keeps(vectors, q, ef, r)
            &&& b.found.len() == ef ==> r.found.len() == ef && worst(r.found) <= worst(b.found)
            &&& r.visited[n as int] != 0
            &&& forall|i: int|
                0 <= i < b.visited.len() && #[trigger] b.visited[i] != 0 ==> r.visited[i] != 0
        }),
{
    if b.visited[n as int] == 0 {
        let x = hit(vectors, q, n);
        let r = consider(vectors, q, ef, b, n);
        if b.found.len() < ef || x.0 < worst(b.found) {
            assert(accepts(b.found, ef, x.0));
            lemma_taken_members(b.found, ef, x);
            law_put_ascending(b.queue, far_first(), x);
            assert forall|y: Hit| #[trigger] r.found.contains(y) implies y.1 < vectors.len() && y == hit(
                vectors,
                q,
                y.1,
            ) && r.visited[y.1 as int] != 0 by {
                if y != x {
                    assert(b.found.contains(y));
                }
            }
            assert forall|id: u32|
                id < vectors.len() && #[trigger] r.visited[id as int] != 0 implies r.found.contains(
                hit(vectors, q, id),
            ) || too_far(vectors, q, ef, r, id) by {
                let y = hit(vectors, q, id);
                if id != n {
                    assert(b.visited[id as int] != 0);
                }
            }
        } else {
            assert forall|y: Hit| #[trigger] r.found.contains(y) implies y.1 < vectors.len() && y == hit(
                vectors,
                q,
                y.1,
            ) && r.visited[y.1 as int] != 0 by {
                assert(b.found.contains(y));
            }
            assert forall|id: u32|
                id < vectors.len() && #[trigger] r.visited[id as int] != 0 implies r.found.contains(
                hit(vectors, q, id),
            ) || too_far(vectors, q, ef, r, id) by {
                if id != n {
                    assert(b.visited[id as int] != 0);
                }
            }
        }
    }
}

proof fn lemma_consider_guarded(
    vectors: Vectors,
    q: Seq<i8>,
    layer: Layer,
    ef: int,
    b: Beam,
    n: u32,
    but: Option<u32>,
)
    requires
        0 < ef,
        beam_keeps(vectors, q, ef, b),
        guarded(vectors, q, layer, ef, b, but),
        n < vectors.len(),
    ensures
        guarded(vectors, q, layer, ef, consider(vectors, q, ef, b, n), but),
{
    if b.visited[n as int] == 0 {
        let r = consider(vectors, q, ef, b, n);
        let x = hit(vectors, q, n);
        lemma_consider_keeps(vectors, q, ef, b, n);
        assert forall|id: u32|
            id < r.visited.len() && #[trigger] r.visited[id as int] != 0 && but != Some(
                id,
            ) implies r.queue.contains(hit(vectors, q, id)) || all_marked(
            r.visited,
            neighbours_in(layer, id),
        ) || too_far(vectors, q, ef, r, id) by {
            lemma_put_contains(b.queue, x, hit(vectors, q, id));
            if id != n {
                assert(b.visited[id as int] != 0);
                if all_marked(b.visited, neighbours_in(layer, id)) {
                    assert(all_marked(r.visited, neighbours_in(layer, id)));
                }
            }
        }
    }
}

proof fn lemma_expand_keeps(
    vectors: Vectors,
    q: Seq<i8>,
    layer: Layer,
    ef: int,
    b: Beam,
    ids: Seq<u32>,
    but: Option<u32>,
)
    requires
        0 < ef,
        beam_keeps(vectors, q, ef, b),
        guarded(vectors, q, layer, ef, b, but),
        forall|k: int| 0 <= k < ids.len() ==> (#[trigger] ids[k]) < vectors.len(),
    ensures
        ({
            let r = expand(vectors, q, ef, b, ids);
            &&& beam_keeps(vectors, q, ef, r)
            &&& guarded(vectors, q, layer, ef, r, but)
            &&& all_marked(r.visited, ids)
            &&& forall|i: int|
                0 <= i < b.visited.len() && #[trigger] b.visited[i] != 0 ==> r.visited[i] != 0
        }),
    decreases ids.len(),
{
    if ids.len() > 0 {
        let front = ids.drop_last();
        assert forall|k: int| 0 <= k < front.len() implies (#[trigger] front[k]) < vectors.len() by {
            assert(ids[k] < vectors.len());
        }
        lemma_expand_keeps(vectors, q, layer, ef, b, front, but);
        let m = expand(vectors, q, ef, b, front);
        assert(ids[ids.len() - 1] < vectors.len());
        lemma_consider_keeps(vectors, q, ef, m, ids.last());
        lemma_consider_guarded(vectors, q, layer, ef, m, ids.last(), but);
        let r = expand(vectors, q, ef, b, ids);
        assert forall|k: int| 0 <= k < ids.len() implies (#[trigger] ids[k]) < r.visited.len()
            && r.visited[ids[k] as int] != 0 by {
            if k < front.len() {
                assert(front[k] < m.visited.len() && m.visited[front[k] as int] != 0);
            }
        }
    }
}

proof fn lemma_popped_keeps(vectors: Vectors, q: Seq<i8>, layer: Layer, ef: int, b: Beam)
    requires
        beam_keeps(vectors, q, ef, b),
        guarded(vectors, q, layer, ef, b, None),
        b.queue.len() > 0,
    ensures
        beam_keeps(vectors, q, ef, popped(b)),
        guarded(vectors, q, layer, ef, popped(b), Some(b.queue.last().1)),
{
    let t = popped(b);
    let c = b.queue.last().1;
    assert(ascending(t.queue, far_first())) by {
        assert forall|i: int, j: int| 0 <= i <= j < t.queue.len() implies far_first()(
            #[trigger] t.queue[i],
        ) <= far_first()(#[trigger] t.queue[j]) by {
            assert(far_first()(b.queue[i]) <= far_first()(b.queue[j]));
        }
    }
    assert forall|id: u32|
        id < vectors.len() && #[trigger] t.visited[id as int] != 0 implies t.found.contains(
        hit(vectors, q, id),
    ) || too_far(vectors, q, ef, t, id) by {
        assert(b.visited[id as int] != 0);
    }
    assert forall|id: u32|
        id < t.visited.len() && #[trigger] t.visited[id as int] != 0 && Some(c) != Some(
            id,
        ) implies t.queue.contains(hit(vectors, q, id)) || all_marked(
        t.visited,
        neighbours_in(layer, id),
    ) || too_far(vectors, q, ef, t, id) by {
        let y = hit(vectors, q, id);
        assert(b.visited[id as int] != 0);
        if b.queue.contains(y) {
            let i = choose|i: int| 0 <= i < b.queue.len() && b.queue[i] == y;
            assert(t.queue[i] == y);
        }
    }
}

proof fn lemma_run_keeps(vectors: Vectors, q: Seq<i8>, layer: Layer, ef: int, b: Beam)
    requires
        0 < ef,
        beam_keeps(vectors, q, ef, b),
        guarded(vectors, q, layer, ef, b, None),
        points_below(layer, vectors.len() as int),
    ensures
        ({
            let r = run_beam(vectors, q, layer, ef, b);
            &&& beam_keeps(vectors, q, ef, r)
            &&& forall|i: int|
                0 <= i < b.visited.len() && #[trigger] b.visited[i] != 0 ==> r.visited[i] != 0
            &&& forall|id: u32|
                id < r.visited.len() && #[trigger] r.visited[id as int] != 0 ==> all_marked(
                    r.visited,
                    neighbours_in(layer, id),
                ) || too_far(vectors, q, ef, r, id)
        }),
    decreases unseen(b.visited) + b.queue.len(),
{
    let r = run_beam(vectors, q, layer, ef, b);
    if b.queue.len() == 0 {
        assert forall|id: u32|
            id < r.visited.len() && #[trigger] r.visited[id as int] != 0 implies all_marked(
            r.visited,
            neighbours_in(layer, id),
        ) || too_far(vectors, q, ef, r, id) by {
            assert(!b.queue.contains(hit(vectors, q, id)));
        }
    } else {
        lemma_popped_keeps(vectors, q, layer, ef, b);
        if exhausted(b, ef) {
            assert forall|id: u32|
                id < r.visited.len() && #[trigger] r.visited[id as int] != 0 implies all_marked(
                r.visited,
                neighbours_in(layer, id),
            ) || too_far(vectors, q, ef, r, id) by {
                let y = hit(vectors, q, id);
                assert(b.visited[id as int] != 0);
                if b.queue.contains(y) {
                    let i = choose|i: int| 0 <= i < b.queue.len() && b.queue[i] == y;
                    let last = b.queue.len() - 1;
                    assert(far_first()(b.queue[i]) <= far_first()(b.queue[last]));
                    assert(y.0 >= b.queue[last].0);
                }
            }
        } else {
            let t = popped(b);
            let c = b.queue.last().1;
            let ids = neighbours_in(layer, c);
            assert forall|k: int| 0 <= k < ids.len() implies (#[trigger] ids[k]) < vectors.len() by {
                assert(layer.contains_key(c));
                assert(neighbours_in(layer, c)[k] < vectors.len());
            }
            lemma_expand_keeps(vectors, q, layer, ef, t, ids, Some(c));
            let m = expand(vectors, q, ef, t, ids);
            lemma_expand_measure(vectors, q, ef, t, ids);
            assert(guarded(vectors, q, layer, ef, m, None));
            lemma_run_keeps(vectors, q, layer, ef, m);
        }
    }
}

proof fn lemma_start_keeps(vectors: Vectors, q: Seq<i8>, layer: Layer, ef: int, from: Hit)
    requires
        0 < ef,
        from.1 < vectors.len(),
        from == hit(vectors, q, from.1),
    ensures
        ({
            let b = start_beam(unmarked(vectors.len()), Seq::empty(), ef, from);
            &&& beam_keeps(vectors, q, ef, b)
            &&& guarded(vectors, q, layer, ef, b, None)
            &&& b.visited[from.1 as int] != 0
        }),
{
    let b = start_beam(unmarked(vectors.len()), Seq::empty(), ef, from);
    let none = Seq::<Hit>::empty();
    lemma_taken_members(none, ef, from);
    law_put_ascending(none, far_first(), from);
    lemma_put_contains(none, from, from);
    assert forall|x: Hit| #[trigger] b.found.contains(x) implies x == from by {
        assert(none.contains(x) || x == from);
    }
    assert(b.found.contains(from)) by {
        assert(b.found.contains(b.found[0]));
    }
    assert forall|id: u32| id < vectors.len() && #[trigger] b.visited[id as int] != 0 implies id
        == from.1 by {}
}

/// A beam search for the `ef` nodes nearest to `q` that starts at a node with its true distance, with nothing
/// visited: what it keeps are visited nodes with their distances, ascending, and a visited node is kept unless
/// `ef` others are that are no farther. It does not stop while a visited node that is nearer than a kept one,
/// or kept itself, has a neighbour that is not visited.
pub proof fn law_beam_leaves_nothing_nearer(
    vectors: Vectors,
    q: Seq<i8>,
    layer: Layer,
    ef: int,
    from: Hit,
    id: u32,
    j: int,
)
    requires
        0 < ef,
        points_below(layer, vectors.len() as int),
        from.1 < vectors.len(),
        from.0 == to_query(vectors, q, from.1),
    ensures
        ({
            let b = run_beam(
                vectors,
                q,
                layer,
                ef,
                start_beam(Seq::new(vectors.len(), |i: int| 0u8), Seq::empty(), ef, from),
            );
            let row = layer[id];
            &&& b.visited.len() == vectors.len()
            &&& b.visited[from.1 as int] != 0
            &&& 0 < b.found.len() <= ef
            &&& forall|a: int, c: int|
                0 <= a <= c < b.found.len() ==> (#[trigger] b.found[a]).0 <= (#[trigger] b.found[c]).0
            &&& forall|a: int|
                0 <= a < b.found.len() ==> (#[trigger] b.found[a]).1 < vectors.len()
                    && b.visited[b.found[a].1 as int] != 0 && b.found[a].0 == to_query(
                    vectors,
                    q,
                    b.found[a].1,
                )
            &&& id < vectors.len() && b.visited[id as int] != 0 ==> b.found.contains(
                (to_query(vectors, q, id), id),
            ) || (b.found.len() == ef && forall|a: int|
                0 <= a < ef ==> (#[trigger] b.found[a]).0 <= to_query(vectors, q, id))
            &&& id < vectors.len() && b.visited[id as int] != 0 && layer.contains_key(id) && 0 <= j
                < row.len() && (forall|m: int| 0 <= m <= j ==> #[trigger] row[m] != 0xFF_FFFF) ==> {
                ||| row[j] < vectors.len() && b.visited[row[j] as int] != 0
                ||| b.found.len() == ef && forall|a: int|
                    0 <= a < ef ==> (#[trigger] b.found[a]).0 <= to_query(vectors, q, id)
            }
        }),
{
    let n = vectors.len();
    assert(Seq::new(n, |i: int| 0u8) =~= unmarked(n));
    let s = start_beam(unmarked(n), Seq::empty(), ef, from);
    lemma_start_keeps(vectors, q, layer, ef, from);
    lemma_run_keeps(vectors, q, layer, ef, s);
    let b = run_beam(vectors, q, layer, ef, s);
    assert(s.visited[from.1 as int] != 0);
    assert forall|a: int| 0 <= a < b.found.len() implies (#[trigger] b.found[a]).1 < n
        && b.visited[b.found[a].1 as int] != 0 && b.found[a].0 == to_query(vectors, q, b.found[a].1) by {
        assert(b.found.contains(b.found[a]));
    }
    let row = layer[id];
    if id < n && b.visited[id as int] != 0 {
        if too_far(vectors, q, ef, b, id) {
            assert forall|a: int| 0 <= a < ef implies (#[trigger] b.found[a]).0 <= to_query(
                vectors,
                q,
                id,
            ) by {
                assert(b.found[a].0 <= b.found[ef - 1].0);
            }
        }
        if layer.contains_key(id) && 0 <= j < row.len() && (forall|m: int|
            0 <= m <= j ==> #[trigger] row[m] != 0xFF_FFFF) {
            lemma_live_end(row, 0);
            assert(neighbours_in(layer, id)[j] == row[j]);
        }
    }
}

/// An insertion looks for 200 nodes in each layer, with nothing visited.
pub proof fn law_near(vectors: Vectors, layer: Layer, q: u32, from: Hit)
    ensures
        near(vectors, layer, q, from) == run_beam(
            vectors,
            vectors[q as int]@,
            layer,
            200,
            start_beam(Seq::new(vectors.len(), |i: int| 0u8), Seq::empty(), 200, from),
        ).found,
{
    assert(Seq::new(vectors.len(), |i: int| 0u8) =~= unmarked(vectors.len()));
}

/// A walk from layer `cur` down to layer `to` ends no farther away, and where it passes at least one layer, it
/// ends at a node none of whose neighbours in the layer above `to` is nearer.
pub proof fn law_descend(
    vectors: Vectors,
    q: Seq<i8>,
    layers: Seq<Layer>,
    cur: int,
    to: int,
    from: Hit,
    j: int,
)
    requires
        0 <= to,
    ensures
        ({
            let end = descend(vectors, q, layers, cur, to, from);
            let row = layers[to + 1][end.1];
            &&& cur <= to ==> end == from
            &&& end.0 <= from.0
            &&& from.0 == to_query(vectors, q, from.1) ==> end.0 == to_query(vectors, q, end.1)
            &&& cur > to && layers[to + 1].contains_key(end.1) && 0 <= j < row.len() && (forall|m: int|
                0 <= m <= j ==> #[trigger] row[m] != 0xFF_FFFF) ==> to_query(vectors, q, row[j]) >= end.0
        }),
    decreases cur,
{
    if cur > to {
        let next = greedy(vectors, q, layers[cur], from);
        law_greedy_ends_at_local_minimum(vectors, q, layers[cur], from);
        if from.0 == to_query(vectors, q, from.1) {
            lemma_greedy_distance(vectors, q, layers[cur], from);
        }
        law_descend(vectors, q, layers, cur - 1, to, next, j);
        let end = descend(vectors, q, layers, cur, to, from);
        let row = layers[to + 1][end.1];
        if cur == to + 1 && layers[cur].contains_key(end.1) && 0 <= j < row.len() && (forall|m: int|
            0 <= m <= j ==> #[trigger] row[m] != 0xFF_FFFF) {
            assert(end == next);
            lemma_live_end(row, 0);
            assert(neighbours_in(layers[cur], end.1)[j] == row[j]);
        }
    }
}

proof fn lemma_nearest_first(vectors: Vectors, q: Seq<i8>, ids: Seq<u32>, from: Hit, k: int)
    requires
        0 <= k < ids.len(),
        to_query(vectors, q, ids[k]) < from.0,
        forall|i: int| 0 <= i < k ==> to_query(vectors, q, #[trigger] ids[i]) > to_query(vectors, q, ids[k]),
        forall|i: int|
            k < i < ids.len() ==> to_query(vectors, q, #[trigger] ids[i]) >= to_query(vectors, q, ids[k]),
    ensures
        nearest_in(vectors, q, ids, from) == (to_query(vectors, q, ids[k]), ids[k]),
    decreases ids.len(),
{
    let front = ids.drop_last();
    let n = ids.len() - 1;
    if k < n {
        assert(front[k] == ids[k]);
        assert forall|i: int| 0 <= i < k implies to_query(vectors, q, #[trigger] front[i]) > to_query(
            vectors,
            q,
            front[k],
        ) by {
            assert(to_query(vectors, q, ids[i]) > to_query(vectors, q, ids[k]));
        }
        assert forall|i: int| k < i < front.len() implies to_query(vectors, q, #[trigger] front[i])
            >= to_query(vectors, q, front[k]) by {
            assert(to_query(vectors, q, ids[i]) >= to_query(vectors, q, ids[k]));
        }
        lemma_nearest_first(vectors, q, front, from, k);
        assert(to_query(vectors, q, ids[n]) >= to_query(vectors, q, ids[k]));
    } else {
        lemma_nearest_in_member(vectors, q, front, from);
        lemma_nearest_above(vectors, q, front, from, to_query(vectors, q, ids[k]));
    }
}

proof fn lemma_nearest_above(vectors: Vectors, q: Seq<i8>, ids: Seq<u32>, from: Hit, d: u32)
    requires
        d < from.0,
        forall|i: int| 0 <= i < ids.len() ==> to_query(vectors, q, #[trigger] ids[i]) > d,
    ensures
        nearest_in(vectors, q, ids, from).0 > d,
    decreases ids.len(),
{
    if ids.len() > 0 {
        let front = ids.drop_last();
        assert forall|i: int| 0 <= i < front.len() implies to_query(vectors, q, #[trigger] front[i]) > d by {
            assert(to_query(vectors, q, ids[i]) > d);
        }
        lemma_nearest_above(vectors, q, front, from, d);
        assert(to_query(vectors, q, ids[ids.len() - 1]) > d);
    }
}

/// A greedy walk goes on from a node to the first of its neighbours that are nearest to the query, if that is
/// nearer than the node, and ends there else.
pub proof fn law_greedy_step(vectors: Vectors, q: Seq<i8>, layer: Layer, from: Hit, k: int)
    ensures
        ({
            let ids = neighbours_in(layer, from.1);
            &&& (forall|i: int| 0 <= i < ids.len() ==> to_query(vectors, q, #[trigger] ids[i]) >= from.0)
                ==> greedy(vectors, q, layer, from) == from
            &&& 0 <= k < ids.len() && to_query(vectors, q, ids[k]) < from.0 && (forall|i: int|
                0 <= i < k ==> to_query(vectors, q, #[trigger] ids[i]) > to_query(vectors, q, ids[k])) && (
            forall|i: int|
                k < i < ids.len() ==> to_query(vectors, q, #[trigger] ids[i]) >= to_query(
                    vectors,
                    q,
                    ids[k],
                )) ==> greedy(vectors, q, layer, from) == greedy(
                vectors,
                q,
                layer,
                (to_query(vectors, q, ids[k]), ids[k]),
            )
        }),
{
    let ids = neighbours_in(layer, from.1);
    lemma_nearest_in_member(vectors, q, ids, from);
    lemma_nearest_in(vectors, q, ids, from);
    if forall|i: int| 0 <= i < ids.len() ==> to_query(vectors, q, #[trigger] ids[i]) >= from.0 {
        lemma_nearest_distance_of(vectors, q, ids, from);
    }
    if 0 <= k < ids.len() && to_query(vectors, q, ids[k]) < from.0 && (forall|i: int|
        0 <= i < k ==> to_query(vectors, q, #[trigger] ids[i]) > to_query(vectors, q, ids[k])) && (forall|
        i: int,
    |
        k < i < ids.len() ==> to_query(vectors, q, #[trigger] ids[i]) >= to_query(vectors, q, ids[k])) {
        lemma_nearest_first(vectors, q, ids, from, k);
    }
}

proof fn lemma_nearest_distance_of(vectors: Vectors, q: Seq<i8>, ids: Seq<u32>, from: Hit)
    requires
        forall|i: int| 0 <= i < ids.len() ==> to_query(vectors, q, #[trigger] ids[i]) >= from.0,
    ensures
        nearest_in(vectors, q, ids, from) == from,
    decreases ids.len(),
{
    if ids.len() > 0 {
        let front = ids.drop_last();
        assert forall|i: int| 0 <= i < front.len() implies to_query(vectors, q, #[trigger] front[i])
            >= from.0 by {
            assert(to_query(vectors, q, ids[i]) >= from.0);
        }
        lemma_nearest_distance_of(vectors, q, front, from);
        assert(to_query(vectors, q, ids[ids.len() - 1]) >= from.0);
    }
}

/// The neighbours of a node are its row up to the first sentinel, and none if it is not in the layer.
pub proof fn law_neighbours(layer: Layer, id: u32, e: int)
    requires
        layer.contains_key(id) ==> 0 <= e <= layer[id].len() && (forall|m: int|
            0 <= m < e ==> #[trigger] layer[id][m] != 0xFF_FFFF) && (e < layer[id].len()
            ==> layer[id][e] == 0xFF_FFFF),
    ensures
        neighbours_in(layer, id) == if layer.contains_key(id) {
            layer[id].subrange(0, e)
        } else {
            Seq::empty()
        },
{
    if layer.contains_key(id) {
        let row = layer[id];
        lemma_live_end(row, 0);
        let l = live_end(row, 0);
        assert(l == e) by {
            if l < e {
                assert(row[l] != 0xFF_FFFF);
            }
        }
        assert(neighbours_in(layer, id) =~= row.subrange(0, e));
    }
}

/// Nodes are as far from a query as their vectors are.
pub proof fn law_to_query(vectors: Vectors, q: Seq<i8>, a: u32, b: u32)
    ensures
        to_query(vectors, q, a) == l2_spec(q, vectors[a as int]@),
        between(vectors, a, b) == l2_spec(vectors[a as int]@, vectors[b as int]@),
{
    lemma_l2_prefix_bounds(q, vectors[a as int]@, 14);
    lemma_l2_prefix_bounds(vectors[a as int]@, vectors[b as int]@, 14);
}

/// A built graph has a row of 16 slots in the base for every node, and above it a row of 8 slots for each node of
/// a layer.
pub proof fn law_rows(g: &BuiltGraph, id: u32, l: int, k: int)
    requires
        g.wf(),
        g.num_nodes <= u32::MAX,
    ensures
        g@.entry == g.entry_point,
        g@.top == g.num_layers - 1,
        g@.layers.len() == g.upper_layers@.len() + 1,
        g@.layers[0].contains_key(id) <==> id < g.num_nodes,
        id < g.num_nodes ==> g@.layers[0][id] == g.layer0_neighbors@.subrange(16 * id, 16 * id + 16),
        1 <= l <= g.upper_layers@.len() ==> {
            let upper = g.upper_layers@[l - 1];
            &&& g@.layers[l].contains_key(id) <==> upper.nodes@.contains(id)
            &&& 0 <= k < upper.nodes@.len() ==> g@.layers[l][upper.nodes@[k]] == upper.neighbors@.subrange(
                8 * k,
                8 * k + 8,
            )
        },
{
    if 1 <= l <= g.upper_layers@.len() {
        let upper = g.upper_layers@[l - 1];
        assert(upper.wf());
        if 0 <= k < upper.nodes@.len() {
            upper.lemma_row(k);
        }
    }
}

/// Every kept node but `but` waits in the queue or has all its neighbours visited.
spec fn kept_guarded(layer: Layer, b: Beam, but: Option<u32>) -> bool {
    forall|x: Hit| #[trigger]
        b.found.contains(x) && but != Some(x.1) ==> b.queue.contains(x) || all_marked(
            b.visited,
            neighbours_in(layer, x.1),
        )
}

proof fn lemma_consider_kept(
    vectors: Vectors,
    q: Seq<i8>,
    layer: Layer,
    ef: int,
    b: Beam,
    n: u32,
    but: Option<u32>,
)
    requires
        0 < ef,
        beam_keeps(vectors, q, ef, b),
        kept_guarded(layer, b, but),
        n < vectors.len(),
    ensures
        kept_guarded(layer, consider(vectors, q, ef, b, n), but),
{
    if b.visited[n as int] == 0 {
        let r = consider(vectors, q, ef, b, n);
        let x = hit(vectors, q, n);
        if b.found.len() < ef || x.0 < worst(b.found) {
            lemma_taken_members(b.found, ef, x);
        }
        assert forall|y: Hit| #[trigger]
            r.found.contains(y) && but != Some(y.1) implies r.queue.contains(y) || all_marked(
            r.visited,
            neighbours_in(layer, y.1),
        ) by {
            lemma_put_contains(b.queue, x, y);
            if b.found.contains(y) && all_marked(b.visited, neighbours_in(layer, y.1)) {
                assert(all_marked(r.visited, neighbours_in(layer, y.1)));
            }
        }
    }
}

proof fn lemma_expand_kept(
    vectors: Vectors,
    q: Seq<i8>,
    layer: Layer,
    ef: int,
    b: Beam,
    ids: Seq<u32>,
    but: Option<u32>,
)
    requires
        0 < ef,
        beam_keeps(vectors, q, ef, b),
        guarded(vectors, q, layer, ef, b, but),
        kept_guarded(layer, b, but),
        forall|k: int| 0 <= k < ids.len() ==> (#[trigger] ids[k]) < vectors.len(),
    ensures
        kept_guarded(layer, expand(vectors, q, ef, b, ids), but),
    decreases ids.len(),
{
    if ids.len() > 0 {
        let front = ids.drop_last();
        assert forall|k: int| 0 <= k < front.len() implies (#[trigger] front[k]) < vectors.len() by {
            assert(ids[k] < vectors.len());
        }
        lemma_expand_kept(vectors, q, layer, ef, b, front, but);
        lemma_expand_keeps(vectors, q, layer, ef, b, front, but);
        assert(ids[ids.len() - 1] < vectors.len());
        lemma_consider_kept(vectors, q, layer, ef, expand(vectors, q, ef, b, front), ids.last(), but);
    }
}

proof fn lemma_run_kept(vectors: Vectors, q: Seq<i8>, layer: Layer, ef: int, b: Beam)
    requires
        0 < ef,
        beam_keeps(vectors, q, ef, b),
        guarded(vectors, q, layer, ef, b, None),
        kept_guarded(layer, b, None),
        points_below(layer, vectors.len() as int),
    ensures
        ({
            let r = run_beam(vectors, q, layer, ef, b);
            forall|x: Hit| #[trigger]
                r.found.contains(x) ==> all_marked(r.visited, neighbours_in(layer, x.1))
        }),
    decreases unseen(b.visited) + b.queue.len(),
{
    let r = run_beam(vectors, q, layer, ef, b);
    if b.queue.len() == 0 {
        assert forall|x: Hit| #[trigger] r.found.contains(x) implies all_marked(
            r.visited,
            neighbours_in(layer, x.1),
        ) by {
            assert(b.found.contains(x));
            assert(!b.queue.contains(x));
        }
    } else {
        lemma_popped_keeps(vectors, q, layer, ef, b);
        let last = b.queue.len() - 1;
        if exhausted(b, ef) {
            assert(r == popped(b));
            assert forall|x: Hit| #[trigger] r.found.contains(x) implies all_marked(
                r.visited,
                neighbours_in(layer, x.1),
            ) by {
                assert(b.found.contains(x));
                let j = choose|j: int| 0 <= j < b.found.len() && b.found[j] == x;
                assert(b.found[j].0 <= b.found[b.found.len() - 1].0);
                if b.queue.contains(x) {
                    let i = choose|i: int| 0 <= i < b.queue.len() && b.queue[i] == x;
                    assert(far_first()(b.queue[i]) <= far_first()(b.queue[last]));
                }
            }
        } else {
            let t = popped(b);
            let c = b.queue.last().1;
            let ids = neighbours_in(layer, c);
            assert forall|k: int| 0 <= k < ids.len() implies (#[trigger] ids[k]) < vectors.len() by {
                assert(layer.contains_key(c));
                assert(neighbours_in(layer, c)[k] < vectors.len());
            }
            assert(kept_guarded(layer, t, Some(c))) by {
                assert forall|x: Hit| #[trigger]
                    t.found.contains(x) && Some(c) != Some(x.1) implies t.queue.contains(x)
                    || all_marked(t.visited, neighbours_in(layer, x.1)) by {
                    assert(b.found.contains(x));
                    if b.queue.contains(x) {
                        let i = choose|i: int| 0 <= i < b.queue.len() && b.queue[i] == x;
                        assert(t.queue[i] == x);
                    }
                }
            }
            lemma_expand_keeps(vectors, q, layer, ef, t, ids, Some(c));
            lemma_expand_kept(vectors, q, layer, ef, t, ids, Some(c));
            let m = expand(vectors, q, ef, t, ids);
            lemma_expand_measure(vectors, q, ef, t, ids);
            assert(guarded(vectors, q, layer, ef, m, None));
            assert(kept_guarded(layer, m, None));
            lemma_run_kept(vectors, q, layer, ef, m);
            assert(r == run_beam(vectors, q, layer, ef, m));
        }
    }
}

/// When a beam search ends, every neighbour of every node that it keeps is visited.
pub proof fn law_beam_expands_what_it_keeps(
    vectors: Vectors,
    q: Seq<i8>,
    layer: Layer,
    ef: int,
    from: Hit,
    a: int,
    j: int,
)
    requires
        0 < ef,
        points_below(layer, vectors.len() as int),
        from.1 < vectors.len(),
        from.0 == to_query(vectors, q, from.1),
    ensures
        ({
            let b = run_beam(
                vectors,
                q,
                layer,
                ef,
                start_beam(Seq::new(vectors.len(), |i: int| 0u8), Seq::empty(), ef, from),
            );
            let id = b.found[a].1;
            let row = layer[id];
            0 <= a < b.found.len() && layer.contains_key(id) && 0 <= j < row.len() && (forall|m: int|
                0 <= m <= j ==> #[trigger] row[m] != 0xFF_FFFF) ==> row[j] < vectors.len()
                && b.visited[row[j] as int] != 0
        }),
{
    let n = vectors.len();
    assert(Seq::new(n, |i: int| 0u8) =~= unmarked(n));
    let s = start_beam(unmarked(n), Seq::empty(), ef, from);
    lemma_start_keeps(vectors, q, layer, ef, from);
    assert(kept_guarded(layer, s, None)) by {
        let none = Seq::<Hit>::empty();
        lemma_taken_members(none, ef, from);
        assert forall|x: Hit| #[trigger] s.found.contains(x) implies s.queue.contains(x) by {
            assert(none.contains(x) || x == from);
            lemma_put_contains(none, from, x);
        }
    }
    lemma_run_kept(vectors, q, layer, ef, s);
    lemma_run_keeps(vectors, q, layer, ef, s);
    let b = run_beam(vectors, q, layer, ef, s);
    let id = b.found[a].1;
    let row = layer[id];
    if 0 <= a < b.found.len() && layer.contains_key(id) && 0 <= j < row.len() && (forall|m: int|
        0 <= m <= j ==> #[trigger] row[m] != 0xFF_FFFF) {
        assert(b.found.contains(b.found[a]));
        lemma_live_end(row, 0);
        assert(neighbours_in(layer, id)[j] == row[j]);
    }
}

/// Looking at a node during a beam search marks and logs it. One that was visited changes nothing. One that was
/// not is queued and kept if there is room or it is nearer than the last one kept; else it is only marked.
pub proof fn law_consider(vectors: Vectors, q: Seq<i8>, ef: int, b: Beam, n: u32)
    requires
        0 < ef,
        n < b.visited.len(),
        b.found.len() <= ef,
    ensures
        ({
            let r = consider(vectors, q, ef, b, n);
            let d = to_query(vectors, q, n);
            let fresh = b.visited[n as int] == 0;
            let nearer = b.found.len() < ef || d < b.found[b.found.len() - 1].0;
            &&& !fresh ==> r == b
            &&& fresh ==> r.visited == b.visited.update(n as int, 1) && r.log == b.log.push(n)
            &&& fresh && !nearer ==> r.found == b.found && r.queue == b.queue
            &&& fresh && nearer ==> r.found == taken(b.found, ef, (d, n)) && r.queue.contains((d, n))
                && r.queue.len() == b.queue.len() + 1
        }),
{
    let x = hit(vectors, q, n);
    lemma_put_contains(b.queue, x, x);
    lemma_place(b.queue, far_first(), far_first()(x), b.queue.len() as int);
}

} // verus!
