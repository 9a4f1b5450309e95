//! Where a search of the base layer stops: nothing nearer than what it keeps is left unexpanded.
use crate::beam::{hit, points_below, to_query, unseen, Vectors};
use crate::heap::{is_heap, law_pop, law_push, law_root_is_extreme, pushed};
use crate::hnsw::{
    EF_SEARCH, farthest, keep, lemma_landing, lemma_look_all_measure, lemma_look_all_ok, lemma_look_ok,
    look, look_all, probe_ok, probed, run_probe, start_probe, taken, Probe,
};
use crate::hnsw_build::{descend, Graph};
use crate::layer::{lemma_live_end, neighbours_in, Layer};
use crate::topk::Hit;
use vstd::prelude::*;

verus! {

/// Every id in `ids` is visited.
spec fn all_marked(visited: Seq<u8>, ids: Seq<u32>) -> bool {
    forall|k: int|
        0 <= k < ids.len() ==> (#[trigger] ids[k]) < visited.len() && visited[ids[k] as int] != 0
}

/// The kept nodes are complete and `id` is no nearer than any of them.
spec fn beyond(vectors: Vectors, q: Seq<i8>, p: Probe, id: u32) -> bool {
    p.found.len() == EF_SEARCH && hit(vectors, q, id).0 >= farthest(p.found)
}

/// Every visited node but `but` waits to be expanded, has all its neighbours visited, or is too far.
spec fn guarded(vectors: Vectors, q: Seq<i8>, base: Layer, p: Probe, but: Option<u32>) -> bool {
    forall|id: u32|
        id < p.visited.len() && #[trigger] p.visited[id as int] != 0 && but != Some(id)
            ==> p.candidates.contains(hit(vectors, q, id)) || all_marked(
            p.visited,
            neighbours_in(base, id),
        ) || beyond(vectors, q, p, id)
}

proof fn lemma_push_contains(h: Seq<Hit>, x: Hit, y: Hit)
    ensures
        pushed(false, h, x).contains(y) <==> h.contains(y) || y == x,
{
    broadcast use vstd::seq_lib::group_to_multiset_ensures;
    broadcast use vstd::multiset::group_multiset_axioms;

    law_push(false, h, x);
    let r = pushed(false, h, x);
    assert(r.contains(y) <==> r.to_multiset().count(y) > 0);
    assert(h.contains(y) <==> h.to_multiset().count(y) > 0);
}

/// Looking at a node does not bring nearer what was too far.
proof fn lemma_look_beyond(vectors: Vectors, q: Seq<i8>, p: Probe, n: u32)
    requires
        probe_ok(vectors, q, p),
        n < vectors.len(),
    ensures
        p.found.len() == EF_SEARCH ==> {
            let r = look(vectors, q, p, n);
            r.found.len() == EF_SEARCH && farthest(r.found) <= farthest(p.found)
        },
{
    broadcast use vstd::seq_lib::group_to_multiset_ensures;
    broadcast use vstd::multiset::group_multiset_axioms;

    let x = hit(vectors, q, n);
    if p.found.len() == EF_SEARCH && p.visited[n as int] == 0 && x.0 < farthest(p.found) {
        let r = look(vectors, q, p, n);
        let more = pushed(true, p.found, x);
        law_push(true, p.found, x);
        law_pop(true, more);
        let top = r.found[0];
        assert(r.found.contains(top));
        assert(r.found.to_multiset().count(top) > 0);
        assert(more.to_multiset().count(top) > 0);
        if top != x {
            assert(p.found.to_multiset().count(top) > 0);
            assert(p.found.contains(top));
            let i = choose|i: int| 0 <= i < p.found.len() && p.found[i] == top;
            law_root_is_extreme(true, p.found, i);
        }
    }
}

proof fn lemma_look_guarded(
    vectors: Vectors,
    q: Seq<i8>,
    base: Layer,
    p: Probe,
    n: u32,
    but: Option<u32>,
)
    requires
        probe_ok(vectors, q, p),
        guarded(vectors, q, base, p, but),
        n < vectors.len(),
    ensures
        ({
            let r = look(vectors, q, p, n);
            &&& guarded(vectors, q, base, r, but)
            &&& r.visited[n as int] != 0
            &&& forall|i: int|
                0 <= i < p.visited.len() && #[trigger] p.visited[i] != 0 ==> r.visited[i] != 0
        }),
{
    if p.visited[n as int] == 0 {
        let r = look(vectors, q, p, n);
        let x = hit(vectors, q, n);
        lemma_look_beyond(vectors, q, p, n);
        assert forall|id: u32|
            id < r.visited.len() && #[trigger] r.visited[id as int] != 0 && but != Some(
                id,
            ) implies r.candidates.contains(hit(vectors, q, id)) || all_marked(
            r.visited,
            neighbours_in(base, id),
        ) || beyond(vectors, q, r, id) by {
            lemma_push_contains(p.candidates, x, hit(vectors, q, id));
            if id != n {
                assert(p.visited[id as int] != 0);
                if all_marked(p.visited, neighbours_in(base, id)) {
                    assert(all_marked(r.visited, neighbours_in(base, id)));
                }
            }
        }
    }
}

proof fn lemma_look_all_guarded(
    vectors: Vectors,
    q: Seq<i8>,
    base: Layer,
    p: Probe,
    ids: Seq<u32>,
    but: Option<u32>,
)
    requires
        probe_ok(vectors, q, p),
        guarded(vectors, q, base, p, but),
        forall|k: int| 0 <= k < ids.len() ==> (#[trigger] ids[k]) < vectors.len(),
    ensures
        ({
            let r = look_all(vectors, q, p, ids);
            &&& probe_ok(vectors, q, r)
            &&& guarded(vectors, q, base, r, but)
            &&& all_marked(r.visited, ids)
            &&& forall|i: int|
                0 <= i < p.visited.len() && #[trigger] p.visited[i] != 0 ==> r.visited[i] != 0
        }),
    decreases ids.len(),
{
    if ids.len() > 0 {
        let front = ids.drop_last();
        assert forall|k: int| 0 <= k < front.len() implies (#[trigger] front[k]) < vectors.len() by {
            assert(ids[k] < vectors.len());
        }
        lemma_look_all_guarded(vectors, q, base, p, front, but);
        let m = look_all(vectors, q, p, front);
        assert(ids[ids.len() - 1] < vectors.len());
        lemma_look_guarded(vectors, q, base, m, ids.last(), but);
        lemma_look_ok(vectors, q, m, ids.last());
        let r = look_all(vectors, q, p, ids);
        assert forall|k: int| 0 <= k < ids.len() implies (#[trigger] ids[k]) < r.visited.len()
            && r.visited[ids[k] as int] != 0 by {
            if k < front.len() {
                assert(front[k] < m.visited.len() && m.visited[front[k] as int] != 0);
            }
        }
    }
}

proof fn lemma_taken_guarded(vectors: Vectors, q: Seq<i8>, base: Layer, p: Probe)
    requires
        guarded(vectors, q, base, p, None),
        p.candidates.len() > 0,
    ensures
        guarded(vectors, q, base, taken(p), Some(p.candidates[0].1)),
{
    broadcast use vstd::seq_lib::group_to_multiset_ensures;
    broadcast use vstd::multiset::group_multiset_axioms;

    let t = taken(p);
    let c = p.candidates[0].1;
    law_pop(false, p.candidates);
    assert forall|id: u32|
        id < t.visited.len() && #[trigger] t.visited[id as int] != 0 && Some(c) != Some(
            id,
        ) implies t.candidates.contains(hit(vectors, q, id)) || all_marked(
        t.visited,
        neighbours_in(base, id),
    ) || beyond(vectors, q, t, id) by {
        let y = hit(vectors, q, id);
        assert(p.candidates.contains(y) <==> p.candidates.to_multiset().count(y) > 0);
        assert(t.candidates.contains(y) <==> t.candidates.to_multiset().count(y) > 0);
    }
}

/// Where a run ends, every visited node has all its neighbours visited or is too far.
proof fn lemma_run_guarded(vectors: Vectors, q: Seq<i8>, base: Layer, p: Probe)
    requires
        probe_ok(vectors, q, p),
        guarded(vectors, q, base, p, None),
        points_below(base, vectors.len() as int),
    ensures
        ({
            let r = run_probe(vectors, q, base, p);
            &&& probe_ok(vectors, q, r)
            &&& forall|i: int|
                0 <= i < p.visited.len() && #[trigger] p.visited[i] != 0 ==> r.visited[i] != 0
            &&& forall|id: u32|
                id < r.visited.len() && #[trigger] r.visited[id as int] != 0 ==> all_marked(
                    r.visited,
                    neighbours_in(base, id),
                ) || beyond(vectors, q, r, id)
        }),
    decreases unseen(p.visited) + p.candidates.len(),
{
    let r = run_probe(vectors, q, base, p);
    if p.candidates.len() == 0 {
        assert forall|id: u32|
            id < r.visited.len() && #[trigger] r.visited[id as int] != 0 implies all_marked(
            r.visited,
            neighbours_in(base, id),
        ) || beyond(vectors, q, r, id) by {
            assert(!p.candidates.contains(hit(vectors, q, id)));
        }
    } else {
        let t = taken(p);
        law_pop(false, p.candidates);
        if p.candidates[0].0 > farthest(p.found) && p.found.len() >= EF_SEARCH {
            assert forall|id: u32|
                id < r.visited.len() && #[trigger] r.visited[id as int] != 0 implies all_marked(
                r.visited,
                neighbours_in(base, id),
            ) || beyond(vectors, q, r, id) by {
                let y = hit(vectors, q, id);
                assert(p.visited[id as int] != 0);
                if p.candidates.contains(y) {
                    let i = choose|i: int| 0 <= i < p.candidates.len() && p.candidates[i] == y;
                    law_root_is_extreme(false, p.candidates, i);
                }
            }
        } else {
            let c = p.candidates[0].1;
            let ids = neighbours_in(base, c);
            assert forall|k: int| 0 <= k < ids.len() implies (#[trigger] ids[k]) < vectors.len() by {
                assert(neighbours_in(base, c)[k] < vectors.len());
            }
            lemma_taken_guarded(vectors, q, base, p);
            lemma_look_all_guarded(vectors, q, base, t, ids, Some(c));
            let m = look_all(vectors, q, t, ids);
            lemma_look_all_measure(vectors, q, t, ids);
            assert(guarded(vectors, q, base, m, None));
            lemma_run_guarded(vectors, q, base, m);
        }
    }
}

/// When the search of the base layer of a graph of any size ends, the node where it began is visited, and
/// for every visited node `id`: each neighbour in its row of the base layer, up to the sentinel that ends the
/// row, is visited too, unless 64 nodes are kept none of which is farther than `id`.
pub proof fn law_search_leaves_nothing_nearer(
    vectors: Vectors,
    g: Graph,
    q: Seq<i8>,
    id: u32,
    j: int,
)
    requires
        g.walkable(vectors.len() as int),
    ensures
        ({
            let p = probed(vectors, g, q);
            let from = descend(
                vectors,
                q,
                g.layers,
                g.top,
                0,
                (to_query(vectors, q, g.entry), g.entry),
            );
            let row = g.layers[0][id];
            &&& p.visited.len() == vectors.len()
            &&& from.1 < vectors.len() && p.visited[from.1 as int] != 0
            &&& id < vectors.len() && p.visited[id as int] != 0 && g.layers[0].contains_key(id) && 0 <= j
                < row.len() && (forall|m: int| 0 <= m <= j ==> #[trigger] row[m] != 0xFF_FFFF) ==> {
                ||| row[j] < vectors.len() && p.visited[row[j] as int] != 0
                ||| p.found.len() == 64 && forall|x: Hit| #[trigger]
                    p.found.contains(x) ==> x.0 <= to_query(vectors, q, id)
            }
        }),
{
    let base = g.layers[0];
    let n = vectors.len();
    let from = descend(vectors, q, g.layers, g.top, 0, hit(vectors, q, g.entry));
    lemma_landing(vectors, g, q);
    assert(points_below(base, n as int));
    let p = start_probe(n, from);
    lemma_started(vectors, q, base, from);
    lemma_run_guarded(vectors, q, base, p);
    let r = probed(vectors, g, q);
    assert(p.visited[from.1 as int] != 0);
    let row = base[id];
    if id < n && r.visited[id as int] != 0 && base.contains_key(id) && 0 <= j < row.len() && (forall|
        m: int,
    |
        0 <= m <= j ==> #[trigger] row[m] != 0xFF_FFFF) {
        lemma_live_end(row, 0);
        assert(neighbours_in(base, id)[j] == row[j]);
        if beyond(vectors, q, r, id) {
            assert forall|x: Hit| #[trigger] r.found.contains(x) implies x.0 <= to_query(
                vectors,
                q,
                id,
            ) by {
                let i = choose|i: int| 0 <= i < r.found.len() && r.found[i] == x;
                law_root_is_extreme(true, r.found, i);
            }
        }
    }
}

/// Every kept node but `but` waits to be expanded or has all its neighbours visited.
spec fn kept_guarded(base: Layer, p: Probe, but: Option<u32>) -> bool {
    forall|x: Hit| #[trigger]
        p.found.contains(x) && but != Some(x.1) ==> p.candidates.contains(x) || all_marked(
            p.visited,
            neighbours_in(base, x.1),
        )
}

proof fn lemma_keep_subset(found: Seq<Hit>, x: Hit, y: Hit)
    requires
        keep(found, x).contains(y),
    ensures
        found.contains(y) || y == x,
{
    broadcast use vstd::seq_lib::group_to_multiset_ensures;
    broadcast use vstd::multiset::group_multiset_axioms;

    let more = pushed(true, found, x);
    law_push(true, found, x);
    law_pop(true, more);
    let k = keep(found, x);
    assert(k.to_multiset().count(y) > 0);
    assert(more.to_multiset().count(y) > 0);
    if y != x {
        assert(found.to_multiset().count(y) > 0);
    }
}

proof fn lemma_look_kept(vectors: Vectors, q: Seq<i8>, base: Layer, p: Probe, n: u32, but: Option<u32>)
    requires
        probe_ok(vectors, q, p),
        kept_guarded(base, p, but),
        n < vectors.len(),
    ensures
        kept_guarded(base, look(vectors, q, p, n), but),
{
    if p.visited[n as int] == 0 {
        let r = look(vectors, q, p, n);
        let x = hit(vectors, q, n);
        assert forall|y: Hit| #[trigger]
            r.found.contains(y) && but != Some(y.1) implies r.candidates.contains(y) || all_marked(
            r.visited,
            neighbours_in(base, y.1),
        ) by {
            lemma_push_contains(p.candidates, x, y);
            if x.0 < farthest(p.found) || p.found.len() < EF_SEARCH {
                lemma_keep_subset(p.found, x, y);
            }
            if p.found.contains(y) && all_marked(p.visited, neighbours_in(base, y.1)) {
                assert(all_marked(r.visited, neighbours_in(base, y.1)));
            }
        }
    }
}

proof fn lemma_look_all_kept(
    vectors: Vectors,
    q: Seq<i8>,
    base: Layer,
    p: Probe,
    ids: Seq<u32>,
    but: Option<u32>,
)
    requires
        probe_ok(vectors, q, p),
        kept_guarded(base, p, but),
        forall|k: int| 0 <= k < ids.len() ==> (#[trigger] ids[k]) < vectors.len(),
    ensures
        kept_guarded(base, look_all(vectors, q, p, ids), but),
    decreases ids.len(),
{
    if ids.len() > 0 {
        let front = ids.drop_last();
        assert forall|k: int| 0 <= k < front.len() implies (#[trigger] front[k]) < vectors.len() by {
            assert(ids[k] < vectors.len());
        }
        lemma_look_all_kept(vectors, q, base, p, front, but);
        lemma_look_all_ok(vectors, q, p, front);
        assert(ids[ids.len() - 1] < vectors.len());
        lemma_look_kept(vectors, q, base, look_all(vectors, q, p, front), ids.last(), but);
    }
}

proof fn lemma_run_kept(vectors: Vectors, q: Seq<i8>, base: Layer, p: Probe)
    requires
        probe_ok(vectors, q, p),
        guarded(vectors, q, base, p, None),
        kept_guarded(base, p, None),
        points_below(base, vectors.len() as int),
    ensures
        ({
            let r = run_probe(vectors, q, base, p);
            forall|x: Hit| #[trigger]
                r.found.contains(x) ==> all_marked(r.visited, neighbours_in(base, x.1))
        }),
    decreases unseen(p.visited) + p.candidates.len(),
{
    broadcast use vstd::seq_lib::group_to_multiset_ensures;
    broadcast use vstd::multiset::group_multiset_axioms;

    let r = run_probe(vectors, q, base, p);
    if p.candidates.len() == 0 {
        assert forall|x: Hit| #[trigger] r.found.contains(x) implies all_marked(
            r.visited,
            neighbours_in(base, x.1),
        ) by {
            assert(p.found.contains(x));
            assert(!p.candidates.contains(x));
        }
    } else {
        let t = taken(p);
        law_pop(false, p.candidates);
        if p.candidates[0].0 > farthest(p.found) && p.found.len() >= EF_SEARCH {
            assert(r == t);
            assert forall|x: Hit| #[trigger] r.found.contains(x) implies all_marked(
                r.visited,
                neighbours_in(base, x.1),
            ) by {
                assert(p.found.contains(x));
                let j = choose|j: int| 0 <= j < p.found.len() && p.found[j] == x;
                law_root_is_extreme(true, p.found, j);
                if p.candidates.contains(x) {
                    let i = choose|i: int| 0 <= i < p.candidates.len() && p.candidates[i] == x;
                    law_root_is_extreme(false, p.candidates, i);
                }
            }
        } else {
            let c = p.candidates[0].1;
            let ids = neighbours_in(base, c);
            assert forall|k: int| 0 <= k < ids.len() implies (#[trigger] ids[k]) < vectors.len() by {
                assert(neighbours_in(base, c)[k] < vectors.len());
            }
            lemma_taken_guarded(vectors, q, base, p);
            assert(kept_guarded(base, t, Some(c))) by {
                assert forall|x: Hit| #[trigger]
                    t.found.contains(x) && Some(c) != Some(x.1) implies t.candidates.contains(x)
                    || all_marked(t.visited, neighbours_in(base, x.1)) by {
                    assert(p.found.contains(x));
                    assert(p.candidates.contains(x) <==> p.candidates.to_multiset().count(x) > 0);
                    assert(t.candidates.contains(x) <==> t.candidates.to_multiset().count(x) > 0);
                }
            }
            lemma_look_all_guarded(vectors, q, base, t, ids, Some(c));
            lemma_look_all_kept(vectors, q, base, t, ids, Some(c));
            let m = look_all(vectors, q, t, ids);
            lemma_look_all_measure(vectors, q, t, ids);
            assert(guarded(vectors, q, base, m, None));
            assert(kept_guarded(base, m, None));
            lemma_run_kept(vectors, q, base, m);
            assert(r == run_probe(vectors, q, base, m));
        }
    }
}

/// When the search of the base layer ends, every neighbour of every node that it keeps is visited.
pub proof fn law_kept_nodes_are_expanded(vectors: Vectors, g: Graph, q: Seq<i8>, x: Hit, j: int)
    requires
        g.walkable(vectors.len() as int),
        probed(vectors, g, q).found.contains(x),
        g.layers[0].contains_key(x.1),
        0 <= j < g.layers[0][x.1].len(),
        forall|m: int| 0 <= m <= j ==> #[trigger] g.layers[0][x.1][m] != 0xFF_FFFF,
    ensures
        g.layers[0][x.1][j] < vectors.len(),
        probed(vectors, g, q).visited[g.layers[0][x.1][j] as int] != 0,
{
    let base = g.layers[0];
    let from = descend(vectors, q, g.layers, g.top, 0, hit(vectors, q, g.entry));
    lemma_landing(vectors, g, q);
    assert(points_below(base, vectors.len() as int));
    let p = start_probe(vectors.len(), from);
    lemma_started(vectors, q, base, from);
    lemma_run_kept(vectors, q, base, p);
    lemma_run_guarded(vectors, q, base, p);
    let row = base[x.1];
    lemma_live_end(row, 0);
    assert(neighbours_in(base, x.1)[j] == row[j]);
}

proof fn lemma_started(vectors: Vectors, q: Seq<i8>, base: Layer, from: Hit)
    requires
        from.1 < vectors.len(),
        from == hit(vectors, q, from.1),
    ensures
        ({
            let p = start_probe(vectors.len(), from);
            probe_ok(vectors, q, p) && guarded(vectors, q, base, p, None) && kept_guarded(base, p, None)
        }),
{
    let p = start_probe(vectors.len(), from);
    assert(p.found[0] == from && p.candidates[0] == from);
    assert(p.candidates.contains(from));
    assert(p.found.contains(from));
    assert forall|k: u32|
        k < vectors.len() && #[trigger] p.visited[k as int] != 0 implies p.found.contains(
        hit(vectors, q, k),
    ) by {
        assert(k == from.1);
    }
}

/// Looking at a node marks it and no other. One that was visited changes nothing more. One that was not is kept
/// and waits to be expanded if fewer than 64 are kept or it is nearer than one that is; else nothing more changes.
pub proof fn law_look(vectors: Vectors, q: Seq<i8>, p: Probe, n: u32)
    requires
        n < p.visited.len(),
        is_heap(true, p.found),
    ensures
        ({
            let r = look(vectors, q, p, n);
            let d = to_query(vectors, q, n);
            let nearer = p.found.len() < 64 || exists|i: int|
                0 <= i < p.found.len() && d < (#[trigger] p.found[i]).0;
            &&& p.visited[n as int] != 0 ==> r == p
            &&& p.visited[n as int] == 0 ==> r.visited == p.visited.update(n as int, 1)
            &&& p.visited[n as int] == 0 && !nearer ==> r.found == p.found && r.candidates == p.candidates
            &&& p.visited[n as int] == 0 && nearer ==> r.candidates.to_multiset()
                == p.candidates.to_multiset().insert((d, n))
            &&& p.visited[n as int] == 0 && nearer && p.found.len() < 64 ==> r.found.to_multiset()
                == p.found.to_multiset().insert((d, n))
        }),
{
    let d = to_query(vectors, q, n);
    law_push(false, p.candidates, (d, n));
    law_push(true, p.found, (d, n));
    if p.found.len() > 0 {
        assert forall|i: int| 0 <= i < p.found.len() implies (#[trigger] p.found[i]).0 <= p.found[0].0 by {
            law_root_is_extreme(true, p.found, i);
        }
        if d < p.found[0].0 {
            assert(exists|i: int| 0 <= i < p.found.len() && d < (#[trigger] p.found[i]).0);
        }
    }
}

} // verus!
