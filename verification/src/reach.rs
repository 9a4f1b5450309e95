//! Searching small graphs: if the search keeps room for every node, it visits whatever can be reached.
use crate::beam::{hit, lemma_unseen_mark, unseen, Vectors};
use crate::consts::TOP_K;
use crate::heap::{law_pop, law_push};
use crate::hnsw::{
    EF_SEARCH, farthest, law_search_keeps_nearest, law_search_result, lemma_landing,
    lemma_look_all_measure, look, look_all, probed, run_probe, searched, start_probe, taken, Probe,
};
use crate::hnsw_build::{descend, unmarked, Graph};
use crate::layer::{neighbours_in, Layer};
use crate::sort::{first_u32, law_stable_sort, stable_sort};
use crate::topk::Hit;
use vstd::prelude::*;

verus! {

/// An edge leads from the node at place `i` of `path` to the next one.
pub open spec fn edge_at(base: Layer, path: Seq<u32>, i: int) -> bool {
    neighbours_in(base, path[i]).contains(path[i + 1])
}

/// `path` follows edges of the layer.
pub open spec fn is_path(base: Layer, path: Seq<u32>) -> bool {
    path.len() > 0 && forall|i: int| 0 <= i < path.len() - 1 ==> #[trigger] edge_at(base, path, i)
}

/// Edges of the layer lead from `a`, over any number of nodes, to `b`.
pub open spec fn reaches(base: Layer, a: u32, b: u32) -> bool {
    exists|path: Seq<u32>| #[trigger] is_path(base, path) && path[0] == a && path.last() == b
}

/// Where the search of the base layer starts.
pub open spec fn landing(vectors: Vectors, g: Graph, q: Seq<i8>) -> Hit {
    descend(vectors, q, g.layers, g.top, 0, hit(vectors, q, g.entry))
}

/// Every id in `ids` is visited.
spec fn all_visited(visited: Seq<u8>, ids: Seq<u32>) -> bool {
    forall|k: int|
        0 <= k < ids.len() ==> (#[trigger] ids[k]) < visited.len() && visited[ids[k] as int] != 0
}

/// Every visited node but `but` waits to be expanded or has all its neighbours visited.
spec fn spreads(vectors: Vectors, q: Seq<i8>, base: Layer, p: Probe, but: Option<u32>) -> bool {
    forall|id: u32|
        id < p.visited.len() && #[trigger] p.visited[id as int] != 0 && but != Some(id)
            ==> p.candidates.contains(hit(vectors, q, id)) || all_visited(
            p.visited,
            neighbours_in(base, id),
        )
}

/// Every visited node is kept.
spec fn keeps_all(vectors: Vectors, p: Probe) -> bool {
    &&& p.visited.len() == vectors.len()
    &&& p.found.len() + unseen(p.visited) == vectors.len()
}

proof fn lemma_unseen(visited: Seq<u8>)
    ensures
        unseen(visited) <= visited.len(),
        unseen(visited) == 0 <==> forall|i: int| 0 <= i < visited.len() ==> #[trigger] visited[i] != 0,
    decreases visited.len(),
{
    if visited.len() > 0 {
        let front = visited.drop_last();
        lemma_unseen(front);
        if unseen(visited) == 0 {
            assert forall|i: int| 0 <= i < visited.len() implies #[trigger] visited[i] != 0 by {
                if i < front.len() {
                    assert(front[i] != 0);
                }
            }
        }
        if forall|i: int| 0 <= i < visited.len() ==> #[trigger] visited[i] != 0 {
            assert forall|i: int| 0 <= i < front.len() implies #[trigger] front[i] != 0 by {
                assert(visited[i] != 0);
            }
            assert(visited[visited.len() - 1] != 0);
        }
    }
}

proof fn lemma_unseen_unmarked(n: nat)
    ensures
        unseen(unmarked(n)) == n,
    decreases n,
{
    if n > 0 {
        lemma_unseen_unmarked((n - 1) as nat);
        assert(unmarked(n).drop_last() =~= unmarked((n - 1) as nat));
    }
}

proof fn lemma_push_contains(h: Seq<Hit>, x: Hit, y: Hit)
    ensures
        crate::heap::pushed(false, h, x).contains(y) <==> h.contains(y) || y == x,
{
    broadcast use vstd::seq_lib::group_to_multiset_ensures;
    broadcast use vstd::multiset::group_multiset_axioms;

    law_push(false, h, x);
    let r = crate::heap::pushed(false, h, x);
    assert(r.contains(y) <==> r.to_multiset().count(y) > 0);
    assert(h.contains(y) <==> h.to_multiset().count(y) > 0);
}

proof fn lemma_look_spreads(
    vectors: Vectors,
    q: Seq<i8>,
    base: Layer,
    p: Probe,
    n: u32,
    but: Option<u32>,
)
    requires
        vectors.len() <= EF_SEARCH,
        keeps_all(vectors, p),
        spreads(vectors, q, base, p, but),
        n < vectors.len(),
    ensures
        ({
            let r = look(vectors, q, p, n);
            &&& keeps_all(vectors, r)
            &&& spreads(vectors, q, base, r, but)
            &&& r.visited[n as int] != 0
            &&& forall|i: int|
                0 <= i < p.visited.len() && #[trigger] p.visited[i] != 0 ==> r.visited[i] != 0
        }),
{
    if p.visited[n as int] == 0 {
        let r = look(vectors, q, p, n);
        let x = hit(vectors, q, n);
        lemma_unseen(p.visited);
        lemma_unseen_mark(p.visited, n as int);
        assert(p.found.len() < EF_SEARCH);
        law_push(true, p.found, x);
        assert forall|id: u32|
            id < r.visited.len() && #[trigger] r.visited[id as int] != 0 && but != Some(
                id,
            ) implies r.candidates.contains(hit(vectors, q, id)) || all_visited(
            r.visited,
            neighbours_in(base, id),
        ) by {
            lemma_push_contains(p.candidates, x, hit(vectors, q, id));
            if id != n {
                assert(p.visited[id as int] != 0);
                if all_visited(p.visited, neighbours_in(base, id)) {
                    assert(all_visited(r.visited, neighbours_in(base, id)));
                }
            }
        }
    }
}

proof fn lemma_look_all_spreads(
    vectors: Vectors,
    q: Seq<i8>,
    base: Layer,
    p: Probe,
    ids: Seq<u32>,
    but: Option<u32>,
)
    requires
        vectors.len() <= EF_SEARCH,
        keeps_all(vectors, p),
        spreads(vectors, q, base, p, but),
        forall|k: int| 0 <= k < ids.len() ==> (#[trigger] ids[k]) < vectors.len(),
    ensures
        ({
            let r = look_all(vectors, q, p, ids);
            &&& keeps_all(vectors, r)
            &&& spreads(vectors, q, base, r, but)
            &&& all_visited(r.visited, ids)
            &&& forall|i: int|
                0 <= i < p.visited.len() && #[trigger] p.visited[i] != 0 ==> r.visited[i] != 0
        }),
    decreases ids.len(),
{
    if ids.len() > 0 {
        let front = ids.drop_last();
        assert forall|k: int| 0 <= k < front.len() implies (#[trigger] front[k]) < vectors.len() by {
            assert(ids[k] < vectors.len());
        }
        lemma_look_all_spreads(vectors, q, base, p, front, but);
        let m = look_all(vectors, q, p, front);
        assert(ids[ids.len() - 1] < vectors.len());
        lemma_look_spreads(vectors, q, base, m, ids.last(), but);
        let r = look_all(vectors, q, p, ids);
        assert forall|k: int| 0 <= k < ids.len() implies (#[trigger] ids[k]) < r.visited.len()
            && r.visited[ids[k] as int] != 0 by {
            if k < front.len() {
                assert(front[k] < m.visited.len() && m.visited[front[k] as int] != 0);
            }
        }
    }
}

/// Where a run ends, every node is visited or the visited nodes have no edge to any other.
proof fn lemma_run_spreads(vectors: Vectors, q: Seq<i8>, base: Layer, p: Probe)
    requires
        vectors.len() <= EF_SEARCH,
        keeps_all(vectors, p),
        spreads(vectors, q, base, p, None),
        crate::beam::points_below(base, vectors.len() as int),
    ensures
        ({
            let r = run_probe(vectors, q, base, p);
            &&& keeps_all(vectors, r)
            &&& forall|i: int|
                0 <= i < p.visited.len() && #[trigger] p.visited[i] != 0 ==> r.visited[i] != 0
            &&& forall|id: u32|
                id < r.visited.len() && #[trigger] r.visited[id as int] != 0 ==> all_visited(
                    r.visited,
                    neighbours_in(base, id),
                )
        }),
    decreases unseen(p.visited) + p.candidates.len(),
{
    broadcast use vstd::seq_lib::group_to_multiset_ensures;
    broadcast use vstd::multiset::group_multiset_axioms;

    if p.candidates.len() == 0 {
        assert forall|id: u32|
            id < p.visited.len() && #[trigger] p.visited[id as int] != 0 implies all_visited(
            p.visited,
            neighbours_in(base, id),
        ) by {
            assert(!p.candidates.contains(hit(vectors, q, id)));
        }
    } else {
        let c = p.candidates[0].1;
        let ids = neighbours_in(base, c);
        assert forall|id: u32, k: int|
            0 <= k < neighbours_in(base, id).len() implies (#[trigger] neighbours_in(base, id)[k])
            < vectors.len() by {
            assert(base.contains_key(id));
        }
        if p.candidates[0].0 > farthest(p.found) && p.found.len() >= EF_SEARCH {
            lemma_unseen(p.visited);
        } else {
            let t = taken(p);
            law_pop(false, p.candidates);
            assert(spreads(vectors, q, base, t, Some(c))) by {
                assert forall|id: u32|
                    id < t.visited.len() && #[trigger] t.visited[id as int] != 0 && Some(c) != Some(
                        id,
                    ) implies t.candidates.contains(hit(vectors, q, id)) || all_visited(
                    t.visited,
                    neighbours_in(base, id),
                ) by {
                    let y = hit(vectors, q, id);
                    assert(p.candidates.contains(y) <==> p.candidates.to_multiset().count(y) > 0);
                    assert(t.candidates.contains(y) <==> t.candidates.to_multiset().count(y) > 0);
                }
            }
            lemma_look_all_spreads(vectors, q, base, t, ids, Some(c));
            let m = look_all(vectors, q, t, ids);
            lemma_look_all_measure(vectors, q, t, ids);
            assert(spreads(vectors, q, base, m, None));
            lemma_run_spreads(vectors, q, base, m);
        }
    }
}

/// The last node of a path that starts at a visited node is visited, if visited nodes lead to visited nodes
/// alone.
proof fn lemma_path_visited(base: Layer, path: Seq<u32>, visited: Seq<u8>, i: int)
    requires
        is_path(base, path),
        path[0] < visited.len(),
        visited[path[0] as int] != 0,
        forall|id: u32|
            id < visited.len() && #[trigger] visited[id as int] != 0 ==> all_visited(
                visited,
                neighbours_in(base, id),
            ),
        0 <= i < path.len(),
    ensures
        path[i] < visited.len(),
        visited[path[i] as int] != 0,
    decreases i,
{
    if i > 0 {
        lemma_path_visited(base, path, visited, i - 1);
        assert(edge_at(base, path, i - 1));
        let ids = neighbours_in(base, path[i - 1]);
        assert(all_visited(visited, ids));
        let k = choose|k: int| 0 <= k < ids.len() && ids[k] == path[i];
        assert(visited[ids[k] as int] != 0);
    }
}

/// In a graph of at most `EF_SEARCH` nodes a search visits and keeps every node that can be reached from
/// where it starts in the base layer.
pub proof fn law_small_search_visits_reachable(vectors: Vectors, g: Graph, q: Seq<i8>, id: u32)
    requires
        g.walkable(vectors.len() as int),
        vectors.len() <= EF_SEARCH,
        id < vectors.len(),
        reaches(g.layers[0], landing(vectors, g, q).1, id),
    ensures
        probed(vectors, g, q).visited.len() == vectors.len(),
        probed(vectors, g, q).visited[id as int] != 0,
        probed(vectors, g, q).found.len() + unseen(probed(vectors, g, q).visited) == vectors.len(),
{
    let base = g.layers[0];
    let from = landing(vectors, g, q);
    let n = vectors.len();
    lemma_landing(vectors, g, q);
    assert(crate::beam::points_below(base, n as int));
    let p = start_probe(n, from);
    lemma_unseen_unmarked(n);
    lemma_unseen_mark(unmarked(n), from.1 as int);
    assert(spreads(vectors, q, base, p, None)) by {
        assert(p.candidates[0] == hit(vectors, q, from.1));
        assert(p.candidates.contains(hit(vectors, q, from.1)));
    }
    lemma_run_spreads(vectors, q, base, p);
    let path = choose|path: Seq<u32>| #[trigger]
        is_path(base, path) && path[0] == from.1 && path.last() == id;
    let visited = probed(vectors, g, q).visited;
    assert(p.visited[from.1 as int] != 0);
    lemma_path_visited(base, path, visited, path.len() - 1);
}

/// `r` lists five nearest of all nodes: as many nodes as there are, at most five, each once with its
/// distance, ascending, then fillers; and no node left out is nearer than one listed.
pub open spec fn exact_five(vectors: Vectors, q: Seq<i8>, r: Seq<Hit>) -> bool {
    &&& r.len() == TOP_K
    &&& forall|i: int, j: int| 0 <= i <= j < TOP_K ==> (#[trigger] r[i]).0 <= (#[trigger] r[j]).0
    &&& forall|i: int|
        0 <= i < TOP_K && i < vectors.len() ==> (#[trigger] r[i]).1 < vectors.len() && r[i] == hit(
            vectors,
            q,
            r[i].1,
        )
    &&& forall|i: int| vectors.len() <= i < TOP_K ==> #[trigger] r[i] == (u32::MAX, u32::MAX)
    &&& forall|i: int, j: int|
        0 <= i < j < TOP_K && j < vectors.len() ==> (#[trigger] r[i]).1 != (#[trigger] r[j]).1
    &&& forall|id: u32, i: int|
        id < vectors.len() && 0 <= i < TOP_K && !r.contains(#[trigger] hit(vectors, q, id)) ==> (
        #[trigger] r[i]).0 <= hit(vectors, q, id).0
}

/// In a graph of at most `EF_SEARCH` nodes, all of which can be reached from where the search starts in the
/// base layer, a search finds the five nearest.
pub proof fn law_small_search_is_exact(vectors: Vectors, g: Graph, q: Seq<i8>)
    requires
        g.walkable(vectors.len() as int),
        vectors.len() <= EF_SEARCH,
        forall|id: u32|
            id < vectors.len() ==> #[trigger] reaches(g.layers[0], landing(vectors, g, q).1, id),
    ensures
        exact_five(vectors, q, searched(vectors, g, q)),
{
    let n = vectors.len();
    let p = probed(vectors, g, q);
    let r = searched(vectors, g, q);
    let sorted = stable_sort(p.found, first_u32());
    law_search_keeps_nearest(vectors, g, q);
    law_search_result(vectors, g, q);
    law_stable_sort(p.found, first_u32());
    assert(reaches(g.layers[0], landing(vectors, g, q).1, g.entry));
    law_small_search_visits_reachable(vectors, g, q, g.entry);
    assert forall|i: int| 0 <= i < p.visited.len() implies #[trigger] p.visited[i] != 0 by {
        assert(reaches(g.layers[0], landing(vectors, g, q).1, i as u32));
        law_small_search_visits_reachable(vectors, g, q, i as u32);
    }
    lemma_unseen(p.visited);
    assert(sorted.len() == n);
    assert forall|i: int| 0 <= i < TOP_K && i < n implies (#[trigger] r[i]).1 < n && r[i] == hit(
        vectors,
        q,
        r[i].1,
    ) by {
        broadcast use vstd::seq_lib::group_to_multiset_ensures;

        assert(sorted.contains(sorted[i]));
        assert(sorted.to_multiset().count(sorted[i]) > 0);
        assert(p.found.contains(sorted[i]));
    }
    assert forall|i: int, j: int| 0 <= i < j < TOP_K && j < n implies (#[trigger] r[i]).1 != (
    #[trigger] r[j]).1 by {
        if r[i].1 == r[j].1 {
            assert(r[i] == r[j]);
        }
    }
    assert forall|id: u32, i: int|
        id < n && 0 <= i < TOP_K && !r.contains(#[trigger] hit(vectors, q, id)) implies (
    #[trigger] r[i]).0 <= hit(vectors, q, id).0 by {
        assert(p.visited[id as int] != 0);
    }
}

} // verus!
