//! The edges of a graph that is built: each leads to another node, no two of a node to the same, and behind
//! them a row is empty.
use crate::beam::{
    closed, consider, exhausted, expand, greedy, lemma_expand_measure, nearest_in, popped, run_beam,
    start_beam, to_query, unseen, Beam, Vectors,
};
use crate::consts::{HNSW_M, HNSW_SENTINEL};
use crate::hnsw_build::{
    EF_CONSTRUCTION, attach_down, attached, built, descend, falling, insert_all, inserted,
    law_built_graph, layers_ok, lemma_attached, lemma_descend, lemma_insert_all, lemma_layers_ok_update,
    lemma_near, lemma_registered, lemma_selected_in, near, next_start, registered, unmarked, width,
    Graph,
};
use crate::layer::{law_live_of_pad, lemma_live_end, live, neighbours_in, pad, tidy, Layer};
use crate::order::{insertion_order, law_insertion_order};
use crate::select::{
    among, back_edge, hits_of, law_select, lemma_link, lemma_pick, lemma_set_row, link, pick, rows_have,
    select,
};
use crate::sort::{first_u32, law_stable_sort, stable_sort};
use crate::topk::{lemma_position_from, Hit};
use vstd::prelude::*;

verus! {

/// Every edge leads to another node, no two edges of a node lead to the same, and behind its edges a row has
/// sentinels alone.
pub open spec fn proper(layer: Layer) -> bool {
    forall|id: u32| #[trigger]
        layer.contains_key(id) ==> neighbours_in(layer, id).no_duplicates() && !neighbours_in(
            layer,
            id,
        ).contains(id) && tidy(layer[id])
}

/// Every edge leads to a node of `done`.
pub open spec fn leads_to(layer: Layer, done: Set<u32>) -> bool {
    forall|id: u32, k: int|
        layer.contains_key(id) && 0 <= k < neighbours_in(layer, id).len() ==> done.contains(
            #[trigger] neighbours_in(layer, id)[k],
        )
}

/// The ids of `hits` are distinct.
pub open spec fn distinct(hits: Seq<Hit>) -> bool {
    forall|a: int, b: int|
        0 <= a < hits.len() && 0 <= b < hits.len() && a != b ==> (#[trigger] hits[a]).1 != (
        #[trigger] hits[b]).1
}

/// The ids of `hits` are in `done`.
pub open spec fn ids_in(hits: Seq<Hit>, done: Set<u32>) -> bool {
    forall|k: int| 0 <= k < hits.len() ==> done.contains((#[trigger] hits[k]).1)
}

proof fn lemma_sorted_distinct(cands: Seq<Hit>)
    requires
        distinct(cands),
    ensures
        distinct(stable_sort(cands, first_u32())),
{
    broadcast use vstd::seq_lib::group_to_multiset_ensures;

    let sorted = stable_sort(cands, first_u32());
    law_stable_sort(cands, first_u32());
    assert(cands.no_duplicates()) by {
        assert forall|a: int, b: int|
            0 <= a < cands.len() && 0 <= b < cands.len() && a != b implies cands[a] != cands[b] by {
            assert(cands[a].1 != cands[b].1);
        }
    }
    cands.lemma_multiset_has_no_duplicates();
    sorted.lemma_multiset_has_no_duplicates_conv();
    assert forall|a: int, b: int|
        0 <= a < sorted.len() && 0 <= b < sorted.len() && a != b implies (#[trigger] sorted[a]).1 != (
    #[trigger] sorted[b]).1 by {
        assert(sorted.contains(sorted[a]));
        assert(sorted.contains(sorted[b]));
        assert(sorted.to_multiset().count(sorted[a]) > 0);
        assert(sorted.to_multiset().count(sorted[b]) > 0);
        let i = choose|i: int| 0 <= i < cands.len() && cands[i] == sorted[a];
        let j = choose|j: int| 0 <= j < cands.len() && cands[j] == sorted[b];
        assert(sorted[a] != sorted[b]);
        assert(cands[i].1 != cands[j].1);
    }
}

proof fn lemma_pick_distinct(vectors: Vectors, cands: Seq<Hit>, m: int)
    requires
        distinct(cands),
        0 <= m,
    ensures
        (pick(vectors, cands, m).chosen + pick(vectors, cands, m).passed).no_duplicates(),
    decreases cands.len(),
{
    if cands.len() > 0 {
        let front = cands.drop_last();
        let e = cands.last().1;
        assert(distinct(front)) by {
            assert forall|a: int, b: int|
                0 <= a < front.len() && 0 <= b < front.len() && a != b implies (#[trigger] front[a]).1 != (
            #[trigger] front[b]).1 by {
                assert(cands[a].1 != cands[b].1);
            }
        }
        lemma_pick_distinct(vectors, front, m);
        lemma_pick(vectors, front, m);
        let o = pick(vectors, front, m);
        let p = pick(vectors, cands, m);
        assert forall|id: u32| among(front, id) implies id != e by {
            let k = choose|k: int| 0 <= k < front.len() && (#[trigger] front[k]).1 == id;
            assert(cands[k].1 != cands[cands.len() - 1].1);
        }
        let was = o.chosen + o.passed;
        let all = p.chosen + p.passed;
        let c = o.chosen.len() as int;
        assert forall|a: int| 0 <= a < was.len() implies #[trigger] was[a] != e by {
            if a < c {
                assert(among(front, o.chosen[a]));
            } else {
                assert(among(front, o.passed[a - c]));
            }
        }
        if p.chosen.len() > o.chosen.len() {
            assert(all =~= was.insert(c, e));
        } else if p.passed.len() > o.passed.len() {
            assert(all =~= was.push(e));
        } else {
            assert(all =~= was);
        }
    }
}

pub proof fn lemma_select_distinct(vectors: Vectors, cands: Seq<Hit>, m: int)
    requires
        distinct(cands),
        0 <= m,
    ensures
        select(vectors, cands, m).no_duplicates(),
{
    let sorted = stable_sort(cands, first_u32());
    lemma_sorted_distinct(cands);
    lemma_pick_distinct(vectors, sorted, m);
    lemma_pick(vectors, sorted, m);
    let p = pick(vectors, sorted, m);
    let all = p.chosen + p.passed;
    let out = select(vectors, cands, m);
    assert forall|a: int, b: int| 0 <= a < out.len() && 0 <= b < out.len() && a != b implies out[a]
        != out[b] by {
        assert(out[a] == all[a] && out[b] == all[b]);
    }
}

/// What a search keeps: the nodes kept are visited, distinct and in `done`, and so are the candidates.
spec fn beam_ok(b: Beam, done: Set<u32>) -> bool {
    &&& distinct(b.found)
    &&& ids_in(b.found, done)
    &&& ids_in(b.queue, done)
    &&& forall|k: int|
        0 <= k < b.found.len() ==> (#[trigger] b.found[k]).1 < b.visited.len()
            && b.visited[b.found[k].1 as int] != 0
}

proof fn lemma_consider_ok(vectors: Vectors, q: Seq<i8>, ef: int, b: Beam, n: u32, done: Set<u32>)
    requires
        beam_ok(b, done),
        done.contains(n),
    ensures
        beam_ok(consider(vectors, q, ef, b, n), done),
{
    let r = consider(vectors, q, ef, b, n);
    if n < b.visited.len() && b.visited[n as int] == 0 {
        let x = (to_query(vectors, q, n), n);
        crate::sort::lemma_place(
            b.queue,
            crate::topk::far_first(),
            crate::topk::far_first()(x),
            b.queue.len() as int,
        );
        lemma_position_from(b.found, x.0, 0);
        assert forall|k: int| 0 <= k < b.found.len() implies (#[trigger] b.found[k]).1 != n by {
            assert(b.visited[b.found[k].1 as int] != 0);
        }
        let at = crate::topk::position_from(b.found, x.0, 0);
        let all = b.found.insert(at, x);
        assert(distinct(all)) by {
            assert forall|i: int, j: int|
                0 <= i < all.len() && 0 <= j < all.len() && i != j implies (#[trigger] all[i]).1 != (
            #[trigger] all[j]).1 by {
                let i0 = if i < at {
                    i
                } else {
                    i - 1
                };
                let j0 = if j < at {
                    j
                } else {
                    j - 1
                };
                if i != at {
                    assert(all[i] == b.found[i0]);
                }
                if j != at {
                    assert(all[j] == b.found[j0]);
                }
            }
        }
        assert forall|k: int| 0 <= k < all.len() implies (#[trigger] all[k]).1 < b.visited.len()
            && r.visited[all[k].1 as int] != 0 && done.contains(all[k].1) by {
            if k < at {
                assert(all[k] == b.found[k]);
            } else if k > at {
                assert(all[k] == b.found[k - 1]);
            }
        }
        assert(distinct(r.found));
        assert(ids_in(r.found, done));
        assert(ids_in(r.queue, done));
    }
}

proof fn lemma_expand_ok(
    vectors: Vectors,
    q: Seq<i8>,
    ef: int,
    b: Beam,
    ids: Seq<u32>,
    done: Set<u32>,
)
    requires
        beam_ok(b, done),
        forall|k: int| 0 <= k < ids.len() ==> done.contains(#[trigger] ids[k]),
    ensures
        beam_ok(expand(vectors, q, ef, b, ids), done),
    decreases ids.len(),
{
    if ids.len() > 0 {
        let front = ids.drop_last();
        assert forall|k: int| 0 <= k < front.len() implies done.contains(#[trigger] front[k]) by {
            assert(done.contains(ids[k]));
        }
        lemma_expand_ok(vectors, q, ef, b, front, done);
        assert(done.contains(ids[ids.len() - 1]));
        lemma_consider_ok(vectors, q, ef, expand(vectors, q, ef, b, front), ids.last(), done);
    }
}

proof fn lemma_run_ok(vectors: Vectors, q: Seq<i8>, layer: Layer, ef: int, b: Beam, done: Set<u32>)
    requires
        beam_ok(b, done),
        leads_to(layer, done),
    ensures
        beam_ok(run_beam(vectors, q, layer, ef, b), done),
    decreases unseen(b.visited) + b.queue.len(),
{
    if b.queue.len() > 0 {
        let t = popped(b);
        assert(ids_in(t.queue, done)) by {
            assert forall|k: int| 0 <= k < t.queue.len() implies done.contains(
                (#[trigger] t.queue[k]).1,
            ) by {
                assert(t.queue[k] == b.queue[k]);
            }
        }
        if !exhausted(b, ef) {
            let c = b.queue.last().1;
            let ids = neighbours_in(layer, c);
            assert forall|k: int| 0 <= k < ids.len() implies done.contains(#[trigger] ids[k]) by {
                assert(done.contains(neighbours_in(layer, c)[k]));
            }
            lemma_expand_ok(vectors, q, ef, t, ids, done);
            lemma_expand_measure(vectors, q, ef, t, ids);
            lemma_run_ok(vectors, q, layer, ef, expand(vectors, q, ef, t, ids), done);
        }
    }
}

proof fn lemma_near_ok(vectors: Vectors, layer: Layer, q: u32, from: Hit, done: Set<u32>)
    requires
        leads_to(layer, done),
        done.contains(from.1),
        from.1 < vectors.len(),
    ensures
        distinct(near(vectors, layer, q, from)),
        ids_in(near(vectors, layer, q, from), done),
{
    let ef = EF_CONSTRUCTION as int;
    let b = start_beam(unmarked(vectors.len()), Seq::empty(), ef, from);
    lemma_position_from(Seq::empty(), from.0, 0);
    crate::sort::lemma_place(
        Seq::<Hit>::empty(),
        crate::topk::far_first(),
        crate::topk::far_first()(from),
        0,
    );
    assert(beam_ok(b, done));
    lemma_run_ok(vectors, vectors[q as int]@, layer, ef, b, done);
}

proof fn lemma_row_ok(layer: Layer, n: int, w: int, t: u32, ids: Seq<u32>, done: Set<u32>)
    requires
        closed(layer, n),
        rows_have(layer, w),
        n <= HNSW_SENTINEL,
        layer.contains_key(t),
        ids.len() <= w,
        forall|k: int| 0 <= k < ids.len() ==> layer.contains_key(#[trigger] ids[k]),
        proper(layer),
        leads_to(layer, done),
        ids.no_duplicates(),
        !ids.contains(t),
        forall|k: int| 0 <= k < ids.len() ==> done.contains(#[trigger] ids[k]),
    ensures
        proper(layer.insert(t, pad(ids, w))),
        leads_to(layer.insert(t, pad(ids, w)), done),
{
    let after = layer.insert(t, pad(ids, w));
    lemma_set_row(layer, n, w, t, ids);
    assert forall|k: int| 0 <= k < ids.len() implies #[trigger] ids[k] != HNSW_SENTINEL by {
        assert(layer.contains_key(ids[k]));
    }
    law_live_of_pad(ids, w);
    assert forall|id: u32| #[trigger] after.contains_key(id) implies neighbours_in(
        after,
        id,
    ).no_duplicates() && !neighbours_in(after, id).contains(id) && tidy(after[id]) by {
        if id != t {
            assert(layer.contains_key(id));
            assert(neighbours_in(after, id) == neighbours_in(layer, id));
        }
    }
    assert forall|id: u32, k: int|
        after.contains_key(id) && 0 <= k < neighbours_in(after, id).len() implies done.contains(
        #[trigger] neighbours_in(after, id)[k],
    ) by {
        if id != t {
            assert(neighbours_in(after, id) == neighbours_in(layer, id));
            assert(done.contains(neighbours_in(layer, id)[k]));
        } else {
            assert(done.contains(ids[k]));
        }
    }
}

proof fn lemma_back_edge_ok(
    vectors: Vectors,
    layer: Layer,
    n: int,
    w: int,
    t: u32,
    new: u32,
    done: Set<u32>,
)
    requires
        closed(layer, n),
        rows_have(layer, w),
        n <= HNSW_SENTINEL,
        0 <= w,
        layer.contains_key(t),
        layer.contains_key(new),
        t != new,
        proper(layer),
        leads_to(layer, done),
        done.contains(new),
    ensures
        proper(back_edge(vectors, layer, w, t, new)),
        leads_to(back_edge(vectors, layer, w, t, new), done),
{
    let ids = live(layer[t]);
    assert(ids == neighbours_in(layer, t));
    if !ids.contains(new) {
        let all = ids.push(new);
        let cands = hits_of(vectors, t, all);
        let sel = select(vectors, cands, w);
        assert(distinct(cands)) by {
            assert forall|a: int, b: int|
                0 <= a < cands.len() && 0 <= b < cands.len() && a != b implies (#[trigger] cands[a]).1 != (
            #[trigger] cands[b]).1 by {
                assert(cands[a].1 == all[a] && cands[b].1 == all[b]);
                if a < ids.len() && b < ids.len() {
                    assert(ids[a] != ids[b]);
                } else if a < ids.len() {
                    assert(ids.contains(ids[a]));
                } else {
                    assert(ids.contains(ids[b]));
                }
            }
        }
        lemma_select_distinct(vectors, cands, w);
        law_select(vectors, cands, w);
        assert forall|k: int| 0 <= k < sel.len() implies layer.contains_key(#[trigger] sel[k])
            && done.contains(sel[k]) && sel[k] != t by {
            assert(among(cands, sel[k]));
            let j = choose|j: int| 0 <= j < cands.len() && (#[trigger] cands[j]).1 == sel[k];
            assert(cands[j].1 == all[j]);
            if j < ids.len() {
                assert(neighbours_in(layer, t)[j] == ids[j]);
                assert(layer.contains_key(neighbours_in(layer, t)[j]));
                assert(done.contains(neighbours_in(layer, t)[j]));
                assert(ids.contains(ids[j]));
            }
        }
        lemma_row_ok(layer, n, w, t, sel, done);
    }
}

proof fn lemma_link_ok(
    vectors: Vectors,
    layer: Layer,
    n: int,
    w: int,
    ids: Seq<u32>,
    new: u32,
    done: Set<u32>,
)
    requires
        closed(layer, n),
        rows_have(layer, w),
        n <= HNSW_SENTINEL,
        0 <= w,
        forall|k: int| 0 <= k < ids.len() ==> layer.contains_key(#[trigger] ids[k]) && ids[k] != new,
        layer.contains_key(new),
        proper(layer),
        leads_to(layer, done),
        done.contains(new),
    ensures
        proper(link(vectors, layer, w, ids, new)),
        leads_to(link(vectors, layer, w, ids, new), done),
    decreases ids.len(),
{
    if ids.len() > 0 {
        let front = ids.drop_last();
        assert forall|k: int| 0 <= k < front.len() implies layer.contains_key(#[trigger] front[k])
            && front[k] != new by {
            assert(layer.contains_key(ids[k]));
        }
        lemma_link_ok(vectors, layer, n, w, front, new, done);
        lemma_link(vectors, layer, n, w, front, new);
        let mid = link(vectors, layer, w, front, new);
        assert(layer.contains_key(ids[ids.len() - 1]) && ids.last() != new);
        assert(mid.dom().contains(ids.last()));
        assert(mid.dom().contains(new));
        lemma_back_edge_ok(vectors, mid, n, w, ids.last(), new, done);
    }
}

proof fn lemma_attached_ok(
    vectors: Vectors,
    layer: Layer,
    n: int,
    w: int,
    q: u32,
    found: Seq<Hit>,
    done: Set<u32>,
)
    requires
        closed(layer, n),
        rows_have(layer, w),
        n <= HNSW_SENTINEL,
        0 <= w,
        layer.contains_key(q),
        crate::beam::all_in(found, layer),
        proper(layer),
        leads_to(layer, done),
        distinct(found),
        ids_in(found, done),
        !done.contains(q),
    ensures
        proper(attached(vectors, layer, w, q, found)),
        leads_to(attached(vectors, layer, w, q, found), done.insert(q)),
{
    let sel = select(vectors, found, w);
    let more = done.insert(q);
    lemma_selected_in(vectors, layer, w, found);
    lemma_select_distinct(vectors, found, w);
    law_select(vectors, found, w);
    assert forall|k: int| 0 <= k < sel.len() implies done.contains(#[trigger] sel[k]) by {
        assert(among(found, sel[k]));
        let j = choose|j: int| 0 <= j < found.len() && (#[trigger] found[j]).1 == sel[k];
        assert(done.contains(found[j].1));
    }
    assert(!sel.contains(q));
    assert(leads_to(layer, more)) by {
        assert forall|id: u32, k: int|
            layer.contains_key(id) && 0 <= k < neighbours_in(layer, id).len() implies more.contains(
            #[trigger] neighbours_in(layer, id)[k],
        ) by {
            assert(done.contains(neighbours_in(layer, id)[k]));
        }
    }
    assert forall|k: int| 0 <= k < sel.len() implies more.contains(#[trigger] sel[k]) by {
        assert(done.contains(sel[k]));
    }
    lemma_set_row(layer, n, w, q, sel);
    lemma_row_ok(layer, n, w, q, sel, more);
    let wired = layer.insert(q, pad(sel, w));
    assert forall|k: int| 0 <= k < sel.len() implies wired.contains_key(#[trigger] sel[k]) && sel[k]
        != q by {
        assert(layer.contains_key(sel[k]));
        assert(sel.contains(sel[k]));
    }
    lemma_link_ok(vectors, wired, n, w, sel, q, more);
}

/// Every layer is proper and leads to nodes of `done` alone.
pub open spec fn edges_ok(layers: Seq<Layer>, done: Set<u32>) -> bool {
    forall|l: int| 0 <= l < layers.len() ==> proper(#[trigger] layers[l]) && leads_to(layers[l], done)
}

proof fn lemma_leads_to_more(layer: Layer, done: Set<u32>, q: u32)
    requires
        leads_to(layer, done),
    ensures
        leads_to(layer, done.insert(q)),
{
    assert forall|id: u32, k: int|
        layer.contains_key(id) && 0 <= k < neighbours_in(layer, id).len() implies done.insert(
        q,
    ).contains(#[trigger] neighbours_in(layer, id)[k]) by {
        assert(done.contains(neighbours_in(layer, id)[k]));
    }
}

proof fn lemma_attach_down_ok(
    vectors: Vectors,
    layers: Seq<Layer>,
    q: u32,
    cur: int,
    from: Hit,
    done: Set<u32>,
)
    requires
        layers_ok(layers, vectors.len() as int),
        vectors.len() <= HNSW_SENTINEL,
        0 <= cur < layers.len(),
        layers[cur].contains_key(q),
        layers[cur].contains_key(from.1),
        done.contains(from.1),
        !done.contains(q),
        forall|l: int| 0 <= l < layers.len() ==> proper(#[trigger] layers[l]),
        forall|l: int| 0 <= l <= cur ==> leads_to(#[trigger] layers[l], done),
        forall|l: int| cur < l < layers.len() ==> leads_to(#[trigger] layers[l], done.insert(q)),
    ensures
        edges_ok(attach_down(vectors, layers, q, cur, from), done.insert(q)),
    decreases cur,
{
    let n = vectors.len() as int;
    let layer = layers[cur];
    let w = width(cur);
    assert(closed(layer, n));
    let found = near(vectors, layer, q, from);
    lemma_near(vectors, layer, n, q, from);
    lemma_near_ok(vectors, layer, q, from, done);
    let next_layer = attached(vectors, layer, w, q, found);
    lemma_attached(vectors, layer, n, w, q, found);
    lemma_attached_ok(vectors, layer, n, w, q, found, done);
    lemma_layers_ok_update(layers, n, cur, next_layer);
    let after = layers.update(cur, next_layer);
    assert forall|l: int| 0 <= l < after.len() implies proper(#[trigger] after[l]) by {
        if l != cur {
            assert(after[l] == layers[l]);
        }
    }
    assert forall|l: int| cur <= l < after.len() implies leads_to(
        #[trigger] after[l],
        done.insert(q),
    ) by {
        if l != cur {
            assert(after[l] == layers[l]);
        }
    }
    if cur > 0 {
        let next = next_start(found, from);
        if found.len() > 0 {
            assert(layers[cur].contains_key(found[0].1));
            assert(done.contains(found[0].1));
        }
        assert(layers[cur - 1].contains_key(q));
        assert(layers[cur - 1].contains_key(next.1));
        assert(after[cur - 1] == layers[cur - 1]);
        assert forall|l: int| 0 <= l <= cur - 1 implies leads_to(#[trigger] after[l], done) by {
            assert(after[l] == layers[l]);
        }
        lemma_attach_down_ok(vectors, after, q, cur - 1, next, done);
    }
}

proof fn lemma_greedy_in_done(vectors: Vectors, q: Seq<i8>, layer: Layer, from: Hit, done: Set<u32>)
    requires
        leads_to(layer, done),
        done.contains(from.1),
    ensures
        done.contains(greedy(vectors, q, layer, from).1),
    decreases from.0,
{
    let ids = neighbours_in(layer, from.1);
    let next = nearest_in(vectors, q, ids, from);
    crate::beam::lemma_nearest_in_member(vectors, q, ids, from);
    if next.0 < from.0 {
        if ids.contains(next.1) {
            let k = choose|k: int| 0 <= k < ids.len() && ids[k] == next.1;
            assert(done.contains(neighbours_in(layer, from.1)[k]));
        }
        lemma_greedy_in_done(vectors, q, layer, next, done);
    }
}

proof fn lemma_descend_in_done(
    vectors: Vectors,
    q: Seq<i8>,
    layers: Seq<Layer>,
    cur: int,
    to: int,
    from: Hit,
    done: Set<u32>,
)
    requires
        edges_ok(layers, done),
        0 <= cur < layers.len(),
        done.contains(from.1),
    ensures
        done.contains(descend(vectors, q, layers, cur, to, from).1),
    decreases cur,
{
    if cur > to && cur > 0 {
        assert(leads_to(layers[cur], done));
        lemma_greedy_in_done(vectors, q, layers[cur], from, done);
        lemma_descend_in_done(
            vectors,
            q,
            layers,
            cur - 1,
            to,
            greedy(vectors, q, layers[cur], from),
            done,
        );
    }
}

proof fn lemma_registered_edges(layers: Seq<Layer>, q: u32, level: int, done: Set<u32>)
    requires
        edges_ok(layers, done),
    ensures
        edges_ok(registered(layers, q, level), done),
{
    let after = registered(layers, q, level);
    let none = Seq::<u32>::empty();
    law_live_of_pad(none, HNSW_M as int);
    assert forall|l: int| 0 <= l < after.len() implies proper(#[trigger] after[l]) && leads_to(
        after[l],
        done,
    ) by {
        let was = layers[l];
        let now = after[l];
        assert(proper(was) && leads_to(was, done));
        assert forall|id: u32| #[trigger] now.contains_key(id) implies neighbours_in(
            now,
            id,
        ).no_duplicates() && !neighbours_in(now, id).contains(id) && tidy(now[id]) by {
            if was.contains_key(id) {
                assert(neighbours_in(now, id) == neighbours_in(was, id));
            } else {
                assert(neighbours_in(now, id) == none);
            }
        }
        assert forall|id: u32, k: int|
            now.contains_key(id) && 0 <= k < neighbours_in(now, id).len() implies done.contains(
            #[trigger] neighbours_in(now, id)[k],
        ) by {
            if was.contains_key(id) {
                assert(neighbours_in(now, id) == neighbours_in(was, id));
                assert(done.contains(neighbours_in(was, id)[k]));
            }
        }
    }
}

/// Inserting a node that no edge leads to yet keeps every edge leading to another node and no two edges
/// of a node to the same; after it, edges lead to the nodes they led to before and to the new one.
pub proof fn law_insert_keeps_edges_proper(
    vectors: Vectors,
    g: Graph,
    q: u32,
    level: int,
    done: Set<u32>,
)
    requires
        g.sound(vectors.len() as int),
        vectors.len() <= HNSW_SENTINEL,
        q < vectors.len(),
        0 <= level < g.layers.len(),
        edges_ok(g.layers, done),
        done.contains(g.entry),
        !done.contains(q),
    ensures
        edges_ok(inserted(vectors, g, q, level).layers, done.insert(q)),
{
    let n = vectors.len() as int;
    let layers = registered(g.layers, q, level);
    let start = (to_query(vectors, vectors[q as int]@, g.entry), g.entry);
    let low = if g.top < level {
        g.top
    } else {
        level
    };
    lemma_registered(g.layers, n, q, level);
    lemma_registered_edges(g.layers, q, level, done);
    assert(layers[g.top].contains_key(g.entry));
    lemma_descend(vectors, vectors[q as int]@, layers, n, g.top, level, start);
    lemma_descend_in_done(vectors, vectors[q as int]@, layers, g.top, level, start, done);
    let from = descend(vectors, vectors[q as int]@, layers, g.top, level, start);
    assert(layers[low].contains_key(q));
    assert forall|l: int| low < l < layers.len() implies leads_to(
        #[trigger] layers[l],
        done.insert(q),
    ) by {
        lemma_leads_to_more(layers[l], done, q);
    }
    lemma_attach_down_ok(vectors, layers, q, low, from, done);
}

proof fn lemma_insert_all_edges(vectors: Vectors, levels: Seq<u8>, order: Seq<u32>)
    requires
        order.len() > 0,
        vectors.len() <= HNSW_SENTINEL,
        forall|k: int| 0 <= k < order.len() ==> (#[trigger] order[k]) < vectors.len(),
        falling(order, levels),
        order.no_duplicates(),
    ensures
        edges_ok(insert_all(vectors, levels, order).layers, order.to_set()),
    decreases order.len(),
{
    let g = insert_all(vectors, levels, order);
    if order.len() == 1 {
        let n = vectors.len() as int;
        let none = Seq::<u32>::empty();
        law_live_of_pad(none, HNSW_M as int);
        law_live_of_pad(none, crate::consts::HNSW_M0 as int);
        assert forall|l: int| 0 <= l < g.layers.len() implies proper(#[trigger] g.layers[l]) && leads_to(
            g.layers[l],
            order.to_set(),
        ) by {
            let now = g.layers[l];
            assert forall|id: u32| #[trigger] now.contains_key(id) implies neighbours_in(now, id)
                == none && tidy(now[id]) by {}
        }
    } else {
        let front = order.drop_last();
        let q = order.last();
        let last = order.len() - 1;
        assert forall|k: int| 0 <= k < front.len() implies (#[trigger] front[k]) < vectors.len() by {
            assert(order[k] < vectors.len());
        }
        assert(falling(front, levels)) by {
            assert forall|a: int, b: int| 0 <= a <= b < front.len() implies levels[
                #[trigger] front[a] as int] >= levels[#[trigger] front[b] as int] by {
                assert(levels[order[a] as int] >= levels[order[b] as int]);
            }
        }
        lemma_insert_all_edges(vectors, levels, front);
        lemma_insert_all(vectors, levels, front);
        let h = insert_all(vectors, levels, front);
        let done = front.to_set();
        assert(order[last] == q);
        assert(levels[order[0] as int] >= levels[order[last] as int]);
        assert(front[0] == order[0]);
        assert(front.contains(front[0]));
        assert(!done.contains(q)) by {
            if front.contains(q) {
                let k = choose|k: int| 0 <= k < front.len() && front[k] == q;
                assert(order[k] == order[last]);
            }
        }
        law_insert_keeps_edges_proper(vectors, h, q, levels[q as int] as int, done);
        assert(order.to_set() =~= done.insert(q)) by {
            assert forall|x: u32| order.to_set().contains(x) <==> done.insert(q).contains(x) by {
                if order.contains(x) && x != q {
                    let k = choose|k: int| 0 <= k < order.len() && order[k] == x;
                    assert(front[k] == x);
                }
                if front.contains(x) {
                    let k = choose|k: int| 0 <= k < front.len() && front[k] == x;
                    assert(order[k] == x);
                }
                assert(order.contains(order[last]));
            }
        }
    }
}

/// In the graph that is built every edge leads to another node, no two edges of a node lead to the same, and
/// behind its edges a row has sentinels alone.
pub proof fn law_built_edges_are_proper(vectors: Vectors, levels: Seq<u8>, seed: u64)
    requires
        0 < vectors.len() <= HNSW_SENTINEL,
    ensures
        forall|l: int|
            0 <= l < built(vectors, levels, seed).layers.len() ==> proper(
                #[trigger] built(vectors, levels, seed).layers[l],
            ),
{
    let order = insertion_order(vectors.len() as int, levels, seed);
    law_insertion_order(vectors.len() as int, levels, seed);
    lemma_insert_all_edges(vectors, levels, order);
}

/// In the graph that is built a row is the node's neighbours, filled up with sentinels to the width of the
/// layer.
pub proof fn law_built_rows_are_filled_up(
    vectors: Vectors,
    levels: Seq<u8>,
    seed: u64,
    l: int,
    id: u32,
)
    requires
        0 < vectors.len() <= HNSW_SENTINEL,
        0 <= l < built(vectors, levels, seed).layers.len(),
        built(vectors, levels, seed).layers[l].contains_key(id),
    ensures
        ({
            let layer = built(vectors, levels, seed).layers[l];
            layer[id] == pad(neighbours_in(layer, id), width(l))
        }),
{
    let layer = built(vectors, levels, seed).layers[l];
    law_built_edges_are_proper(vectors, levels, seed);
    law_built_graph(vectors, levels, seed);
    assert(rows_have(layer, width(l)));
    assert(tidy(layer[id]));
    lemma_live_end(layer[id], 0);
    assert(layer[id] =~= pad(neighbours_in(layer, id), width(l)));
}

} // verus!
