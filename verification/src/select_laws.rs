//! How neighbours are chosen and edges are made.
use crate::beam::{between, closed, to_query, Vectors};
use crate::consts::HNSW_SENTINEL;
use crate::edges::{distinct, lemma_select_distinct};
use crate::hnsw_build::{
    attach_down, attached, descend, insert_all, inserted, near, next_start, registered, width, Graph,
};
use crate::layer::{law_live_of_pad, neighbours_in, pad, Layer};
use crate::select::{
    among, back_edge, diverse, hits_of, law_select, lemma_pick, link, pick, rows_have, select, top_up,
    Pick,
};
use crate::sort::{ascending, first_u32, law_stable_sort, stable_sort};
use crate::topk::Hit;
use vstd::prelude::*;

verus! {

/// `e` is nearer to one of the first `s` of `ids` than to the target, from which it is `d` away.
pub open spec fn shadowed(vectors: Vectors, ids: Seq<u32>, s: int, d: u32, e: u32) -> bool {
    exists|i: int| 0 <= i < s && between(vectors, e, #[trigger] ids[i]) < d
}

/// What holds of candidates that were gone through in order.
spec fn picked(vectors: Vectors, dist: spec_fn(u32) -> u32, cands: Seq<Hit>, m: int, p: Pick) -> bool {
    &&& forall|i: int, j: int|
        0 <= i < j < p.chosen.len() ==> between(
            vectors,
            #[trigger] p.chosen[j],
            #[trigger] p.chosen[i],
        ) >= dist(p.chosen[j]) && dist(p.chosen[i]) <= dist(p.chosen[j])
    &&& forall|k: int|
        0 <= k < p.passed.len() ==> shadowed(
            vectors,
            p.chosen,
            p.chosen.len() as int,
            dist(#[trigger] p.passed[k]),
            p.passed[k],
        )
    &&& forall|i: int, j: int|
        0 <= i < j < p.passed.len() ==> dist(#[trigger] p.passed[i]) <= dist(#[trigger] p.passed[j])
    &&& forall|k: int|
        0 <= k < cands.len() ==> p.chosen.contains((#[trigger] cands[k]).1) || p.passed.contains(
            cands[k].1,
        ) || (p.chosen.len() == m && forall|i: int|
            0 <= i < m ==> dist(#[trigger] p.chosen[i]) <= cands[k].0)
    &&& cands.len() > 0 && m > 0 ==> p.chosen.len() > 0 && p.chosen[0] == cands[0].1
    &&& cands.len() == 0 ==> p.chosen.len() == 0 && p.passed.len() == 0
}

proof fn lemma_push_contains(s: Seq<u32>, x: u32, y: u32)
    ensures
        s.push(x).contains(y) <==> s.contains(y) || y == x,
{
    if s.contains(y) {
        let i = choose|i: int| 0 <= i < s.len() && s[i] == y;
        assert(s.push(x)[i] == y);
    }
    assert(s.push(x)[s.len() as int] == x);
}

proof fn lemma_picked(vectors: Vectors, dist: spec_fn(u32) -> u32, cands: Seq<Hit>, m: int)
    requires
        0 <= m,
        ascending(cands, first_u32()),
        forall|k: int| 0 <= k < cands.len() ==> (#[trigger] cands[k]).0 == dist(cands[k].1),
    ensures
        picked(vectors, dist, cands, m, pick(vectors, cands, m)),
    decreases cands.len(),
{
    if cands.len() > 0 {
        let front = cands.drop_last();
        let n = cands.len() - 1;
        let (d, e) = cands.last();
        assert(cands[n] == (d, e));
        assert(ascending(front, first_u32())) by {
            assert forall|i: int, j: int| 0 <= i <= j < front.len() implies first_u32()(
                #[trigger] front[i],
            ) <= first_u32()(#[trigger] front[j]) by {
                assert(first_u32()(cands[i]) <= first_u32()(cands[j]));
            }
        }
        assert forall|k: int| 0 <= k < front.len() implies (#[trigger] front[k]).0 == dist(front[k].1) by {
            assert(cands[k].0 == dist(cands[k].1));
        }
        lemma_picked(vectors, dist, front, m);
        lemma_pick(vectors, front, m);
        let p = pick(vectors, front, m);
        let r = pick(vectors, cands, m);
        assert forall|id: u32| among(front, id) implies dist(id) <= d by {
            let k = choose|k: int| 0 <= k < front.len() && (#[trigger] front[k]).1 == id;
            assert(first_u32()(cands[k]) <= first_u32()(cands[n]));
            assert(cands[k].0 == dist(cands[k].1));
        }
        assert forall|i: int| 0 <= i < p.chosen.len() implies dist(#[trigger] p.chosen[i]) <= d by {
            assert(among(front, p.chosen[i]));
        }
        assert forall|i: int| 0 <= i < p.passed.len() implies dist(#[trigger] p.passed[i]) <= d by {
            assert(among(front, p.passed[i]));
        }
        assert(d == dist(e));
        if n > 0 {
            assert(front[0] == cands[0]);
        }
        if p.chosen.len() == m {
            assert forall|k: int| 0 <= k < cands.len() implies r.chosen.contains((#[trigger] cands[k]).1)
                || r.passed.contains(cands[k].1) || (r.chosen.len() == m && forall|i: int|
                0 <= i < m ==> dist(#[trigger] r.chosen[i]) <= cands[k].0) by {
                if k < n {
                    assert(front[k] == cands[k]);
                }
            }
        } else if diverse(vectors, p.chosen, d, e) {
            assert(r.chosen == p.chosen.push(e));
            assert forall|i: int, j: int| 0 <= i < j < r.chosen.len() implies between(
                vectors,
                #[trigger] r.chosen[j],
                #[trigger] r.chosen[i],
            ) >= dist(r.chosen[j]) && dist(r.chosen[i]) <= dist(r.chosen[j]) by {
                assert(r.chosen[i] == p.chosen[i]);
                if j < p.chosen.len() {
                    assert(r.chosen[j] == p.chosen[j]);
                }
            }
            assert forall|k: int| 0 <= k < r.passed.len() implies shadowed(
                vectors,
                r.chosen,
                r.chosen.len() as int,
                dist(#[trigger] r.passed[k]),
                r.passed[k],
            ) by {
                assert(shadowed(
                    vectors,
                    p.chosen,
                    p.chosen.len() as int,
                    dist(p.passed[k]),
                    p.passed[k],
                ));
                let i = choose|i: int|
                    0 <= i < p.chosen.len() && between(vectors, p.passed[k], #[trigger] p.chosen[i])
                        < dist(p.passed[k]);
                assert(r.chosen[i] == p.chosen[i]);
            }
            assert forall|k: int| 0 <= k < cands.len() implies r.chosen.contains((#[trigger] cands[k]).1)
                || r.passed.contains(cands[k].1) || (r.chosen.len() == m && forall|i: int|
                0 <= i < m ==> dist(#[trigger] r.chosen[i]) <= cands[k].0) by {
                lemma_push_contains(p.chosen, e, cands[k].1);
                if k < n {
                    assert(front[k] == cands[k]);
                }
            }
        } else {
            assert(r.passed == p.passed.push(e));
            let b = choose|b: int|
                0 <= b < p.chosen.len() && between(vectors, e, #[trigger] p.chosen[b]) < d;
            assert(shadowed(vectors, p.chosen, p.chosen.len() as int, d, e));
            assert forall|k: int| 0 <= k < r.passed.len() implies shadowed(
                vectors,
                r.chosen,
                r.chosen.len() as int,
                dist(#[trigger] r.passed[k]),
                r.passed[k],
            ) by {
                if k < p.passed.len() {
                    assert(r.passed[k] == p.passed[k]);
                    assert(shadowed(
                        vectors,
                        p.chosen,
                        p.chosen.len() as int,
                        dist(p.passed[k]),
                        p.passed[k],
                    ));
                }
            }
            assert forall|i: int, j: int| 0 <= i < j < r.passed.len() implies dist(
                #[trigger] r.passed[i],
            ) <= dist(#[trigger] r.passed[j]) by {
                assert(r.passed[i] == p.passed[i]);
                if j < p.passed.len() {
                    assert(r.passed[j] == p.passed[j]);
                }
            }
            assert forall|k: int| 0 <= k < cands.len() implies r.chosen.contains((#[trigger] cands[k]).1)
                || r.passed.contains(cands[k].1) || (r.chosen.len() == m && forall|i: int|
                0 <= i < m ==> dist(#[trigger] r.chosen[i]) <= cands[k].0) by {
                lemma_push_contains(p.passed, e, cands[k].1);
                if k < n {
                    assert(front[k] == cands[k]);
                }
            }
        }
    }
}

/// Of candidates with their distances from a target, the first `s` selected are diverse: ascending by
/// distance, the nearest of all first, and each no nearer to any before it than to the target. Those behind
/// them, ascending too, are each nearer to one of these. A candidate that is not selected is nearer to one of
/// these as well, or no nearer to the target than `m` diverse ones.
pub proof fn law_selection(
    vectors: Vectors,
    dist: spec_fn(u32) -> u32,
    cands: Seq<Hit>,
    m: int,
) -> (s: int)
    requires
        0 <= m,
        forall|k: int| 0 <= k < cands.len() ==> (#[trigger] cands[k]).0 == dist(cands[k].1),
    ensures
        ({
            let sel = select(vectors, cands, m);
            &&& 0 <= s <= sel.len()
            &&& cands.len() > 0 && m > 0 ==> s > 0 && forall|k: int|
                0 <= k < cands.len() ==> dist(sel[0]) <= (#[trigger] cands[k]).0
            &&& forall|i: int, j: int|
                0 <= i < j < s ==> between(vectors, #[trigger] sel[j], #[trigger] sel[i]) >= dist(sel[j])
                    && dist(sel[i]) <= dist(sel[j])
            &&& forall|j: int|
                s <= j < sel.len() ==> shadowed(vectors, sel, s, dist(#[trigger] sel[j]), sel[j])
            &&& forall|i: int, j: int|
                s <= i < j < sel.len() ==> dist(#[trigger] sel[i]) <= dist(#[trigger] sel[j])
            &&& forall|k: int|
                0 <= k < cands.len() && !sel.contains((#[trigger] cands[k]).1) ==> shadowed(
                    vectors,
                    sel,
                    s,
                    cands[k].0,
                    cands[k].1,
                ) || (s == m && forall|i: int|
                    0 <= i < s ==> dist(#[trigger] sel[i]) <= cands[k].0)
        }),
{
    broadcast use vstd::seq_lib::group_to_multiset_ensures;

    let sorted = stable_sort(cands, first_u32());
    law_stable_sort(cands, first_u32());
    assert forall|k: int| 0 <= k < sorted.len() implies (#[trigger] sorted[k]).0 == dist(sorted[k].1) by {
        assert(sorted.contains(sorted[k]));
        assert(sorted.to_multiset().count(sorted[k]) > 0);
        assert(cands.contains(sorted[k]));
        let i = choose|i: int| 0 <= i < cands.len() && cands[i] == sorted[k];
        assert(cands[i].0 == dist(cands[i].1));
    }
    lemma_picked(vectors, dist, sorted, m);
    lemma_pick(vectors, sorted, m);
    let p = pick(vectors, sorted, m);
    let sel = select(vectors, cands, m);
    let s = p.chosen.len() as int;
    assert(sel == top_up(p, m));
    assert forall|i: int| 0 <= i < s implies #[trigger] sel[i] == p.chosen[i] by {}
    assert forall|j: int| s <= j < sel.len() implies #[trigger] sel[j] == p.passed[j - s] by {}
    assert forall|e: u32, d: u32|
        shadowed(vectors, p.chosen, s, d, e) implies #[trigger] shadowed(vectors, sel, s, d, e) by {
        let i = choose|i: int| 0 <= i < s && between(vectors, e, #[trigger] p.chosen[i]) < d;
        assert(sel[i] == p.chosen[i]);
    }
    assert forall|k: int| 0 <= k < cands.len() implies sorted.contains(#[trigger] cands[k]) by {
        assert(cands.contains(cands[k]));
        assert(cands.to_multiset().count(cands[k]) > 0);
    }
    if cands.len() > 0 && m > 0 {
        assert(sel[0] == sorted[0].1);
        assert forall|k: int| 0 <= k < cands.len() implies dist(sel[0]) <= (#[trigger] cands[k]).0 by {
            let i = choose|i: int| 0 <= i < sorted.len() && sorted[i] == cands[k];
            assert(first_u32()(sorted[0]) <= first_u32()(sorted[i]));
            assert(sorted[0].0 == dist(sorted[0].1));
        }
    }
    assert forall|i: int, j: int| 0 <= i < j < s implies between(
        vectors,
        #[trigger] sel[j],
        #[trigger] sel[i],
    ) >= dist(sel[j]) && dist(sel[i]) <= dist(sel[j]) by {
        assert(sel[i] == p.chosen[i] && sel[j] == p.chosen[j]);
    }
    assert forall|j: int| s <= j < sel.len() implies shadowed(
        vectors,
        sel,
        s,
        dist(#[trigger] sel[j]),
        sel[j],
    ) by {
        assert(shadowed(vectors, p.chosen, s, dist(p.passed[j - s]), p.passed[j - s]));
    }
    assert forall|i: int, j: int| s <= i < j < sel.len() implies dist(#[trigger] sel[i]) <= dist(
        #[trigger] sel[j],
    ) by {
        assert(dist(p.passed[i - s]) <= dist(p.passed[j - s]));
    }
    assert forall|k: int| 0 <= k < cands.len() && !sel.contains((#[trigger] cands[k]).1) implies shadowed(
        vectors,
        sel,
        s,
        cands[k].0,
        cands[k].1,
    ) || (s == m && forall|i: int| 0 <= i < s ==> dist(#[trigger] sel[i]) <= cands[k].0) by {
        let i = choose|i: int| 0 <= i < sorted.len() && sorted[i] == cands[k];
        let e = cands[k].1;
        assert(sorted[i].0 == dist(sorted[i].1));
        if p.chosen.contains(e) {
            let a = choose|a: int| 0 <= a < p.chosen.len() && p.chosen[a] == e;
            assert(sel[a] == e);
        } else if p.passed.contains(e) {
            let a = choose|a: int| 0 <= a < p.passed.len() && p.passed[a] == e;
            assert(shadowed(vectors, p.chosen, s, dist(p.passed[a]), p.passed[a]));
        } else {
            assert forall|a: int| 0 <= a < s implies dist(#[trigger] sel[a]) <= cands[k].0 by {
                assert(sel[a] == p.chosen[a]);
            }
        }
    }
    s
}

proof fn lemma_all_selected(vectors: Vectors, cands: Seq<Hit>, m: int, k: int)
    requires
        distinct(cands),
        cands.len() <= m,
        0 <= k < cands.len(),
    ensures
        select(vectors, cands, m).contains(cands[k].1),
{
    let sel = select(vectors, cands, m);
    let ids = cands.map_values(|h: Hit| h.1);
    law_select(vectors, cands, m);
    lemma_select_distinct(vectors, cands, m);
    assert(ids.no_duplicates()) by {
        assert forall|a: int, b: int|
            0 <= a < ids.len() && 0 <= b < ids.len() && a != b implies ids[a] != ids[b] by {
            assert(cands[a].1 != cands[b].1);
        }
    }
    sel.unique_seq_to_set();
    ids.unique_seq_to_set();
    assert(sel.to_set().subset_of(ids.to_set())) by {
        assert forall|x: u32| sel.to_set().contains(x) implies ids.to_set().contains(x) by {
            let a = choose|a: int| 0 <= a < sel.len() && sel[a] == x;
            assert(among(cands, sel[a]));
            let b = choose|b: int| 0 <= b < cands.len() && (#[trigger] cands[b]).1 == sel[a];
            assert(ids[b] == x);
        }
    }
    vstd::set_lib::lemma_subset_equality(sel.to_set(), ids.to_set());
    assert(ids[k] == cands[k].1);
    assert(ids.to_set().contains(ids[k]));
}

/// A node that is asked for an edge has it afterwards if it had it before or has a free slot, and keeps the
/// others then; if it has none, it keeps as many as it has slots, out of those it had and the new one. No other
/// row changes.
pub proof fn law_edge_back(vectors: Vectors, layer: Layer, n: int, w: int, t: u32, new: u32)
    requires
        closed(layer, n),
        rows_have(layer, w),
        n <= 0xFF_FFFF,
        0 <= w,
        layer.contains_key(t),
        layer.contains_key(new),
        neighbours_in(layer, t).no_duplicates(),
    ensures
        ({
            let before = neighbours_in(layer, t);
            let after = back_edge(vectors, layer, w, t, new);
            let now = neighbours_in(after, t);
            &&& after.dom() == layer.dom()
            &&& forall|id: u32| id != t ==> #[trigger] after[id] == layer[id]
            &&& before.contains(new) ==> after == layer
            &&& !before.contains(new) && before.len() < w ==> now.len() == before.len() + 1 && now.contains(
                new,
            ) && forall|k: int| 0 <= k < before.len() ==> now.contains(#[trigger] before[k])
            &&& !before.contains(new) && before.len() >= w ==> now.len() == w && forall|k: int|
                0 <= k < now.len() ==> before.contains(#[trigger] now[k]) || now[k] == new
        }),
{
    let before = neighbours_in(layer, t);
    let after = back_edge(vectors, layer, w, t, new);
    if !before.contains(new) {
        let all = before.push(new);
        let cands = hits_of(vectors, t, all);
        let sel = select(vectors, cands, w);
        law_select(vectors, cands, w);
        assert forall|k: int| 0 <= k < sel.len() implies layer.contains_key(#[trigger] sel[k]) && (
        before.contains(sel[k]) || sel[k] == new) by {
            assert(among(cands, sel[k]));
            let i = choose|i: int| 0 <= i < cands.len() && (#[trigger] cands[i]).1 == sel[k];
            assert(cands[i].1 == all[i]);
            if i < before.len() {
                assert(all[i] == before[i]);
                assert(layer.contains_key(before[i]));
            }
        }
        assert forall|k: int| 0 <= k < sel.len() implies #[trigger] sel[k] != HNSW_SENTINEL by {
            assert(layer.contains_key(sel[k]));
        }
        law_live_of_pad(sel, w);
        assert(neighbours_in(after, t) == sel);
        assert(after.dom() =~= layer.dom());
        if before.len() < w {
            assert(distinct(cands)) by {
                assert forall|a: int, b: int|
                    0 <= a < cands.len() && 0 <= b < cands.len() && a != b implies (#[trigger] cands[a]).1
                    != (#[trigger] cands[b]).1 by {
                    assert(cands[a].1 == all[a] && cands[b].1 == all[b]);
                    if a < before.len() && b < before.len() {
                        assert(before[a] != before[b]);
                    } else if a < before.len() {
                        assert(before.contains(before[a]));
                    } else {
                        assert(before.contains(before[b]));
                    }
                }
            }
            let last = before.len() as int;
            lemma_all_selected(vectors, cands, w, last);
            assert(cands[last].1 == new);
            assert forall|k: int| 0 <= k < before.len() implies sel.contains(#[trigger] before[k]) by {
                lemma_all_selected(vectors, cands, w, k);
                assert(cands[k].1 == all[k]);
            }
        }
    }
}

proof fn lemma_link_rows(vectors: Vectors, layer: Layer, w: int, ids: Seq<u32>, new: u32, id: u32)
    requires
        !ids.contains(id),
    ensures
        link(vectors, layer, w, ids, new)[id] == layer[id],
    decreases ids.len(),
{
    if ids.len() > 0 {
        let front = ids.drop_last();
        assert(!front.contains(id)) by {
            if front.contains(id) {
                let k = choose|k: int| 0 <= k < front.len() && front[k] == id;
                assert(ids[k] == id);
            }
        }
        lemma_link_rows(vectors, layer, w, front, new, id);
        assert(ids[ids.len() - 1] != id) by {
            if ids[ids.len() - 1] == id {
                assert(ids.contains(id));
            }
        }
    }
}

/// A node that is attached gets the neighbours selected for it, and only their rows and its own change.
pub proof fn law_attached(vectors: Vectors, layer: Layer, w: int, q: u32, found: Seq<Hit>, id: u32)
    requires
        0 <= w,
        forall|k: int|
            0 <= k < found.len() ==> (#[trigger] found[k]).1 != q && found[k].1 < 0xFF_FFFF,
    ensures
        ({
            let after = attached(vectors, layer, w, q, found);
            let sel = select(vectors, found, w);
            &&& after.contains_key(q) ==> neighbours_in(after, q) == sel
            &&& id != q && !sel.contains(id) ==> after[id] == layer[id]
        }),
{
    let sel = select(vectors, found, w);
    law_select(vectors, found, w);
    assert forall|k: int| 0 <= k < sel.len() implies #[trigger] sel[k] != HNSW_SENTINEL && sel[k] != q by {
        assert(among(found, sel[k]));
    }
    let start = layer.insert(q, pad(sel, w));
    assert(!sel.contains(q));
    lemma_link_rows(vectors, start, w, sel, q, q);
    law_live_of_pad(sel, w);
    if id != q && !sel.contains(id) {
        lemma_link_rows(vectors, start, w, sel, q, id);
    }
}

/// A node of a level above all others becomes the one where searches start. Before it is attached it is put,
/// without neighbours, into the layers from 1 to its level in which it is not; nothing else changes.
pub proof fn law_inserted(vectors: Vectors, g: Graph, q: u32, level: int, l: int, id: u32)
    requires
        0 <= l < g.layers.len(),
    ensures
        level > g.top ==> inserted(vectors, g, q, level).entry == q && inserted(vectors, g, q, level).top
            == level,
        level <= g.top ==> inserted(vectors, g, q, level).entry == g.entry && inserted(
            vectors,
            g,
            q,
            level,
        ).top == g.top,
        registered(g.layers, q, level).len() == g.layers.len(),
        1 <= l <= level && !g.layers[l].contains_key(q) ==> registered(g.layers, q, level)[l]
            == g.layers[l].insert(q, seq![0xFF_FFFFu32, 0xFF_FFFF, 0xFF_FFFF, 0xFF_FFFF, 0xFF_FFFF,
            0xFF_FFFF, 0xFF_FFFF, 0xFF_FFFF]),
        l == 0 || l > level || g.layers[l].contains_key(q) ==> registered(g.layers, q, level)[l]
            == g.layers[l],
{
    assert(pad(Seq::empty(), 8) =~= seq![0xFF_FFFFu32, 0xFF_FFFF, 0xFF_FFFF, 0xFF_FFFF, 0xFF_FFFF,
        0xFF_FFFF, 0xFF_FFFF, 0xFF_FFFF]);
}

/// A node is attached layer by layer, from the top down: in layer `cur` with up to 16 neighbours if it is the
/// base and up to 8 else, and then in the layers below, from the nearest node found, or from where it started
/// if none was. The layers above stay as they are.
pub proof fn law_attach_down(
    vectors: Vectors,
    layers: Seq<Layer>,
    q: u32,
    cur: int,
    from: Hit,
    l: int,
)
    requires
        0 <= cur < layers.len(),
        0 <= l < layers.len(),
    ensures
        ({
            let found = near(vectors, layers[cur], q, from);
            let slots = if cur == 0 {
                16int
            } else {
                8int
            };
            let here = attached(vectors, layers[cur], slots, q, found);
            let next = if found.len() > 0 {
                found[0]
            } else {
                from
            };
            let after = attach_down(vectors, layers, q, cur, from);
            &&& after.len() == layers.len()
            &&& l > cur ==> after[l] == layers[l]
            &&& after[cur] == here
            &&& cur > 0 && l < cur ==> after[l] == attach_down(
                vectors,
                layers.update(cur, here),
                q,
                cur - 1,
                next,
            )[l]
        }),
    decreases cur,
{
    let found = near(vectors, layers[cur], q, from);
    let here = attached(vectors, layers[cur], width(cur), q, found);
    let below = layers.update(cur, here);
    if cur > 0 {
        let next = next_start(found, from);
        law_attach_down(vectors, below, q, cur - 1, next, l);
        law_attach_down(vectors, below, q, cur - 1, next, cur);
    }
}

/// A graph begins with its first node, alone in the layers up to its level, and with an empty row for every node
/// in the base; then the others are inserted in order, each up to its level.
pub proof fn law_insert_all(vectors: Vectors, levels: Seq<u8>, order: Seq<u32>, id: u32)
    requires
        order.len() > 0,
        vectors.len() <= 0xFF_FFFF,
    ensures
        order.len() == 1 ==> {
            let g = insert_all(vectors, levels, order);
            &&& g.entry == order[0]
            &&& g.top == levels[order[0] as int]
            &&& g.layers.len() == levels[order[0] as int] + 1
            &&& g.layers[0].contains_key(id) <==> id < vectors.len()
            &&& id < vectors.len() ==> g.layers[0][id] == Seq::new(16, |k: int| 0xFF_FFFFu32)
        },
        order.len() > 1 ==> insert_all(vectors, levels, order) == inserted(
            vectors,
            insert_all(vectors, levels, order.drop_last()),
            order.last(),
            levels[order.last() as int] as int,
        ),
{
    assert(pad(Seq::empty(), 16) =~= Seq::new(16, |k: int| 0xFF_FFFFu32));
}

/// A node is inserted by a walk from where searches start down to the layer above its level, and is attached
/// from there in the lower of its level and the topmost layer, and below.
pub proof fn law_insertion(vectors: Vectors, g: Graph, q: u32, level: int)
    ensures
        ({
            let layers = registered(g.layers, q, level);
            let at = vectors[q as int]@;
            let from = descend(
                vectors,
                at,
                layers,
                g.top,
                level,
                (to_query(vectors, at, g.entry), g.entry),
            );
            &&& level <= g.top ==> inserted(vectors, g, q, level).layers == attach_down(
                vectors,
                layers,
                q,
                level,
                from,
            )
            &&& level > g.top ==> inserted(vectors, g, q, level).layers == attach_down(
                vectors,
                layers,
                q,
                g.top,
                from,
            )
        }),
{
}

} // verus!
