//! Choosing a node's neighbours so that they lie in different directions.
use crate::beam::{between, closed, dist, Vectors};
use crate::consts::{HNSW_M0, HNSW_SENTINEL, VECTOR_DIM};
use crate::layer::{law_live_of_pad, live, neighbours_in, pad, Layer};
use crate::sort::{first_u32, law_stable_sort, sort_by_u32, stable_sort};
use crate::topk::Hit;
use vstd::prelude::*;

verus! {

/// Candidates sorted into chosen ones and passed-over ones.
#[verifier::ext_equal]
pub struct Pick {
    pub chosen: Seq<u32>,
    pub passed: Seq<u32>,
}

/// Whether a candidate `e` at distance `d` is no nearer to any chosen node than to the target.
pub open spec fn diverse(vectors: Vectors, chosen: Seq<u32>, d: u32, e: u32) -> bool {
    forall|k: int| 0 <= k < chosen.len() ==> between(vectors, e, #[trigger] chosen[k]) >= d
}

/// Going through the candidates in order: a diverse one is chosen, any other is passed over, until `m`
/// are chosen.
pub open spec fn pick(vectors: Vectors, cands: Seq<Hit>, m: int) -> Pick
    decreases cands.len(),
{
    if cands.len() == 0 {
        Pick { chosen: Seq::empty(), passed: Seq::empty() }
    } else {
        let p = pick(vectors, cands.drop_last(), m);
        let (d, e) = cands.last();
        if p.chosen.len() == m {
            p
        } else if diverse(vectors, p.chosen, d, e) {
            Pick { chosen: p.chosen.push(e), passed: p.passed }
        } else {
            Pick { chosen: p.chosen, passed: p.passed.push(e) }
        }
    }
}

/// The chosen candidates, topped up with passed-over ones to at most `m`.
pub open spec fn top_up(p: Pick, m: int) -> Seq<u32> {
    let room = m - p.chosen.len();
    p.chosen + p.passed.take(if p.passed.len() < room {
        p.passed.len() as int
    } else {
        room
    })
}

/// At most `m` neighbours out of `cands`: nearest first, diverse ones before others.
pub open spec fn select(vectors: Vectors, cands: Seq<Hit>, m: int) -> Seq<u32> {
    top_up(pick(vectors, stable_sort(cands, first_u32()), m), m)
}

/// `id` is the id of one of the candidates.
pub open spec fn among(cands: Seq<Hit>, id: u32) -> bool {
    exists|k: int| 0 <= k < cands.len() && (#[trigger] cands[k]).1 == id
}

pub proof fn lemma_pick(vectors: Vectors, cands: Seq<Hit>, m: int)
    requires
        0 <= m,
    ensures
        ({
            let p = pick(vectors, cands, m);
            &&& p.chosen.len() <= m
            &&& p.chosen.len() < m ==> p.chosen.len() + p.passed.len() == cands.len()
            &&& p.chosen.len() + p.passed.len() <= cands.len()
            &&& forall|k: int| 0 <= k < p.chosen.len() ==> among(cands, #[trigger] p.chosen[k])
            &&& forall|k: int| 0 <= k < p.passed.len() ==> among(cands, #[trigger] p.passed[k])
        }),
    decreases cands.len(),
{
    if cands.len() > 0 {
        let front = cands.drop_last();
        lemma_pick(vectors, front, m);
        let p = pick(vectors, cands, m);
        let o = pick(vectors, front, m);
        assert forall|id: u32| among(front, id) implies among(cands, id) by {
            let k = choose|k: int| 0 <= k < front.len() && (#[trigger] front[k]).1 == id;
            assert(cands[k].1 == id);
        }
        assert(cands[cands.len() - 1].1 == cands.last().1);
        assert(among(cands, cands.last().1));
        assert forall|k: int| 0 <= k < p.chosen.len() implies among(cands, #[trigger] p.chosen[k]) by {
            if k < o.chosen.len() {
                assert(among(front, o.chosen[k]));
            }
        }
        assert forall|k: int| 0 <= k < p.passed.len() implies among(cands, #[trigger] p.passed[k]) by {
            if k < o.passed.len() {
                assert(among(front, o.passed[k]));
            }
        }
    }
}

/// Every neighbour selected is a candidate, and as many are selected as there are candidates, up to
/// `m`.
pub proof fn law_select(vectors: Vectors, cands: Seq<Hit>, m: int)
    requires
        0 <= m,
    ensures
        forall|k: int|
            0 <= k < select(vectors, cands, m).len() ==> among(
                cands,
                #[trigger] select(vectors, cands, m)[k],
            ),
        select(vectors, cands, m).len() == if cands.len() < m {
            cands.len() as int
        } else {
            m
        },
{
    broadcast use vstd::seq_lib::group_to_multiset_ensures;

    let sorted = stable_sort(cands, first_u32());
    law_stable_sort(cands, first_u32());
    lemma_pick(vectors, sorted, m);
    let p = pick(vectors, sorted, m);
    let out = select(vectors, cands, m);
    assert forall|k: int| 0 <= k < out.len() implies among(cands, #[trigger] out[k]) by {
        if k < p.chosen.len() {
            assert(among(sorted, p.chosen[k]));
        } else {
            assert(among(sorted, p.passed[k - p.chosen.len()]));
        }
        let j = choose|j: int| 0 <= j < sorted.len() && (#[trigger] sorted[j]).1 == out[k];
        assert(sorted.contains(sorted[j]));
        assert(sorted.to_multiset().count(sorted[j]) > 0);
        assert(cands.contains(sorted[j]));
        let i = choose|i: int| 0 <= i < cands.len() && cands[i] == sorted[j];
        assert(cands[i].1 == out[k]);
    }
}

/// Each diverse choice is nearer to the target than to every choice made before it, or equally near.
pub proof fn law_pick_is_diverse(vectors: Vectors, cands: Seq<Hit>, m: int, i: int, j: int)
    requires
        0 <= m,
        0 <= i < j < pick(vectors, cands, m).chosen.len(),
    ensures
        exists|k: int|
            0 <= k < cands.len() && (#[trigger] cands[k]).1 == pick(vectors, cands, m).chosen[j]
                && between(
                vectors,
                pick(vectors, cands, m).chosen[j],
                pick(vectors, cands, m).chosen[i],
            ) >= cands[k].0,
    decreases cands.len(),
{
    let front = cands.drop_last();
    let p = pick(vectors, cands, m);
    let o = pick(vectors, front, m);
    if j < o.chosen.len() {
        law_pick_is_diverse(vectors, front, m, i, j);
        let k = choose|k: int|
            0 <= k < front.len() && (#[trigger] front[k]).1 == o.chosen[j] && between(
                vectors,
                o.chosen[j],
                o.chosen[i],
            ) >= front[k].0;
        assert(cands[k].1 == p.chosen[j]);
    } else {
        assert(between(vectors, cands.last().1, o.chosen[i]) >= cands.last().0);
        assert(cands[cands.len() - 1].1 == p.chosen[j]);
    }
}

/// Sorts the candidates by distance and writes the selected neighbours to `out`.
pub fn select_neighbors_heuristic(
    vectors: &[[i8; VECTOR_DIM]],
    candidates: &mut Vec<Hit>,
    m_use: usize,
    out: &mut [u32; HNSW_M0],
) -> (count: usize)
    requires
        m_use <= HNSW_M0,
        forall|k: int|
            0 <= k < old(candidates)@.len() ==> (#[trigger] old(candidates)@[k]).1 < vectors.len(),
    ensures
        final(candidates)@ == stable_sort(old(candidates)@, first_u32()),
        final(out)@ == pad(select(vectors@, old(candidates)@, m_use as int), HNSW_M0 as int),
        count == select(vectors@, old(candidates)@, m_use as int).len(),
        count <= m_use,
{
    let ghost given = candidates@;
    let sorted: Vec<Hit> = sort_by_u32(candidates);
    proof {
        law_stable_sort(given, first_u32());
        broadcast use vstd::seq_lib::group_to_multiset_ensures;

        assert forall|k: int| 0 <= k < sorted@.len() implies (#[trigger] sorted@[k]).1
            < vectors.len() by {
            assert(sorted@.contains(sorted@[k]));
            assert(sorted@.to_multiset().count(sorted@[k]) > 0);
            assert(given.contains(sorted@[k]));
        }
    }
    let mut r_count: usize = 0;
    let mut discarded: Vec<u32> = Vec::new();
    let mut i: usize = 0;
    let ghost p = pick(vectors@, sorted@, m_use as int);
    assert(sorted@.take(0) =~= Seq::empty());
    while i < sorted.len() && r_count != m_use
        invariant
            m_use <= HNSW_M0,
            i <= sorted.len(),
            r_count <= m_use,
            forall|k: int| 0 <= k < sorted@.len() ==> (#[trigger] sorted@[k]).1 < vectors.len(),
            forall|k: int| 0 <= k < r_count ==> (#[trigger] out@[k]) < vectors.len(),
            ({
                let o = pick(vectors@, sorted@.take(i as int), m_use as int);
                &&& o.chosen == out@.take(r_count as int)
                &&& o.passed == discarded@
            }),
        decreases sorted.len() - i,
    {
        let (d_to_target, e): Hit = sorted[i];
        let ghost o = pick(vectors@, sorted@.take(i as int), m_use as int);
        assert(sorted@.take(i + 1).drop_last() =~= sorted@.take(i as int));
        let mut keep: bool = true;
        let mut r: usize = 0;
        while r < r_count && keep
            invariant
                r <= r_count <= HNSW_M0,
                e < vectors.len(),
                forall|k: int| 0 <= k < r_count ==> (#[trigger] out@[k]) < vectors.len(),
                keep ==> forall|k: int|
                    0 <= k < r ==> between(vectors@, e, #[trigger] out@[k]) >= d_to_target,
                !keep ==> exists|k: int|
                    0 <= k < r_count && between(vectors@, e, #[trigger] out@[k]) < d_to_target,
            decreases r_count - r + (if keep { 1int } else { 0int }),
        {
            let x: u32 = out[r];
            let d_e_r: u32 = dist(vectors, e, x);
            if d_e_r < d_to_target {
                keep = false;
                assert(between(vectors@, e, out@[r as int]) < d_to_target);
            } else {
                r = r + 1;
            }
        }
        proof {
            if keep {
                assert(diverse(vectors@, o.chosen, d_to_target, e));
            } else {
                let k = choose|k: int|
                    0 <= k < r_count && between(vectors@, e, #[trigger] out@[k]) < d_to_target;
                assert(o.chosen[k] == out@[k]);
            }
        }
        if keep {
            let ghost before = out@;
            out[r_count] = e;
            assert(out@.take(r_count + 1) =~= before.take(r_count as int).push(e));
            r_count = r_count + 1;
        } else {
            discarded.push(e);
        }
        i = i + 1;
    }
    proof {
        lemma_pick_stops(vectors@, sorted@, m_use as int, i as int);
        assert(sorted@.take(sorted@.len() as int) =~= sorted@);
    }
    let ghost chosen = p.chosen;
    let mut t: usize = 0;
    assert(out@.take(r_count as int) =~= chosen + discarded@.take(0));
    while t < discarded.len() && r_count != m_use
        invariant
            m_use <= HNSW_M0,
            t <= discarded.len(),
            r_count <= m_use,
            r_count == chosen.len() + t,
            out@.take(r_count as int) == chosen + discarded@.take(t as int),
        decreases discarded.len() - t,
    {
        let ghost before = out@;
        out[r_count] = discarded[t];
        proof {
            assert(out@.take(r_count + 1) =~= before.take(r_count as int).push(
                discarded@[t as int],
            ));
            assert(chosen + discarded@.take(t + 1) =~= (chosen + discarded@.take(t as int)).push(
                discarded@[t as int],
            ));
        }
        r_count = r_count + 1;
        t = t + 1;
    }
    let ghost result = select(vectors@, given, m_use as int);
    assert(out@.take(r_count as int) == result);
    let mut slot: usize = r_count;
    while slot < HNSW_M0
        invariant
            r_count <= slot <= HNSW_M0,
            out@.take(r_count as int) == result,
            forall|k: int| r_count <= k < slot ==> #[trigger] out@[k] == HNSW_SENTINEL,
        decreases HNSW_M0 - slot,
    {
        let ghost before = out@;
        out[slot] = HNSW_SENTINEL;
        assert(out@.take(r_count as int) =~= before.take(r_count as int));
        slot = slot + 1;
    }
    proof {
        assert forall|k: int| 0 <= k < HNSW_M0 implies out@[k] == pad(result, HNSW_M0 as int)[k] by {
            if k < r_count {
                assert(out@.take(r_count as int)[k] == result[k]);
            }
        }
        assert(out@ =~= pad(result, HNSW_M0 as int));
    }
    *candidates = sorted;
    r_count
}

proof fn lemma_pick_stops(vectors: Vectors, cands: Seq<Hit>, m: int, i: int)
    requires
        0 <= i <= cands.len(),
        pick(vectors, cands.take(i), m).chosen.len() == m || i == cands.len(),
    ensures
        pick(vectors, cands, m) == pick(vectors, cands.take(i), m),
    decreases cands.len() - i,
{
    if i == cands.len() {
        assert(cands.take(i) =~= cands);
    } else {
        assert(cands.take(i + 1).drop_last() =~= cands.take(i));
        lemma_pick_stops(vectors, cands, m, i + 1);
    }
}

/// The nodes `ids` with their distances to node `t`.
pub open spec fn hits_of(vectors: Vectors, t: u32, ids: Seq<u32>) -> Seq<Hit> {
    ids.map_values(|c: u32| (between(vectors, t, c), c))
}

/// The layer after an edge from `t` to `new` was asked for: `t` selects its neighbours anew from those
/// it had and `new`, unless it had `new` already.
pub open spec fn back_edge(vectors: Vectors, layer: Layer, width: int, t: u32, new: u32) -> Layer {
    let ids = live(layer[t]);
    if ids.contains(new) {
        layer
    } else {
        layer.insert(t, pad(select(vectors, hits_of(vectors, t, ids.push(new)), width), width))
    }
}

/// The layer after every node of `ids` was asked for an edge to `new`.
pub open spec fn link(vectors: Vectors, layer: Layer, width: int, ids: Seq<u32>, new: u32) -> Layer
    decreases ids.len(),
{
    if ids.len() == 0 {
        layer
    } else {
        back_edge(vectors, link(vectors, layer, width, ids.drop_last(), new), width, ids.last(), new)
    }
}

/// Every row has `width` slots.
pub open spec fn rows_have(layer: Layer, width: int) -> bool {
    forall|id: u32| #[trigger] layer.contains_key(id) ==> layer[id].len() == width
}

pub proof fn lemma_set_row(layer: Layer, n: int, width: int, t: u32, ids: Seq<u32>)
    requires
        closed(layer, n),
        rows_have(layer, width),
        n <= HNSW_SENTINEL,
        layer.contains_key(t),
        ids.len() <= width,
        forall|k: int| 0 <= k < ids.len() ==> layer.contains_key(#[trigger] ids[k]),
    ensures
        closed(layer.insert(t, pad(ids, width)), n),
        rows_have(layer.insert(t, pad(ids, width)), width),
        layer.insert(t, pad(ids, width)).dom() == layer.dom(),
        neighbours_in(layer.insert(t, pad(ids, width)), t) == ids,
{
    let after = layer.insert(t, pad(ids, width));
    assert forall|k: int| 0 <= k < ids.len() implies #[trigger] ids[k] != HNSW_SENTINEL by {
        assert(layer.contains_key(ids[k]));
    }
    law_live_of_pad(ids, width);
    assert(after.dom() =~= layer.dom());
    assert forall|id: u32, k: int|
        after.contains_key(id) && 0 <= k < neighbours_in(after, id).len() implies after.contains_key(
        #[trigger] neighbours_in(after, id)[k],
    ) by {
        if id == t {
            assert(layer.contains_key(ids[k]));
        } else {
            assert(layer.contains_key(neighbours_in(layer, id)[k]));
        }
    }
}

/// Asking for an edge keeps the layer closed, its rows' width and its nodes.
pub proof fn law_back_edge(vectors: Vectors, layer: Layer, n: int, width: int, t: u32, new: u32)
    requires
        closed(layer, n),
        rows_have(layer, width),
        n <= HNSW_SENTINEL,
        0 <= width,
        layer.contains_key(t),
        layer.contains_key(new),
    ensures
        closed(back_edge(vectors, layer, width, t, new), n),
        rows_have(back_edge(vectors, layer, width, t, new), width),
        back_edge(vectors, layer, width, t, new).dom() == layer.dom(),
{
    let ids = live(layer[t]);
    if !ids.contains(new) {
        let cands = hits_of(vectors, t, ids.push(new));
        let sel = select(vectors, cands, width);
        law_select(vectors, cands, width);
        assert forall|k: int| 0 <= k < sel.len() implies layer.contains_key(#[trigger] sel[k]) by {
            assert(among(cands, sel[k]));
            let j = choose|j: int| 0 <= j < cands.len() && (#[trigger] cands[j]).1 == sel[k];
            assert(cands[j].1 == ids.push(new)[j]);
            if j < ids.len() {
                assert(neighbours_in(layer, t)[j] == ids[j]);
            }
        }
        lemma_set_row(layer, n, width, t, sel);
    }
}

pub proof fn lemma_link(vectors: Vectors, layer: Layer, n: int, width: int, ids: Seq<u32>, new: u32)
    requires
        closed(layer, n),
        rows_have(layer, width),
        n <= HNSW_SENTINEL,
        0 <= width,
        forall|k: int| 0 <= k < ids.len() ==> layer.contains_key(#[trigger] ids[k]),
        layer.contains_key(new),
    ensures
        closed(link(vectors, layer, width, ids, new), n),
        rows_have(link(vectors, layer, width, ids, new), width),
        link(vectors, layer, width, ids, new).dom() == layer.dom(),
    decreases ids.len(),
{
    if ids.len() > 0 {
        let front = ids.drop_last();
        assert forall|k: int| 0 <= k < front.len() implies layer.contains_key(#[trigger] front[k]) by {
            assert(layer.contains_key(ids[k]));
        }
        lemma_link(vectors, layer, n, width, front, new);
        let mid = link(vectors, layer, width, front, new);
        assert(layer.contains_key(ids[ids.len() - 1]));
        assert(mid.dom().contains(ids.last()));
        assert(mid.dom().contains(new));
        law_back_edge(vectors, mid, n, width, ids.last(), new);
    }
}

} // verus!
