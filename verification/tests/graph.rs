use rinha::beam::{beam_search_layer0, beam_search_upper, clear_visited, dist, dist_to_q, greedy_descend};
use rinha::consts::{HNSW_M, HNSW_M0, HNSW_SENTINEL, VECTOR_DIM};
use rinha::distance::l2_squared;
use rinha::hnsw::{distance_to, layer_local_index, search_top_k, SearchState};
use rinha::hnsw_build::{build, BuiltGraph, UpperLayer};
use rinha::layer::UpperEditable;
use rinha::levels::{level_draw, level_draws};
use rinha::order::{shuffle, sort_by_level};
use rinha::select::select_neighbors_heuristic;

fn vectors(n: usize, seed: u64) -> Vec<[i8; VECTOR_DIM]> {
    let mut x = seed | 1;
    let mut out = Vec::new();
    for _ in 0..n {
        let mut v = [0i8; VECTOR_DIM];
        for c in v.iter_mut() {
            x ^= x << 13;
            x ^= x >> 7;
            x ^= x << 17;
            *c = (x >> 20) as i8;
        }
        out.push(v);
    }
    out
}

fn levels(n: usize, seed: u64) -> Vec<u8> {
    level_draws(n, seed)
        .iter()
        .map(|&b| if b < 1 << 47 { 2 } else if b < 1 << 50 { 1 } else { 0 })
        .collect()
}

fn row(g: &BuiltGraph, layer: usize, id: u32) -> Option<Vec<u32>> {
    let slots: &[u32] = if layer == 0 {
        &g.layer0_neighbors[id as usize * HNSW_M0..(id as usize + 1) * HNSW_M0]
    } else {
        let u = &g.upper_layers[layer - 1];
        let k = u.nodes.binary_search(&id).ok()?;
        &u.neighbors[k * HNSW_M..(k + 1) * HNSW_M]
    };
    Some(slots.iter().copied().take_while(|&x| x != HNSW_SENTINEL).collect())
}

#[test]
fn graph_is_sound() {
    let n = 400;
    let vs = vectors(n, 5);
    let ls = levels(n, 77);
    let top = *ls.iter().max().unwrap() as usize;
    assert!(top >= 1);
    let g = build(&vs, &ls, 77);
    assert_eq!(g.num_nodes, n);
    assert_eq!(g.num_layers, top + 1);
    assert_eq!(ls[g.entry_point as usize] as usize, top);
    assert_eq!(g.upper_layers.len(), top);
    for layer in 0..=top {
        let want: Vec<u32> = (0..n as u32).filter(|&i| ls[i as usize] as usize >= layer).collect();
        if layer > 0 {
            assert_eq!(g.upper_layers[layer - 1].nodes, want);
        }
        for &id in &want {
            for x in row(&g, layer, id).unwrap() {
                assert!(want.contains(&x));
                assert_ne!(x, id);
            }
        }
    }
}

#[test]
fn building_is_repeatable() {
    let vs = vectors(120, 9);
    let ls = levels(120, 3);
    let a = build(&vs, &ls, 3);
    let b = build(&vs, &ls, 3);
    assert_eq!(a.layer0_neighbors, b.layer0_neighbors);
    assert_eq!(a.entry_point, b.entry_point);
    let c = build(&vs, &ls, 4);
    assert_ne!(a.layer0_neighbors, c.layer0_neighbors);
}

#[test]
fn small_graphs_are_searched_exactly() {
    let n = 50;
    let vs = vectors(n, 21);
    let ls = levels(n, 8);
    let g = build(&vs, &ls, 8);
    let mut state = SearchState::new(n);
    for q in vectors(20, 99) {
        let mut all: Vec<(u32, u32)> = (0..n as u32).map(|i| (l2_squared(&q, &vs[i as usize]) as u32, i)).collect();
        all.sort();
        let got = search_top_k(&vs, &g, &q, &mut state);
        for i in 0..5 {
            assert_eq!(got[i].0, all[i].0);
        }
    }
}

#[test]
fn indexed_vectors_are_found() {
    let n = 600;
    let vs = vectors(n, 31);
    let g = build(&vs, &levels(n, 1), 1);
    let mut state = SearchState::new(n);
    for &qi in &[g.entry_point, 0, 150, 300, 599] {
        let top = search_top_k(&vs, &g, &vs[qi as usize], &mut state);
        assert_eq!(top[0].0, 0);
        assert!(top.iter().any(|&(d, i)| i == qi && d == 0));
        for w in top.windows(2) {
            assert!(w[0].0 <= w[1].0);
            assert_ne!(w[0].1, w[1].1);
        }
        for &(d, i) in &top {
            assert_eq!(d, distance_to(&vs, &vs[qi as usize], i));
        }
    }
}

#[test]
fn one_node() {
    let vs = vectors(1, 2);
    let g = build(&vs, &[3], 0);
    assert_eq!(g.num_layers, 4);
    assert_eq!(g.entry_point, 0);
    assert_eq!(g.layer0_neighbors, vec![HNSW_SENTINEL; HNSW_M0]);
    let mut state = SearchState::new(1);
    let top = search_top_k(&vs, &g, &[0; VECTOR_DIM], &mut state);
    assert_eq!(top[0], (distance_to(&vs, &[0; VECTOR_DIM], 0), 0));
    assert_eq!(top[1..], [(u32::MAX, u32::MAX); 4]);
}

#[test]
fn empty_graph_finds_nothing() {
    let g = BuiltGraph {
        num_nodes: 0,
        entry_point: 0,
        num_layers: 0,
        layer0_neighbors: Vec::new(),
        upper_layers: Vec::new(),
    };
    let mut state = SearchState::new(0);
    let top = search_top_k(&[], &g, &[0; VECTOR_DIM], &mut state);
    assert_eq!(top, [(u32::MAX, u32::MAX); 5]);
}

#[test]
fn marks_are_set_once_and_removed() {
    let mut s = SearchState::new(130);
    assert!(s.mark_visited(0));
    assert!(s.mark_visited(63));
    assert!(s.mark_visited(64));
    assert!(s.mark_visited(129));
    assert!(!s.mark_visited(63));
    assert_eq!(s.visited_ids, vec![0, 63, 64, 129]);
    s.found.push((1, 1));
    s.reset();
    assert_eq!(s.visited, vec![0u64; 3]);
    assert!(s.found.is_empty());
    assert!(s.visited_ids.is_empty());
    assert!(s.mark_visited(63));
}

#[test]
fn local_indices() {
    let layer = UpperLayer { nodes: vec![2, 5, 9, 40], neighbors: vec![HNSW_SENTINEL; 4 * HNSW_M] };
    assert_eq!(layer_local_index(&layer, 2), 0);
    assert_eq!(layer_local_index(&layer, 9), 2);
    assert_eq!(layer_local_index(&layer, 40), 3);
    assert_eq!(layer_local_index(&layer, 3), u32::MAX);
    assert_eq!(layer_local_index(&layer, 41), u32::MAX);
}

#[test]
fn parallel_draws_match_single_draws() {
    let seed = 0xDEAD_BEEF_u64;
    let all = level_draws(5000, seed);
    assert_eq!(all.len(), 5000);
    for (i, &bits) in all.iter().enumerate() {
        assert_eq!(bits, level_draw(seed, i));
        let mut x = seed.wrapping_add(i as u64).wrapping_mul(0x9E3779B97F4A7C15) | 1;
        x ^= x << 13;
        x ^= x >> 7;
        x ^= x << 17;
        assert_eq!(bits, x >> 11);
    }
    assert!(level_draws(0, 1).is_empty());
}

#[test]
fn insertion_order_is_by_level() {
    let ls: Vec<u8> = (0..200u32).map(|i| (i % 5) as u8).collect();
    let mixed = shuffle(200, 42);
    let mut sorted = mixed.clone();
    sorted.sort();
    assert_eq!(sorted, (0..200).collect::<Vec<u32>>());
    assert_ne!(mixed, sorted);
    let order = sort_by_level(&mixed, &ls);
    let mut want = mixed.clone();
    want.sort_by(|&a, &b| ls[b as usize].cmp(&ls[a as usize]));
    assert_eq!(order, want);
    assert_eq!(shuffle(1, 7), vec![0]);
}

#[test]
fn diverse_neighbours_come_first() {
    // Nodes on a line: 0 at 10, 1 at 11, 2 at -20; the target is the origin.
    let mut vs = vec![[0i8; VECTOR_DIM]; 3];
    vs[0][0] = 10;
    vs[1][0] = 11;
    vs[2][0] = -20;
    let mut cands = vec![(400u32, 2u32), (121, 1), (100, 0)];
    let mut out = [0u32; HNSW_M0];
    let count = select_neighbors_heuristic(&vs, &mut cands, 2, &mut out);
    assert_eq!(count, 2);
    assert_eq!(out[..2], [0, 2]);
    assert_eq!(out[2..], [HNSW_SENTINEL; HNSW_M0 - 2]);
    assert_eq!(cands, vec![(100, 0), (121, 1), (400, 2)]);
    // With room left, the one passed over fills it.
    assert_eq!(select_neighbors_heuristic(&vs, &mut cands, 8, &mut out), 3);
    assert_eq!(out[..3], [0, 2, 1]);
}

#[test]
fn layers_are_walked() {
    // A chain 0 - 1 - 2 - 3 along the first dimension.
    let mut vs = vec![[0i8; VECTOR_DIM]; 4];
    for i in 0..4 {
        vs[i][0] = 10 * i as i8;
    }
    let mut layer = UpperEditable::new(4);
    assert!(!layer.contains(2));
    for i in 0..4 {
        layer.ensure_node(i);
    }
    assert!(layer.contains(2));
    assert_eq!(layer.slot_for(3), Some(3));
    for i in 0..4u32 {
        let mut r = [HNSW_SENTINEL; HNSW_M];
        let mut k = 0;
        for j in 0..4u32 {
            if i.abs_diff(j) == 1 {
                r[k] = j;
                k += 1;
            }
        }
        layer.set_neighbors(i, &r);
    }
    assert_eq!(layer.neighbors(1).unwrap()[..3], [0, 2, HNSW_SENTINEL]);
    let mut q = [0i8; VECTOR_DIM];
    q[0] = 29;
    assert_eq!(dist(&vs, 0, 3), 900);
    assert_eq!(greedy_descend(&vs, &q, 0, dist_to_q(&vs, &q, 0), &layer), (3, 1));
    let mut visited = vec![0u8; 4];
    let mut log = Vec::new();
    let hits = beam_search_upper(&vs, &q, 0, 841, 2, &layer, &mut visited, &mut log);
    assert_eq!(hits, vec![(1, 3), (81, 2)]);
    assert_eq!(log, vec![0, 1, 2, 3]);
    clear_visited(&mut visited, &mut log);
    assert_eq!(visited, vec![0u8; 4]);
    assert!(log.is_empty());
    let mut flat = vec![HNSW_SENTINEL; 4 * HNSW_M0];
    for i in 0..3usize {
        flat[i * HNSW_M0] = i as u32 + 1;
    }
    let hits = beam_search_layer0(&vs, &q, 1, 361, 3, &flat, &mut visited, &mut log);
    assert_eq!(hits, vec![(1, 3), (81, 2), (361, 1)]);
}

#[test]
fn nodes_outside_a_layer_have_no_neighbours() {
    let mut vs = vec![[0i8; VECTOR_DIM]; 4];
    for i in 0..4 {
        vs[i][0] = 10 * i as i8;
    }
    let mut q = [0i8; VECTOR_DIM];
    q[0] = 30;
    let mut layer = UpperEditable::new(4);
    layer.ensure_node(0);
    let mut row = [HNSW_SENTINEL; HNSW_M];
    row[0] = 2;
    layer.set_neighbors(0, &row);
    // A start outside the layer stays where it is.
    assert_eq!(greedy_descend(&vs, &q, 1, dist_to_q(&vs, &q, 1), &layer), (1, 400));
    // A walk may end at a neighbour outside the layer.
    assert_eq!(greedy_descend(&vs, &q, 0, dist_to_q(&vs, &q, 0), &layer), (2, 100));
    let mut visited = vec![0u8; 4];
    let mut log = Vec::new();
    assert_eq!(beam_search_upper(&vs, &q, 1, 400, 3, &layer, &mut visited, &mut log), vec![(400, 1)]);
    clear_visited(&mut visited, &mut log);
    assert_eq!(
        beam_search_upper(&vs, &q, 0, 900, 3, &layer, &mut visited, &mut log),
        vec![(100, 2), (900, 0)]
    );
}

#[test]
fn searches_pass_through_layers_without_the_entry() {
    let mut vs = vec![[0i8; VECTOR_DIM]; 4];
    for i in 0..4 {
        vs[i][0] = 10 * i as i8;
    }
    let mut layer0 = vec![HNSW_SENTINEL; 4 * HNSW_M0];
    for i in 0..3usize {
        layer0[i * HNSW_M0] = i as u32 + 1;
    }
    let graph = BuiltGraph {
        num_nodes: 4,
        entry_point: 0,
        num_layers: 2,
        layer0_neighbors: layer0,
        upper_layers: vec![UpperLayer { nodes: vec![1], neighbors: vec![HNSW_SENTINEL; HNSW_M] }],
    };
    let mut q = [0i8; VECTOR_DIM];
    q[0] = 21;
    let none = (u32::MAX, u32::MAX);
    let top = search_top_k(&vs, &graph, &q, &mut SearchState::new(4));
    assert_eq!(top, [(1, 2), (81, 3), (121, 1), (441, 0), none]);
}

#[test]
fn rows_are_filled_up_with_sentinels() {
    let n = 300;
    let g = build(&vectors(n, 5), &levels(n, 6), 7);
    let uppers = g.upper_layers.iter().flat_map(|u| u.neighbors.chunks(HNSW_M));
    for row in g.layer0_neighbors.chunks(HNSW_M0).chain(uppers) {
        let end = row.iter().position(|&x| x == HNSW_SENTINEL).unwrap_or(row.len());
        assert!(row[..end].iter().all(|&x| (x as usize) < n));
        assert!(row[end..].iter().all(|&x| x == HNSW_SENTINEL));
    }
}

#[test]
fn only_logged_marks_are_cleared() {
    let mut visited = vec![1u8, 1, 0, 1];
    let mut log = vec![3u32, 0, 3];
    clear_visited(&mut visited, &mut log);
    assert_eq!(visited, vec![0, 1, 0, 0]);
    assert!(log.is_empty());
}
