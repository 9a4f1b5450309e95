use rinha::best::{early_done, insert_best, sum_labels};
use rinha::consts::{QueryVector, EARLY_DISTANCE_LIMIT};
use rinha::index::fraud_score;
use rinha::kdtree::{lower_bound_vec, read_node, read_partition, KdBlob};
use rinha::knn::{distance_block8, fraud_count, fraud_count_scalar, search_node};

/// An index under construction.
struct Tree {
    parts: Vec<u8>,
    nodes: Vec<u8>,
    vectors: Vec<u8>,
    labels: Vec<u8>,
    n_parts: u32,
    n_nodes: u32,
}

fn put_box(out: &mut Vec<u8>, points: &[[i16; 14]]) {
    for corner in 0..2 {
        for d in 0..16 {
            let v: i16 = if d >= 14 {
                0
            } else if corner == 0 {
                points.iter().map(|p| p[d]).min().unwrap_or(0)
            } else {
                points.iter().map(|p| p[d]).max().unwrap_or(0)
            };
            out.extend_from_slice(&v.to_le_bytes());
        }
    }
}

impl Tree {
    fn new() -> Tree {
        Tree {
            parts: Vec::new(),
            nodes: Vec::new(),
            vectors: Vec::new(),
            labels: Vec::new(),
            n_parts: 0,
            n_nodes: 0,
        }
    }

    fn node(&mut self, left: i32, right: i32, start: i32, len: i32, points: &[[i16; 14]]) -> i32 {
        for x in [left, right, start, len] {
            self.nodes.extend_from_slice(&x.to_le_bytes());
        }
        put_box(&mut self.nodes, points);
        self.n_nodes += 1;
        self.n_nodes as i32 - 1
    }

    /// Adds a tree over `points`, parents before children.
    fn grow(&mut self, points: &[[i16; 14]], labels: &[u8], leaf: usize) -> i32 {
        if points.len() <= leaf {
            let start = (self.labels.len() / 8) as i32;
            for chunk in 0..(points.len() + 7) / 8 {
                for d in 0..14 {
                    for s in 0..8 {
                        let v = points.get(chunk * 8 + s).map_or(i16::MAX, |p| p[d]);
                        self.vectors.extend_from_slice(&v.to_le_bytes());
                    }
                }
                for s in 0..8 {
                    self.labels.push(labels.get(chunk * 8 + s).copied().unwrap_or(0));
                }
            }
            return self.node(-1, -1, start, points.len() as i32, points);
        }
        let me = self.node(0, 0, 0, points.len() as i32, points);
        let half = points.len() / 2;
        let left = self.grow(&points[..half], &labels[..half], leaf);
        let right = self.grow(&points[half..], &labels[half..], leaf);
        let at = me as usize * 80;
        self.nodes[at..at + 4].copy_from_slice(&left.to_le_bytes());
        self.nodes[at + 4..at + 8].copy_from_slice(&right.to_le_bytes());
        me
    }

    fn partition(&mut self, points: &[[i16; 14]], labels: &[u8], leaf: usize) {
        let root = self.grow(points, labels, leaf);
        for x in [7i32, root, points.len() as i32] {
            self.parts.extend_from_slice(&x.to_le_bytes());
        }
        put_box(&mut self.parts, points);
        self.n_parts += 1;
    }

    fn blob(&self) -> KdBlob<'_> {
        KdBlob {
            part_count: self.n_parts,
            node_count: self.n_nodes,
            partitions: &self.parts,
            nodes: &self.nodes,
            vectors: &self.vectors,
            labels: &self.labels,
        }
    }
}

fn random_points(seed: u64, n: usize, spread: i64) -> (Vec<[i16; 14]>, Vec<u8>) {
    let mut x = seed;
    let mut points = Vec::new();
    let mut labels = Vec::new();
    for _ in 0..n {
        let mut p = [0i16; 14];
        for c in p.iter_mut() {
            x = x.wrapping_mul(6364136223846793005).wrapping_add(1442695040888963407);
            *c = (((x >> 33) as i64 % (2 * spread)) - spread) as i16;
        }
        points.push(p);
        labels.push(((x >> 50) & 1) as u8);
    }
    (points, labels)
}

fn dist(q: &QueryVector, p: &[i16; 14]) -> i64 {
    (0..14).map(|d| (p[d] as i64 - q[d] as i64).pow(2)).sum()
}

fn query(p: &[i16; 14], shift: i16) -> QueryVector {
    let mut q: QueryVector = [0; 16];
    for d in 0..14 {
        q[d] = p[d].saturating_add(shift);
    }
    q
}

#[test]
fn search_is_exact() {
    let (points, labels) = random_points(1, 400, 9000);
    let mut tree = Tree::new();
    for part in 0..4 {
        let r = part * 100..part * 100 + 100;
        tree.partition(&points[r.clone()], &labels[r], 16);
    }
    let blob = tree.blob();
    assert!(blob.check());
    for k in 0..60 {
        let q = query(&points[k * 6], 700);
        let mut all: Vec<(i64, u8)> = points.iter().zip(&labels).map(|(p, &l)| (dist(&q, p), l)).collect();
        all.sort_by_key(|x| x.0);
        assert!(all[4].0 > EARLY_DISTANCE_LIMIT);
        let want: u8 = all[..5].iter().map(|x| x.1).sum();
        for primary in -1..4 {
            assert_eq!(fraud_count(&blob, &q, primary), want);
        }
        assert_eq!(fraud_count_scalar(&blob, &q, 0), want);
        assert_eq!(fraud_score(&blob, &q, 1), want);
    }
}

#[test]
fn search_stops_early() {
    // Five points within the early limit in the first partition, nearer ones in the second.
    let near = vec![[100i16; 14]; 5];
    let nearer = vec![[0i16; 14]; 5];
    let mut tree = Tree::new();
    tree.partition(&near, &[1, 1, 1, 0, 0], 8);
    tree.partition(&nearer, &[0; 5], 8);
    let blob = tree.blob();
    assert!(blob.check());
    let q: QueryVector = [0; 16];
    assert_eq!(fraud_count(&blob, &q, 0), 3);
    assert_eq!(fraud_count(&blob, &q, 1), 0);
}

#[test]
fn few_points() {
    let mut tree = Tree::new();
    tree.partition(&[[5000i16; 14], [-5000i16; 14]], &[1, 1], 8);
    let blob = tree.blob();
    assert!(blob.check());
    assert_eq!(fraud_count(&blob, &[0; 16], 0), 2);
    assert_eq!(fraud_count(&blob, &[0; 16], -1), 2);
    let none = Tree::new();
    assert!(none.blob().check());
    assert_eq!(fraud_count(&none.blob(), &[0; 16], -1), 0);
}

#[test]
fn entries_are_decoded() {
    let (points, labels) = random_points(3, 20, 3000);
    let mut tree = Tree::new();
    tree.partition(&points, &labels, 8);
    let blob = tree.blob();
    let p = read_partition(&blob, 0);
    assert_eq!((p.root, p.len), (0, 20));
    let n = read_node(&blob, 0);
    assert_eq!((n.left, n.right, n.len), (1, 4, 20));
    for d in 0..14 {
        assert_eq!(n.min[d], points.iter().map(|p| p[d]).min().unwrap());
        assert_eq!(n.max[d], points.iter().map(|p| p[d]).max().unwrap());
        assert_eq!(p.min[d], n.min[d]);
    }
    let q = query(&points[0], 0);
    let out = distance_block8(&blob, 0, &q);
    assert_eq!(out[0], 0);
    assert_eq!(out[1], dist(&q, &points[1]));
}

#[test]
fn broken_trees_are_noticed() {
    let (points, labels) = random_points(4, 20, 3000);
    let mut tree = Tree::new();
    tree.partition(&points, &labels, 8);
    assert!(tree.blob().check());
    // A node that is its own child.
    let mut looped = tree.nodes.clone();
    looped[0..4].copy_from_slice(&0i32.to_le_bytes());
    let mut blob = tree.blob();
    blob.nodes = &looped;
    assert!(!blob.check());
    // A leaf behind the end.
    let mut far = tree.nodes.clone();
    far[2 * 80 + 8..2 * 80 + 12].copy_from_slice(&1000i32.to_le_bytes());
    let mut blob = tree.blob();
    blob.nodes = &far;
    assert!(!blob.check());
    let mut blob = tree.blob();
    blob.node_count += 1;
    assert!(!blob.check());
}

#[test]
fn boxes_bound_from_below() {
    let q: QueryVector = [10; 16];
    let lo: QueryVector = [0; 16];
    let hi: QueryVector = [20; 16];
    assert_eq!(lower_bound_vec(&q, &lo, &hi), 0);
    let hi: QueryVector = [7; 16];
    assert_eq!(lower_bound_vec(&q, &lo, &hi), 14 * 9);
    // The corner nearest to the query is as near as the box.
    assert_eq!(dist(&q, &[7; 14]), 14 * 9);
    let lo: QueryVector = [i16::MAX; 16];
    let q: QueryVector = [i16::MIN; 16];
    assert_eq!(lower_bound_vec(&q, &lo, &lo), 14 * 65535 * 65535);
}

#[test]
fn best_five() {
    let mut dists = [i64::MAX; 5];
    let mut labels = [0u8; 5];
    for (d, l) in [(9, 1), (3, 0), (7, 1), (3, 1), (5, 0), (8, 0), (1, 1), (7, 0)] {
        insert_best(d, l, &mut dists, &mut labels);
    }
    assert_eq!(dists, [1, 3, 3, 5, 7]);
    assert_eq!(labels, [1, 0, 1, 0, 1]);
    assert_eq!(sum_labels(&labels), 3);
    assert!(early_done(&dists));
    assert!(early_done(&[0, 0, 0, 0, EARLY_DISTANCE_LIMIT]));
    assert!(!early_done(&[0, 0, 0, 0, EARLY_DISTANCE_LIMIT + 1]));
}

#[test]
fn one_tree_alone() {
    let (points, labels) = random_points(5, 64, 9000);
    let mut tree = Tree::new();
    tree.partition(&points, &labels, 8);
    let blob = tree.blob();
    let q = query(&points[9], 1000);
    let mut dists = [i64::MAX; 5];
    let mut best_labels = [0u8; 5];
    assert!(!search_node(&blob, 0, 0, &q, &mut dists, &mut best_labels));
    let mut all: Vec<i64> = points.iter().map(|p| dist(&q, p)).collect();
    all.sort();
    assert_eq!(dists[..], all[..5]);
}
