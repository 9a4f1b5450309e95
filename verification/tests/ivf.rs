use rinha::blob::Blob;
use rinha::blob_build::{build_blob, BuildInputs};
use rinha::ivf::{nearest_one, top_n_from_dists, Tier, TopFive, Verdict, INFINITY_BITS};

fn bits(x: f32) -> u32 {
    x.to_bits()
}

#[test]
fn nearest_clusters_in_order() {
    let d: Vec<u32> = [5.0f32, 1.0, 3.0, 1.0, 0.5, 9.0].iter().map(|&x| bits(x)).collect();
    assert_eq!(top_n_from_dists(&d, 4), vec![4, 3, 1, 2]);
    assert_eq!(top_n_from_dists(&d, 1), vec![4]);
    assert_eq!(nearest_one(&d), 4);
    // Fewer clusters than asked for: the rest is filled with the first.
    assert_eq!(top_n_from_dists(&d[..2], 4), vec![1, 0, 0, 0]);
    assert_eq!(nearest_one(&[]), 0);
    assert_eq!(nearest_one(&[bits(f32::NAN), INFINITY_BITS, bits(f32::MAX)]), 2);
    assert_eq!(nearest_one(&[bits(2.0), bits(2.0)]), 0);
}

fn labelled() -> Vec<u8> {
    let vectors = [[0i16; 14]; 16];
    let mut fraud = [false; 16];
    fraud[1] = true;
    fraud[9] = true;
    fraud[15] = true;
    build_blob(&BuildInputs {
        centroids: &[[0u32; 14]],
        assignments: &[0; 16],
        vectors: &vectors,
        distances: &[0; 16],
        is_fraud: &fraud,
        mcc_risk: &[],
    })
}

#[test]
fn five_nearest_are_kept() {
    let bytes = labelled();
    let blob = Blob::open(&bytes).ok().unwrap();
    assert!(blob.layout_ok());
    let mut top = TopFive::new();
    assert_eq!(top.threshold(), INFINITY_BITS);
    let first = [8.0f32, 1.0, 7.0, 2.0, 6.0, 3.0, 5.0, 4.0].map(bits);
    top.scan_block(&blob, 0, &first);
    assert_eq!(top.threshold(), bits(5.0));
    let mut kept: Vec<(u32, u8)> = top.items.to_vec();
    kept.sort();
    assert_eq!(
        kept,
        vec![(bits(1.0), 1), (bits(2.0), 0), (bits(3.0), 0), (bits(4.0), 0), (bits(5.0), 0)]
    );
    let second = [5.0f32, 0.5, 5.0, 6.0, 7.0, f32::NAN, f32::INFINITY, 4.5].map(bits);
    top.scan_block(&blob, 1, &second);
    let mut kept: Vec<(u32, u8)> = top.items.to_vec();
    kept.sort();
    assert_eq!(
        kept,
        vec![(bits(0.5), 1), (bits(1.0), 1), (bits(2.0), 0), (bits(3.0), 0), (bits(4.0), 0)]
    );
}

#[test]
fn far_blocks_change_nothing() {
    let bytes = labelled();
    let blob = Blob::open(&bytes).ok().unwrap();
    let mut top = TopFive::new();
    top.scan_block(&blob, 0, &[bits(1.0); 8]);
    let before = top.items;
    top.scan_block(&blob, 1, &[top.threshold(); 8]);
    assert_eq!(top.items, before);
    top.offer(bits(0.25), 1);
    assert_ne!(top.items, before);
}

#[test]
fn tiers() {
    assert_eq!(Tier::Fast.nprobe(), 4);
    assert_eq!(Tier::Mid.nprobe(), 12);
    assert_eq!(Tier::Deep.nprobe(), 32);
    assert_eq!(Tier::Fast.verdict(0), Verdict::Done(0));
    assert_eq!(Tier::Fast.verdict(5), Verdict::Done(5));
    for c in 1..5 {
        assert_eq!(Tier::Fast.verdict(c), Verdict::Again(Tier::Mid));
    }
    assert_eq!(Tier::Mid.verdict(2), Verdict::Again(Tier::Deep));
    assert_eq!(Tier::Mid.verdict(3), Verdict::Again(Tier::Deep));
    assert_eq!(Tier::Mid.verdict(1), Verdict::Done(1));
    assert_eq!(Tier::Mid.verdict(4), Verdict::Done(4));
    assert_eq!(Tier::Deep.verdict(3), Verdict::Done(3));
}

#[test]
fn chosen_clusters_are_distinct() {
    let d: Vec<u32> = [2.0f32, 2.0, f32::INFINITY, 2.0, 1.0, f32::NAN, 2.0].iter().map(|&x| bits(x)).collect();
    let mut five = top_n_from_dists(&d, 5);
    assert_eq!(five[0], 4);
    five.sort();
    assert_eq!(five, vec![0, 1, 3, 4, 6]);
    // Only five are nearer than infinity.
    assert_eq!(top_n_from_dists(&d, 7)[5..], [0, 0]);
}
