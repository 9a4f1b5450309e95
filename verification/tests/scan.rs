use rinha::blob::Blob;
use rinha::blob_build::{build_blob, BuildInputs};
use rinha::ivf::INFINITY_BITS;
use rinha::scan::Scan;

/// Three clusters of nine, no and one vectors: two blocks, none and one.
fn clusters() -> Vec<u8> {
    let mut assignments = [0u32; 10];
    assignments[9] = 2;
    let mut fraud = [false; 10];
    fraud[8] = true;
    build_blob(&BuildInputs {
        centroids: &[[0u32; 14]; 3],
        assignments: &assignments,
        vectors: &[[0i16; 14]; 10],
        distances: &[0; 10],
        is_fraud: &fraud,
        mcc_risk: &[],
    })
}

fn visit(bytes: &[u8], probes: &[usize]) -> Vec<u32> {
    let blob = Blob::open(bytes).ok().unwrap();
    assert!(blob.layout_ok());
    let mut scan = Scan::new(&blob, probes);
    let mut seen = Vec::new();
    while let Some(b) = scan.current(&blob) {
        seen.push(b);
        scan.skip(&blob);
    }
    seen
}

#[test]
fn blocks_of_the_chosen_clusters() {
    let bytes = clusters();
    assert_eq!(visit(&bytes, &[]), vec![]);
    assert_eq!(visit(&bytes, &[1]), vec![]);
    assert_eq!(visit(&bytes, &[2, 0]), vec![2, 0, 1]);
    assert_eq!(visit(&bytes, &[0, 1, 2, 0]), vec![0, 1, 2, 0, 1]);
}

#[test]
fn skipping_far_blocks_is_harmless() {
    let bytes = clusters();
    let blob = Blob::open(&bytes).ok().unwrap();
    let near = [1.0f32, 2.0, 3.0, 4.0, 5.0, 6.0, 7.0, 8.0].map(f32::to_bits);
    let far = [5.0f32, 9.0, 9.0, 9.0, 9.0, 9.0, 9.0, 9.0].map(f32::to_bits);
    let close = [0.5f32; 8].map(f32::to_bits);
    let mut every = Scan::new(&blob, &[0, 2]);
    let mut some = Scan::new(&blob, &[0, 2]);
    assert_eq!(every.top.threshold(), INFINITY_BITS);
    every.take(&blob, &near);
    some.take(&blob, &near);
    assert_eq!(some.top.threshold(), 5.0f32.to_bits());
    every.take(&blob, &far);
    some.skip(&blob);
    assert_eq!(every.top.items, some.top.items);
    every.take(&blob, &close);
    some.take(&blob, &close);
    assert_eq!(every.top.items, some.top.items);
    assert_eq!(every.current(&blob), None);
    assert_eq!(every.top.threshold(), 0.5f32.to_bits());
}

#[test]
fn labels_come_with_the_blocks() {
    let bytes = clusters();
    let blob = Blob::open(&bytes).ok().unwrap();
    let mut scan = Scan::new(&blob, &[0]);
    scan.skip(&blob);
    assert_eq!(scan.current(&blob), Some(1));
    scan.take(&blob, &[0.25f32, 1.0, 1.0, 1.0, 1.0, 1.0, 1.0, 1.0].map(f32::to_bits));
    let mut kept = scan.top.items.to_vec();
    kept.sort();
    assert_eq!(kept[0], (0.25f32.to_bits(), 1));
    assert_eq!(kept[4], (1.0f32.to_bits(), 0));
}
