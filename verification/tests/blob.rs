use rinha::blob::{Blob, BlobError};
use rinha::blob_build::{blob_size, build_blob, total_order_key, BuildInputs};
use rinha::consts::VECTOR_DIM;

const N: usize = 20;

struct Data {
    centroids: Vec<[u32; VECTOR_DIM]>,
    assignments: Vec<u32>,
    vectors: Vec<[i16; VECTOR_DIM]>,
    distances: Vec<u32>,
    is_fraud: Vec<bool>,
    mcc_risk: Vec<(u32, i8)>,
}

fn data() -> Data {
    let mut d = Data {
        centroids: Vec::new(),
        assignments: Vec::new(),
        vectors: Vec::new(),
        distances: Vec::new(),
        is_fraud: Vec::new(),
        mcc_risk: vec![(5411, 19), (7995, 108), (5411 + 1024, 20), (3, -5)],
    };
    for c in 0..3u32 {
        let mut row = [0u32; VECTOR_DIM];
        for (i, x) in row.iter_mut().enumerate() {
            *x = (c as f32 + i as f32 / 16.0).to_bits();
        }
        d.centroids.push(row);
    }
    for i in 0..N {
        // Cluster 1 stays empty.
        d.assignments.push(if i % 2 == 0 { 0 } else { 2 });
        let mut v = [0i16; VECTOR_DIM];
        for (j, x) in v.iter_mut().enumerate() {
            *x = (i as i16) * 100 - (j as i16);
        }
        d.vectors.push(v);
        d.distances.push((((i * 7) % 11) as f32).to_bits());
        d.is_fraud.push(i % 3 == 0);
    }
    d
}

fn inputs(d: &Data) -> BuildInputs<'_> {
    BuildInputs {
        centroids: &d.centroids,
        assignments: &d.assignments,
        vectors: &d.vectors,
        distances: &d.distances,
        is_fraud: &d.is_fraud,
        mcc_risk: &d.mcc_risk,
    }
}

#[test]
fn built_blob_reads_back() {
    let d = data();
    let inp = inputs(&d);
    let size = blob_size(&inp).unwrap();
    let bytes = build_blob(&inp);
    // Two blocks for each of the two clusters with ten vectors.
    assert_eq!(size as usize, 256 + 3 * 56 + 4 * 4 + 4 * 224 + 4 + 1024);
    assert_eq!(bytes.len(), size as usize);
    let blob = match Blob::open(&bytes) {
        Ok(b) => b,
        Err(e) => panic!("{:?}", e),
    };
    assert!(blob.layout_ok());
    let h = blob.header();
    assert_eq!(h.total_vectors, N as u32);
    assert_eq!(h.k_centroids, 3);
    assert_eq!(h.total_blocks, 4);
    assert_eq!(h.padded_n, 32);
    assert_eq!(blob.vector_dim(), 14);
    assert_eq!(blob.cluster_offsets(), vec![0, 2, 2, 4]);
    assert_eq!(blob.cluster_offset(3), 4);
    for c in 0..3u32 {
        for j in 0..VECTOR_DIM {
            assert_eq!(blob.centroid_bits(c, j), d.centroids[c as usize][j]);
        }
    }
    for (cluster, first_block) in [(0u32, 0u32), (2, 2)] {
        let mut ids: Vec<usize> = (0..N).filter(|&i| d.assignments[i] == cluster).collect();
        ids.sort_by_key(|&i| d.distances[i]);
        for g in 0..16usize {
            let block = first_block + (g / 8) as u32;
            for j in 0..VECTOR_DIM {
                let want = if g < ids.len() { d.vectors[ids[g]][j] } else { i16::MAX };
                assert_eq!(blob.block_value(block, j, g % 8), want);
            }
            let want = g < ids.len() && d.is_fraud[ids[g]];
            assert_eq!(blob.is_fraud_slot(block, (g % 8) as u32), want);
            assert_eq!(blob.is_fraud_slot(first_block, g as u32), want);
        }
    }
}

#[test]
fn risks_of_built_blob() {
    let d = data();
    let bytes = build_blob(&inputs(&d));
    let blob = Blob::open(&bytes).ok().unwrap();
    // 5411 and 6435 share an entry; the later one stands.
    assert_eq!(blob.mcc_risk(5411), 20);
    assert_eq!(blob.mcc_risk(7995), 108);
    assert_eq!(blob.mcc_risk(3), -5);
    assert_eq!(blob.mcc_risk(1), 64);
    assert_eq!(blob.mcc_risk(u32::MAX), 64);
}

#[test]
fn blob_of_nothing() {
    let d = Data {
        centroids: Vec::new(),
        assignments: Vec::new(),
        vectors: Vec::new(),
        distances: Vec::new(),
        is_fraud: Vec::new(),
        mcc_risk: Vec::new(),
    };
    let bytes = build_blob(&inputs(&d));
    assert_eq!(bytes.len(), 256 + 4 + 1024);
    let blob = Blob::open(&bytes).ok().unwrap();
    assert!(blob.layout_ok());
    assert_eq!(blob.cluster_offsets(), vec![0]);
}

#[test]
fn refusals() {
    let d = data();
    let good = build_blob(&inputs(&d));
    assert_eq!(Blob::open(&good[..255]).err(), Some(BlobError::TooSmall));
    assert_eq!(Blob::open(&[]).err(), Some(BlobError::TooSmall));
    let mut bad = good.clone();
    bad[7] = b'7';
    assert_eq!(Blob::open(&bad).err(), Some(BlobError::BadMagic));
    let mut bad = good.clone();
    bad[8] = 4;
    assert_eq!(Blob::open(&bad).err(), Some(BlobError::UnsupportedVersion(4)));
    let mut bad = good.clone();
    bad.push(0);
    assert_eq!(
        Blob::open(&bad).err(),
        Some(BlobError::SizeMismatch(good.len() as u32, good.len() + 1))
    );
}

#[test]
fn broken_layouts_are_noticed() {
    let d = data();
    let good = build_blob(&inputs(&d));
    // A region behind the end.
    let mut bad = good.clone();
    bad[31] = 0xFF;
    assert!(!Blob::open(&bad).ok().unwrap().layout_ok());
    // More clusters than there is room for.
    let mut bad = good.clone();
    bad[27] = 0x7F;
    assert!(!Blob::open(&bad).ok().unwrap().layout_ok());
    // Clusters that overlap.
    let mut bad = good.clone();
    let at = 256 + 3 * 56 + 4;
    bad[at] = 9;
    assert!(!Blob::open(&bad).ok().unwrap().layout_ok());
}

#[test]
fn total_order() {
    let sorted = [
        f32::NEG_INFINITY,
        -1.5,
        -0.0,
        0.0,
        f32::MIN_POSITIVE,
        1.0,
        f32::INFINITY,
        f32::NAN,
    ];
    for w in sorted.windows(2) {
        assert!(total_order_key(w[0].to_bits()) < total_order_key(w[1].to_bits()));
        assert!(w[0].total_cmp(&w[1]).is_lt());
    }
    assert_eq!(total_order_key(0), 0);
    assert_eq!(total_order_key(0x8000_0000), -1);
}
