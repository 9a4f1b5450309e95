use rinha::consts::MAGIC;
use rinha::header::{BlobHeader, HEADER_SIZE};

#[test]
fn header_size_known() {
    // sanity: must be a multiple of 8 (alignment-friendly) and reasonable
    let sz = std::mem::size_of::<BlobHeader>();
    assert!(sz % 8 == 0, "header size {} not 8-aligned", sz);
    assert!(sz >= 200 && sz <= 320, "unexpected header size {sz}");
}

#[test]
fn magic_constant_value() {
    assert_eq!(MAGIC, *b"RINHA026");
}

fn sample() -> BlobHeader {
    let mut padding = [0u8; 204];
    padding[3] = 9;
    BlobHeader {
        magic: MAGIC,
        version: 3,
        total_vectors: 3_000_000,
        padded_n: 0x0102_0304,
        total_blocks: 0xFFFF_FFFF,
        k_centroids: 16384,
        centroids_offset: 256,
        cluster_offsets_offset: 65536,
        blocks_offset: 16777216,
        labels_offset: 1,
        mcc_table_offset: 255,
        blob_size: 0x8000_0000,
        _padding: padding,
    }
}

#[test]
fn header_round_trip() {
    let h = sample();
    let mut bytes: Vec<u8> = vec![7];
    h.encode(&mut bytes);
    assert_eq!(bytes.len(), HEADER_SIZE + 1);
    assert_eq!(bytes[0], 7);
    let g = BlobHeader::decode(&bytes[1..]);
    assert_eq!(format!("{:?}", h), format!("{:?}", g));
}

#[test]
fn header_is_little_endian() {
    let mut bytes: Vec<u8> = Vec::new();
    sample().encode(&mut bytes);
    assert_eq!(bytes[0..8], *b"RINHA026");
    assert_eq!(bytes[8..12], [3, 0, 0, 0]);
    assert_eq!(bytes[16..20], [4, 3, 2, 1]);
    assert_eq!(bytes[52 + 3], 9);
}
