//! Constants shared by the index builders and the search code.
use vstd::prelude::*;

verus! {

/// First bytes of every cluster blob: `RINHA026`.
pub const MAGIC: [u8; 8] = [82, 73, 78, 72, 65, 48, 50, 54];

/// Cluster blob format version.
pub const VERSION: u32 = 3;

/// Number of features in a transaction vector.
pub const VECTOR_DIM: usize = 14;

/// Entries in the merchant-category risk table.
pub const MCC_TABLE_SIZE: usize = 1024;

/// Number of clusters the blob builder aims for.
pub const NUM_CENTROIDS: u32 = 16384;

/// Vectors packed side by side in one cluster block.
pub const BLOCK_VECS: usize = 8;

/// `i16` values in one cluster block: `VECTOR_DIM * BLOCK_VECS`.
pub const BLOCK_I16: usize = 112;

/// Bytes in one cluster block.
pub const BLOCK_BYTES: usize = 224;

/// Nearest neighbours that vote on a transaction.
pub const TOP_K: usize = 5;

/// Dimensions of a packed vector: `VECTOR_DIM` padded to a power of two.
pub const PACKED_DIMS: usize = 16;

/// Vectors packed side by side in one KD-tree leaf block.
pub const LANES: usize = 8;

/// Bytes of one encoded KD-tree node.
pub const NODE_SIZE: usize = 80;

/// Bytes of one encoded partition entry.
pub const PART_SIZE: usize = 76;

/// Fifth-best squared distance at which a KD-tree search stops: `(10000 * 0.14)^2`.
pub const EARLY_DISTANCE_LIMIT: i64 = 1_960_000;

/// Neighbour slots of a graph node above the base layer.
pub const HNSW_M: usize = 8;

/// Neighbour slots of a graph node in the base layer.
pub const HNSW_M0: usize = 16;

/// Marks an empty neighbour slot. Node ids are 24 bits wide and stay below it.
pub const HNSW_SENTINEL: u32 = 0xFF_FFFF;

/// A query or bounding-box corner in quantized space.
pub type QueryVector = [i16; PACKED_DIMS];

} // verus!
