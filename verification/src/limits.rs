//! The numbers that the formats and the searches are made with.
use crate::blob_build::DEFAULT_RISK;
use crate::config::{DEFAULT_PORT, DEFAULT_WORKERS};
use crate::consts::{
    BLOCK_BYTES, BLOCK_I16, BLOCK_VECS, EARLY_DISTANCE_LIMIT, HNSW_M, HNSW_M0, HNSW_SENTINEL, LANES,
    MAGIC, MCC_TABLE_SIZE, NODE_SIZE, NUM_CENTROIDS, PACKED_DIMS, PART_SIZE, TOP_K, VECTOR_DIM, VERSION,
};
use crate::handoff::{SUN_PATH_LEN, WAIT_ROUNDS};
use crate::header::{HEADER_PADDING, HEADER_SIZE};
use crate::hnsw::EF_SEARCH;
use crate::hnsw_build::EF_CONSTRUCTION;
use crate::ivf::{INFINITY_BITS, NPROBE_DEEP, NPROBE_FAST, NPROBE_MID};
use crate::knn::{MAX_PROBES, STACK_SIZE};
use crate::levels::LEVEL_STEP;
use crate::order::SHUFFLE_SALT;
use vstd::prelude::*;

verus! {

/// The sizes of what is stored: fourteen dimensions, in blocks of eight vectors of two-byte values.
pub proof fn law_formats()
    ensures
        MAGIC@ == seq![82u8, 73, 78, 72, 65, 48, 50, 54],
        VERSION == 3,
        VECTOR_DIM == 14,
        PACKED_DIMS == 16,
        BLOCK_VECS == 8 && LANES == 8,
        BLOCK_I16 == 14 * 8,
        BLOCK_BYTES == 2 * 14 * 8,
        MCC_TABLE_SIZE == 1024,
        NUM_CENTROIDS == 16384,
        HEADER_SIZE == 256,
        HEADER_PADDING == 256 - 8 - 11 * 4,
        PART_SIZE == 3 * 4 + 2 * 32,
        NODE_SIZE == 4 * 4 + 2 * 32,
        SUN_PATH_LEN == 108,
        INFINITY_BITS == 0x7F80_0000,
{
    assert(MAGIC@ =~= seq![82u8, 73, 78, 72, 65, 48, 50, 54]);
}

/// How much the searches and the builders look at, and what is used where nothing is set.
pub proof fn law_settings()
    ensures
        TOP_K == 5,
        EARLY_DISTANCE_LIMIT == 1400 * 1400,
        STACK_SIZE == 128,
        MAX_PROBES == 256,
        NPROBE_FAST == 4,
        NPROBE_MID == 12,
        NPROBE_DEEP == 32,
        HNSW_M == 8,
        HNSW_M0 == 16,
        HNSW_SENTINEL == 0xFF_FFFF,
        EF_SEARCH == 64,
        EF_CONSTRUCTION == 200,
        LEVEL_STEP == 0x9E37_79B9_7F4A_7C15,
        SHUFFLE_SALT == 0xA5A5_A5A5_5A5A_5A5A,
        DEFAULT_RISK == 64,
        DEFAULT_PORT == 9999,
        DEFAULT_WORKERS == 2,
        WAIT_ROUNDS == 200,
{
}

} // verus!
