//! Fraud scoring by nearest-neighbour search over quantized transaction vectors.
pub mod beam;
pub mod beam_laws;
pub mod best;
pub mod blob;
pub mod blob_build;
pub mod blob_laws;
pub mod built;
pub mod bytes;
pub mod calendar;
pub mod config;
pub mod consts;
pub mod distance;
pub mod edges;
pub mod feature;
pub mod frontier;
pub mod handoff;
pub mod header;
pub mod heap;
pub mod hnsw;
pub mod hnsw_build;
pub mod index;
pub mod ivf;
pub mod kdtree;
pub mod knn;
pub mod knn_laws;
pub mod knn_stops;
pub mod layer;
pub mod levels;
pub mod limits;
pub mod moment_laws;
pub mod order;
pub mod payload;
pub mod payload_laws;
pub mod reach;
pub mod rng;
pub mod scan;
pub mod select;
pub mod select_laws;
pub mod sort;
pub mod text;
pub mod text_laws;
pub mod topk;
pub mod wire;
pub mod wire_laws;
