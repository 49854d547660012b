//! A small distributed approximate-nearest-neighbour vector store:
//! a hierarchical navigable small world (HNSW) index over fixed-point
//! coordinates, a checksummed write-ahead log, a snapshot codec, and
//! the placement / quorum / merge rules of the request router.

pub mod backend;
pub mod distance;
pub mod hnsw;
pub mod router;
pub mod snapshot;
pub mod wal;
