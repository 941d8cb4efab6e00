pub use super::{
    chunk_capacity_for_bytes, Chunk, FingerTree, FingerTreeStore, Measured, Value, CACHE_LINE_BYTES,
};
