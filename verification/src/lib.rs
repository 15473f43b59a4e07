//! Core of a sparse-vector inverted index: posting lists with pruning
//! bounds, a mutable RAM backend, a frozen (immutable) backend with a
//! validated on-disk encoding, storage versioning, and a bounded pool of
//! reusable score buffers.
pub mod element;
pub mod storage_version;
pub mod posting_list;
pub mod sparse_vector;
pub mod inverted_index_ram;
pub mod inverted_index_immutable_ram;
pub mod codec;
pub mod scores_memory_pool;
