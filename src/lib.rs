//! Sparse-vector inverted index: posting lists, cursors over them, an in-memory
//! build-time index, a flat serving layout, and exact top-K retrieval.
pub mod types;
pub mod inverted_index;
pub mod inverted_index_mmap;
pub mod inverted_index_ram;
pub mod layout;
pub mod posting_list;
pub mod search_context;
pub mod sparse_vector;
