//! The storage engine and its parts.
pub mod bytes;
pub mod kv_store;
pub mod kv_store_proofs;
pub mod layer_proofs;
pub mod lsm_tree;
pub mod memtable;
pub mod sst;
pub mod wal;
