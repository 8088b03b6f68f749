//! The table that takes the writes in memory.
pub mod btree_map;
pub mod memtable_trait;
