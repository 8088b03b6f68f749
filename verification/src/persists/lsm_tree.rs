//! The tables on disk: their levels, and the merge of tables that overlap.
pub mod compaction;
pub mod lsm_manager;
pub mod merge;
