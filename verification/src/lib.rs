//! A single-node key-value store organised as a log-structured merge tree.
//!
//! The crate holds the storage engine proper: the in-memory table, the block
//! format of sorted string tables, the table reader and writer, the merge of
//! overlapping tables, and the engine that routes writes and layered reads.
//! Everything here works on values in memory; files, sockets and tasks belong
//! to the program that embeds the engine.
pub mod persists;
