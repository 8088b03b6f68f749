//! Sorted string tables: the block format, the reader and the writer.
pub mod block_entry;
pub mod flush_worker;
pub mod round_trip;
pub mod sorted_string_table;
pub mod ss_table_reader;
pub mod sst_table_block;
pub mod sst_writer;
pub mod table_file;
pub mod table_result;
