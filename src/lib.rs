//! A persistent key/value store built as a log-structured merge tree: a
//! memtable in front of immutable sorted segments, each with a bloom filter
//! and a sparse index, and a write-ahead log for the memtable. The engine
//! decides; its caller reads and writes the files.

pub mod bloom_filter;
pub mod bloom_filter_registry;
pub mod bytes;
pub mod database;
pub mod entry;
pub mod error;
pub mod file_directory;
pub mod file_name;
pub mod index_entry;
pub mod index_file;
pub mod index_file_registry;
pub mod lines;
pub mod mem_table;
pub mod model;
pub mod protocol;
pub mod response;
pub mod segment_file;
pub mod segment_file_registry;
pub mod thread_pool;
