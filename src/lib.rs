//! A small log-structured merge-tree storage engine for byte-string keys and values.
pub mod block;
pub mod block_builder;
pub mod block_iterator;
pub mod codec;
pub mod error;
pub mod flat;
pub mod iterators;
pub mod keys;
pub mod laws;
pub mod lsm_iterator;
pub mod lsm_storage;
pub mod mem_table;
pub mod merge_iterator;
pub mod run;
pub mod table;
pub mod table_builder;
pub mod table_iterator;
