//! A small relational storage engine: fixed-size pages, a bounded page cache,
//! slotted pages chained into per-table heaps, a tagged row codec, a text
//! catalog and an executor for CREATE TABLE, INSERT and SELECT *.
pub mod storage;
pub mod slotted_page;
pub mod text;
pub mod database;
pub mod buffer;
pub mod executor;
pub mod protocol;
