//! An embedded transactional key-value storage engine: fixed-size pages,
//! slotted records, an LRU buffer pool, a B+tree index, an append-only heap
//! and snapshot-isolated multi-version transactions.
pub mod error;
pub mod page;
pub mod disk;
pub mod buffer;
pub mod heap;
pub mod btree;
pub mod mvcc;
pub mod db;
