//! Multi-version concurrency control: version records and snapshots.
pub mod txn;
pub mod version;

pub use txn::Txn;
