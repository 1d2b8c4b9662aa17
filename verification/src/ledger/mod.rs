//! The vector ledger: every ingested packet's vector and metadata.

pub mod store;

pub use store::Ledger;
