//! A persistent, per-request token ledger for a coding assistant, with its
//! rules stated as contracts.

pub mod bucket;
pub mod double;
pub mod ingest;
pub mod ledger;
pub mod payload;
pub mod pricing;
pub mod render;
pub mod statusline;
pub mod store;
pub mod text;
pub mod transcript;
pub mod usage;
