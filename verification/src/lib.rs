//! A personal configuration-file manager's core: a database mapping
//! configuration names to tracked (source, target) path pairs, its JSON
//! persistence format, and the planning logic for hard-link materialization
//! and directory ingestion.

pub mod db;
pub mod ingest;
pub mod json;
pub mod links;
pub mod roundtrip;
pub mod sync;

pub use db::Config;
pub use db::ConfigsDB;
pub use db::CoreError;
