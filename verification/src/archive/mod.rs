//! The session archive: what a transcript becomes and how it is kept.

pub mod compress;
pub mod strip;
pub mod transcript;
pub mod ingest;
pub mod sync;
pub mod memory;
pub mod like;
pub mod dicts;
pub mod query;
pub mod hooks;
pub mod schema;
pub mod lexicon;
pub mod fts;
pub mod scan;
