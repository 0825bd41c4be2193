//! A forking state backend: a verified model of the request-coalescing,
//! caching event loop that answers account, storage and block-hash lookups
//! for a chain pinned at a historical block.

pub mod types;
pub mod table;
pub mod account;
pub mod error;
pub mod model;
pub mod handler;
pub mod cache_file;
pub mod client;
pub mod mode;
pub mod pool;
pub mod range;
pub mod lemmas;
