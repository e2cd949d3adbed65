//! The executable cache.

pub mod cache;

pub use cache::Cache;
