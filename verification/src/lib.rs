//! A fixed-capacity, in-memory cache with least-recently-used eviction.
//!
//! * [`state`] holds the mathematical description of a cache: its capacity,
//!   its resident entries and the order in which they were last touched,
//!   together with the effect of `put` and `get` on that description.
//! * [`model`] holds the executable [`model::Cache`], whose contracts are
//!   stated over [`state::CacheState`].
//! * [`laws`] holds theorems about the description that hold for every
//!   sequence of operations.

pub mod laws;
pub mod model;
pub mod state;
