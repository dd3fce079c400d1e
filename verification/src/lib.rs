//! A fixed-capacity key-value cache with least-recently-used eviction.
//!
//! [`LruCache`] pairs a hash index with a doubly linked recency order, so that
//! lookup, insertion, update and removal each take constant expected time.
//! Every access to an entry, a `get` included, makes it the most recently
//! used; a `put` of a new key into a full cache drops the least recently used
//! entry to make room.
//!
//! - [`cache`] holds the data structure and its operations. Each operation
//!   states what it does to the entries of the cache, seen as a sequence of
//!   key-value pairs from least to most recently used.
//! - [`model`] defines what each operation makes of such a sequence.
//! - [`laws`] proves what follows for one operation at a time: what is kept,
//!   what is dropped, and where an entry ends up.
//! - [`history`] proves what holds after any sequence of operations: the size
//!   stays within the capacity, and the recency order is the order in which
//!   the entries were last touched.

pub mod cache;
pub mod history;
pub mod laws;
pub mod model;

pub use cache::{LruCache, ZeroCapacity};
