//! A fixed-capacity key/value cache that evicts the least recently used
//! entry once its capacity is exceeded.
//!
//! The cache couples a hash index (key to slot, for constant-time lookup)
//! with an arena-backed circular doubly-linked list ordered from most to
//! least recently used. Every public operation carries a contract that
//! pins down the resulting recency sequence exactly; the laws module
//! states and proves the cache-wide properties (capacity bound, eviction
//! order, recency bump, round trip, idempotent miss) over that model.

pub mod cache;
pub mod laws;
pub mod model;

pub use cache::LRUCache;
pub use cache::LRUCacheBase;
