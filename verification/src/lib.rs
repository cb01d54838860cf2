//! # iqdb-cache
//!
//! The bounded result caches behind an in-process search cache: a
//! least-recently-used map ([`LruCache`]), the recency-ordered map every
//! eviction policy is built on ([`OrderedMap`]), and the four eviction
//! policies (LRU, FIFO, LFU, ARC) behind one dispatching [`PolicyCache`].
//! Every cache keeps its entries within its capacity, and a lookup only ever
//! returns the value last stored under its key.

pub mod arc_model;
pub mod cached;
pub mod config;
mod links;
pub mod lru;
pub mod model;
pub mod ordered;
pub mod policy;
pub mod stats;

pub use crate::config::{CacheConfig, EvictionPolicy, DEFAULT_CAPACITY};
pub use crate::lru::LruCache;
pub use crate::ordered::OrderedMap;
pub use crate::policy::{ArcCache, LfuCache, PolicyCache, RecencyCache};
pub use crate::stats::CacheStats;
