//! The cache and its recency bookkeeping.
pub mod my_lru_cache;
