//! A bounded key-value cache that evicts the least recently used entry.
pub mod cache;
