//! A UI-agnostic logging core: severity levels, the structured lines a store
//! keeps, prefixes and padding, line buffering, smart-case matching, and the
//! capped per-tag store.

pub mod buffer;
pub mod format;
pub mod level;
pub mod search;
pub mod store;

