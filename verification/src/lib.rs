//! A verified simulator for a set-associative hardware cache with LRU
//! eviction: addresses are split into tag/index/offset fields, a trace of
//! memory operations is replayed against the cache, and hit/miss/eviction
//! counts are reported.

pub mod address;
pub mod digits;
pub mod cache;
pub mod cli;
pub mod model;
pub mod trace;
