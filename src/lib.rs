//! A set of 64-bit integers kept in a cuckoo hash table: two groups of
//! slots, two seeded hash functions, and a bounded eviction walk that
//! falls back to doubling the table.

pub mod hashing;
pub mod cuckoo;

pub use cuckoo::CuckooHashTable;
