//! A fixed-capacity key-value cache with SIEVE eviction.
//!
//! The cache keeps its entries in an arena of stable slots, threads them on a
//! doubly linked list in insertion order (head = newest, tail = oldest), and
//! finds them through a hash index from key to slot handle.  Eviction walks
//! the list from a persistent "hand" toward the head, clearing visited bits
//! as it goes, and removes the first unvisited entry it meets; because the
//! hand stays where it stopped, repeated evictions rescan each entry at most
//! once per full rotation.
//!
//! Every operation that touches cache state — `get` included, since a hit
//! marks its entry visited — takes the cache by exclusive reference, so a
//! caller that shares one cache across threads serializes all operations,
//! typically with a single exclusive lock around the cache.

pub mod arena;
pub mod cache;
