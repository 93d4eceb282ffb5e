//! An in-memory block buffer cache in the classic Unix style: a fixed pool of
//! buffer headers, a least-recently-used free list, a hash-bucketed lookup
//! index, and the acquire/release (`getblk`/`brelse`) algorithm that ties them
//! together.

pub mod buffer;
pub mod disk;
pub mod hashing;
