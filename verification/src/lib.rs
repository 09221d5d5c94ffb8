//! A consistent-hashing lookup structure: a sorted table from 64-bit hashes
//! to stored items, a shared ring that guards one such table with a
//! reader/writer lock, and a grid of independent rings addressed by index.

pub mod grid;
pub mod hash;
pub mod laws;
pub mod ring;
pub mod table;
