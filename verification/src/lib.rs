//! Minimal perfect hashing for a key set known in advance.
//!
//! [`generate_hash`] takes keys with the values they are to hash to and
//! looks for a [`PerfectHash`]: two salts and a table such that every key's
//! two salted hashes point at table entries that add up to the key's value.
//! It finds one by trial: it draws salts, connects the two hashes of each
//! key by an edge in a [`graph::Graph`], and succeeds when that graph is a
//! forest, whose labelling is the table.

pub mod forest;
pub mod generate;
pub mod graph;
pub mod hash;
mod layout;
pub mod perfect;
pub mod random;
mod traverse;

pub use crate::generate::{check_keys, generate_hash, grow, try_build, BuildError, TRIALS};
pub use crate::perfect::{PerfectHash, PerfectHashView};
