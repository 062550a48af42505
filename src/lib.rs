//! Copy-on-write hash map and hash set containers for a reference-counted host
//! runtime, stored in hashbrown's open-addressing table with caller-supplied
//! hashes and equality predicates.
pub mod keys;
pub mod map;
pub mod object;
pub mod set;
mod table;
