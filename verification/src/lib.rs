//! A small version control engine: a content-addressed object store, a
//! staging index, branch and `HEAD` references, and the algorithms that bind
//! them together (commit graph traversal, merge base, three-way merge, and
//! materialising a tree onto a working directory).
//!
//! The engine works on values held in memory. Reading a repository from disk
//! and writing it back is left to the caller.

pub mod blob;
pub mod bytemap;
pub mod bytes;
pub mod clock;
pub mod commands;
pub mod commit;
pub mod diff;
pub mod error;
pub mod graph;
pub mod hash;
pub mod index;
pub mod laws;
pub mod object;
pub mod paths;
pub mod reference;
pub mod round_trip;
pub mod serialize;
pub mod storage;
pub mod three_way;
pub mod tree;
pub mod tree_build;
pub mod tree_laws;
pub mod tree_names;
pub mod workspace;
