//! Source-aware dependency resolution for a package manager, together with
//! the naming of nightly releases.
//!
//! The crate normalises dependency declarations into comparable source
//! identities, resolves the transitive closure of a root manifest while
//! detecting packages required from incompatible sources, and orders the
//! resolved graph for compilation. Every function carries a contract that
//! is checked by Verus.
pub mod git_cache;
pub mod graph;
pub mod guarantees;
pub mod loader;
pub mod manifest;
pub mod nightly;
pub mod order;
pub mod resolution;
pub mod resolver;
pub mod source;
