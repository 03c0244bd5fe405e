//! Dependency-graph construction and layered layout for source trees.
//!
//! Raw import strings are resolved to project-relative paths, matched against
//! the known node identities, and the resulting directed graph is laid out on
//! a grid: one row per layer, nodes of a row ordered by identity.

pub mod graph;
pub mod layers;
pub mod text;
pub mod layout;
pub mod hex;
pub mod paths;
pub mod parser;
