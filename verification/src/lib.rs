//! A minimal hierarchical document store.
//!
//! Values are addressed by paths: ordered sequences of non-empty segment
//! labels. The store is a tree in which every path segment is an edge label;
//! each node owns its children and an optional value slot. Nodes that exist
//! only because they are ancestors of a stored path carry no value.
//!
//! The abstract model of a tree is a map from paths (sequences of segment
//! label views) to the optional value stored at that path; every contract is
//! stated over that map.

pub mod document;
pub mod laws;
pub mod model;
pub mod node;
pub mod ops;
pub mod util;
