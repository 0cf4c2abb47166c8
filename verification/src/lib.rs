//! An in-memory graph library: index-addressed undirected and directed
//! graphs with a shared capability trait, plus breadth-first and
//! depth-first traversal producing spanning trees and forests.

pub mod index_set;
pub mod graph;
pub mod tree;
pub mod traversal;
