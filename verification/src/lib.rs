//! Layout kernel for cloud diagrams of linked datasets.
//!
//! The crate holds what a force-directed layout decides without
//! arithmetic on coordinates: the graph of named vertices and the part of
//! it around one vertex, the grid that answers which points are near a
//! point, the tree from which the first placement starts, the overlay of
//! pinned vertices, the domains that datasets take from their neighbours
//! and the texts of a drawing. Coordinates are carried as values of a type
//! parameter, so that every function here is exact about where a
//! coordinate goes and silent about its arithmetic.

pub mod data;
pub mod graph;
pub mod ident;
pub mod reach;
pub mod settings;
pub mod spatial;
pub mod svg;
pub mod tree;
