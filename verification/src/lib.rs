//! Average shortest-path distance over a directed graph read from a
//! plain-text edge list.
//!
//! The crate has three parts, consumed in order: `parse` turns text lines
//! into validated `(source, target)` edges, `graph` builds a directed graph
//! keyed by the raw vertex identifiers, and `traverse` runs a breadth-first
//! traversal from every vertex and aggregates the shortest-path distances
//! over all ordered reachable pairs.

pub mod graph;
pub mod parse;
pub mod traverse;
