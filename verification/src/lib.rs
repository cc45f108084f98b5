//! An incrementally maintained graph engine.
//!
//! The engine owns an adjacency structure (node -> incident edges, edge ->
//! ordered endpoint pair) together with derived aggregates that stay
//! consistent under arbitrary interleaved node and edge insertion and
//! deletion: the total degree and the number of connected components.  On top
//! of the adjacency structure it offers a family of classical graph
//! algorithms: a depth-first spanning-tree walk, a two-coloring bipartiteness
//! walk, a connectivity test, a bridge test, single-source shortest path, and
//! a labeled adjacency-matrix export.
//!
//! Nodes and edges are identified by opaque `u64` handles supplied by the
//! caller; the engine never interprets their internals.  A single `directed`
//! flag reinterprets the stored endpoint pairs at query time without touching
//! storage.

pub mod bipartite;
pub mod count;
pub mod graph;
pub mod laws;
pub mod matrix;
pub mod ops;
pub mod reach;
pub mod shortest;
pub mod traverse;
