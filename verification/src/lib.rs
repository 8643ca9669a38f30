//! Graphs over identified vertices, an indexed d-ary priority queue and
//! Prim's minimum spanning tree, with their behaviour stated as contracts.

pub mod id;
pub mod order;
pub mod pqi;
pub mod graph;
pub mod mst;
pub mod plot;
pub mod optimal;
