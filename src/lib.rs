//! An adaptive visibility grid and an incremental path search around a
//! polygonal obstacle, on integer coordinates.

pub mod geom;
pub mod grid;
pub mod graph;
pub mod metric;
pub mod search;
pub mod utils;
pub mod model;
