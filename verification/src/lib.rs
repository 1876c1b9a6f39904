//! Maze solving on raster images.
//!
//! A grayscale bitmap is read as a maze: dark pixels are walls, light pixels
//! are open. The maze is turned into a graph of junctions joined by straight
//! corridors, the graph is searched best-first from a start to an end, and
//! the route is read back from the parent links the search leaves behind.

pub mod bitmap;
pub mod corridor;
pub mod extract;
pub mod frontier;
pub mod graph;
pub mod position;
pub mod probe;
pub mod queue;
pub mod render;
pub mod route;
pub mod search;
pub mod soundness;
pub mod table;
