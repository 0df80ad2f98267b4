//! The integer side of edge routing: the spatial grid that narrows the
//! obstacles an edge must avoid, and the ranks of edges that join the same
//! two nodes. Geometry is the caller's.

pub mod grid;
pub mod parallel;
