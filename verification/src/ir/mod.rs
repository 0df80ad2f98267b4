//! Intermediate representation shared by every pipeline stage.

pub mod style;
pub mod graph;
pub mod linear;
pub mod charts;
pub mod sequence;
pub mod document;
