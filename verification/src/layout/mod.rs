//! Structural phases of the layered (Sugiyama) layout. They work on node
//! indices only: sizes and coordinates are the caller's business.

pub mod layering;
pub mod crossing;
