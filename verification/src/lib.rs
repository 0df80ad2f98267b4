//! Layra: a Mermaid-compatible diagram engine. This crate holds the verified
//! core: the diagram IR, the source parsers, the structural phases of the
//! layered layout, and the integer-exact chart renderers.

pub mod text;
pub mod ir;
pub mod parser;
pub mod render;
pub mod icons;
pub mod layout;
pub mod router;
