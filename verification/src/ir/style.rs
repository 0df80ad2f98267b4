//! Style vocabulary: shapes, component roles and edge styles. Roles drive
//! theming; shapes drive geometry.

use vstd::prelude::*;

verus! {

/// Geometric shape of a node.
#[derive(Debug, Clone, Copy, PartialEq, Eq, Structural)]
pub enum NodeShape {
    Rect,
    RoundedRect,
    /// Database / storage cylinder.
    Cylinder,
    Diamond,
    Hexagon,
    Circle,
    /// Horizontal queue / pipe shape.
    Queue,
    /// Stadium (pill) shape.
    Stadium,
    /// Person / actor figure.
    Actor,
    Cloud,
}

/// Semantic role of a component; drives the border color.
#[derive(Debug, Clone, Copy, PartialEq, Eq, Structural)]
pub enum ComponentRole {
    Generic,
    Service,
    Database,
    Cache,
    Queue,
    Gateway,
    Client,
    External,
    Storage,
    Compute,
    Highlight,
}

/// Visual style of an edge: solid = request flow, dashed = async/event,
/// thick = hot path, invisible = layout-only link.
#[derive(Debug, Clone, Copy, PartialEq, Eq, Structural)]
pub enum EdgeStyle {
    Solid,
    Dashed,
    Thick,
    Dotted,
    Invisible,
}

impl NodeShape {
    /// The default shape (`Rect`).
    pub fn default_shape() -> (r: NodeShape)
        ensures
            r == NodeShape::Rect,
    {
        NodeShape::Rect
    }
}

impl ComponentRole {
    /// The default role (`Generic`).
    pub fn default_role() -> (r: ComponentRole)
        ensures
            r == ComponentRole::Generic,
    {
        ComponentRole::Generic
    }
}

} // verus!
