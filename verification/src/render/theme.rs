//! Color themes: flat fills, one border hue per component role, neutral edges.

use vstd::prelude::*;
use crate::ir::style::ComponentRole;

verus! {

/// The colors a diagram is drawn with.
#[derive(Debug, Clone)]
pub struct Theme {
    pub background: &'static str,
    pub node_fill: &'static str,
    pub text: &'static str,
    pub edge: &'static str,
    pub edge_label: &'static str,
    pub cluster_fill: &'static str,
    pub cluster_stroke: &'static str,
    pub cluster_title: &'static str,
    pub note_fill: &'static str,
    pub note_stroke: &'static str,
    pub note_text: &'static str,
    pub is_dark: bool,
}

pub struct ThemeV {
    pub background: Seq<char>,
    pub node_fill: Seq<char>,
    pub text: Seq<char>,
    pub edge: Seq<char>,
    pub edge_label: Seq<char>,
    pub cluster_fill: Seq<char>,
    pub cluster_stroke: Seq<char>,
    pub cluster_title: Seq<char>,
    pub note_fill: Seq<char>,
    pub note_stroke: Seq<char>,
    pub note_text: Seq<char>,
    pub is_dark: bool,
}

impl View for Theme {
    type V = ThemeV;

    open spec fn view(&self) -> ThemeV {
        ThemeV {
            background: self.background@,
            node_fill: self.node_fill@,
            text: self.text@,
            edge: self.edge@,
            edge_label: self.edge_label@,
            cluster_fill: self.cluster_fill@,
            cluster_stroke: self.cluster_stroke@,
            cluster_title: self.cluster_title@,
            note_fill: self.note_fill@,
            note_stroke: self.note_stroke@,
            note_text: self.note_text@,
            is_dark: self.is_dark,
        }
    }
}

/// The light theme's colors.
pub open spec fn light_theme() -> ThemeV {
    ThemeV {
        background: "#ffffff"@,
        node_fill: "#ffffff"@,
        text: "#1a1d23"@,
        edge: "#8a919e"@,
        edge_label: "#4b5563"@,
        cluster_fill: "#fafbfc"@,
        cluster_stroke: "#c3c9d4"@,
        cluster_title: "#475569"@,
        note_fill: "#fef9c3"@,
        note_stroke: "#d9c84a"@,
        note_text: "#5b5314"@,
        is_dark: false,
    }
}

/// The dark theme's colors.
pub open spec fn dark_theme() -> ThemeV {
    ThemeV {
        background: "#0f1115"@,
        node_fill: "#171a21"@,
        text: "#e5e9f0"@,
        edge: "#6b7280"@,
        edge_label: "#9ca3af"@,
        cluster_fill: "#13161c"@,
        cluster_stroke: "#2d3340"@,
        cluster_title: "#64748b"@,
        note_fill: "#2a2616"@,
        note_stroke: "#6b5f1d"@,
        note_text: "#d8c95a"@,
        is_dark: true,
    }
}

/// Border hue of a component role; the same in both themes.
pub open spec fn role_hue(role: ComponentRole) -> Seq<char> {
    match role {
        ComponentRole::Generic => "#94a3b8"@,
        ComponentRole::Service => "#3b82f6"@,
        ComponentRole::Database => "#8b5cf6"@,
        ComponentRole::Cache => "#ef4444"@,
        ComponentRole::Queue => "#f59e0b"@,
        ComponentRole::Gateway => "#06b6d4"@,
        ComponentRole::Client => "#10b981"@,
        ComponentRole::External => "#64748b"@,
        ComponentRole::Storage => "#a855f7"@,
        ComponentRole::Compute => "#0ea5e9"@,
        ComponentRole::Highlight => "#ec4899"@,
    }
}

impl Theme {
    pub fn light() -> (r: Theme)
        ensures
            r@ == light_theme(),
    {
        Theme {
            background: "#ffffff",
            node_fill: "#ffffff",
            text: "#1a1d23",
            edge: "#8a919e",
            edge_label: "#4b5563",
            cluster_fill: "#fafbfc",
            cluster_stroke: "#c3c9d4",
            cluster_title: "#475569",
            note_fill: "#fef9c3",
            note_stroke: "#d9c84a",
            note_text: "#5b5314",
            is_dark: false,
        }
    }

    pub fn dark() -> (r: Theme)
        ensures
            r@ == dark_theme(),
    {
        Theme {
            background: "#0f1115",
            node_fill: "#171a21",
            text: "#e5e9f0",
            edge: "#6b7280",
            edge_label: "#9ca3af",
            cluster_fill: "#13161c",
            cluster_stroke: "#2d3340",
            cluster_title: "#64748b",
            note_fill: "#2a2616",
            note_stroke: "#6b5f1d",
            note_text: "#d8c95a",
            is_dark: true,
        }
    }

    /// Role border colors: one hue per semantic role, shared by both themes.
    pub fn role_color(&self, role: ComponentRole) -> (r: &'static str)
        ensures
            r@ == role_hue(role),
    {
        match role {
            ComponentRole::Generic => "#94a3b8",
            ComponentRole::Service => "#3b82f6",
            ComponentRole::Database => "#8b5cf6",
            ComponentRole::Cache => "#ef4444",
            ComponentRole::Queue => "#f59e0b",
            ComponentRole::Gateway => "#06b6d4",
            ComponentRole::Client => "#10b981",
            ComponentRole::External => "#64748b",
            ComponentRole::Storage => "#a855f7",
            ComponentRole::Compute => "#0ea5e9",
            ComponentRole::Highlight => "#ec4899",
        }
    }
}

} // verus!
