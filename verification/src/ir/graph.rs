//! The diagram graph: arena storage with index-based IDs.

use vstd::prelude::*;
use crate::ir::style::{ComponentRole, EdgeStyle, NodeShape};

verus! {

/// Index of a node in `Graph::nodes`.
#[derive(Debug, Clone, Copy, PartialEq, Eq, Structural)]
pub struct NodeId(pub u32);

/// Index of an edge in `Graph::edges`.
#[derive(Debug, Clone, Copy, PartialEq, Eq, Structural)]
pub struct EdgeId(pub u32);

/// Index of a subgraph in `Graph::subgraphs`.
#[derive(Debug, Clone, Copy, PartialEq, Eq, Structural)]
pub struct SubgraphId(pub u32);

impl NodeId {
    pub fn index(self) -> (r: usize)
        ensures
            r == self.0,
    {
        self.0 as usize
    }
}

impl EdgeId {
    pub fn index(self) -> (r: usize)
        ensures
            r == self.0,
    {
        self.0 as usize
    }
}

impl SubgraphId {
    pub fn index(self) -> (r: usize)
        ensures
            r == self.0,
    {
        self.0 as usize
    }
}

/// Edge end markers.
#[derive(Debug, Clone, Copy, PartialEq, Eq, Structural)]
pub enum EdgeKind {
    Arrow,
    Open,
    Bidirectional,
    /// UML generalization: hollow triangle at the source.
    Triangle,
    /// UML composition: filled diamond at the source.
    DiamondFilled,
    /// UML aggregation: hollow diamond at the source.
    DiamondOpen,
}

/// Layout direction, matching Mermaid's `TB`/`LR`/... vocabulary.
#[derive(Debug, Clone, Copy, PartialEq, Eq, Structural)]
pub enum Direction {
    TopBottom,
    LeftRight,
    BottomTop,
    RightLeft,
}

/// A node. Geometry (measured size, final position) is attached by the
/// layout stage outside this crate.
#[derive(Debug)]
pub struct Node {
    /// Stable identifier from the source text (`db` in `db["Postgres"]`).
    pub name: String,
    pub label: String,
    pub shape: NodeShape,
    pub role: ComponentRole,
    /// Optional icon reference, e.g. `logos:postgresql`.
    pub icon: Option<String>,
    /// Owning subgraph, if any.
    pub parent: Option<SubgraphId>,
    /// Compartments of a class/entity box (fields, methods, attributes).
    pub sections: Vec<String>,
}

pub struct NodeV {
    pub name: Seq<char>,
    pub label: Seq<char>,
    pub shape: NodeShape,
    pub role: ComponentRole,
    pub icon: Option<Seq<char>>,
    pub parent: Option<SubgraphId>,
    pub sections: Seq<Seq<char>>,
}

pub open spec fn opt_view(o: Option<String>) -> Option<Seq<char>> {
    match o {
        Some(s) => Some(s@),
        None => None,
    }
}

pub open spec fn strings_view(v: Seq<String>) -> Seq<Seq<char>> {
    v.map_values(|s: String| s@)
}

impl View for Node {
    type V = NodeV;

    open spec fn view(&self) -> NodeV {
        NodeV {
            name: self.name@,
            label: self.label@,
            shape: self.shape,
            role: self.role,
            icon: opt_view(self.icon),
            parent: self.parent,
            sections: strings_view(self.sections@),
        }
    }
}

#[derive(Debug)]
pub struct Edge {
    pub source: NodeId,
    pub target: NodeId,
    pub label: Option<String>,
    pub style: EdgeStyle,
    pub kind: EdgeKind,
    /// Endpoint labels (UML multiplicities / ER cardinalities): (source, target).
    pub end_labels: Option<(String, String)>,
    /// Flowing-dash animation hint.
    pub animated: bool,
}

pub struct EdgeV {
    pub source: NodeId,
    pub target: NodeId,
    pub label: Option<Seq<char>>,
    pub style: EdgeStyle,
    pub kind: EdgeKind,
    pub end_labels: Option<(Seq<char>, Seq<char>)>,
    pub animated: bool,
}

pub open spec fn pair_view(o: Option<(String, String)>) -> Option<(Seq<char>, Seq<char>)> {
    match o {
        Some((a, b)) => Some((a@, b@)),
        None => None,
    }
}

impl View for Edge {
    type V = EdgeV;

    open spec fn view(&self) -> EdgeV {
        EdgeV {
            source: self.source,
            target: self.target,
            label: opt_view(self.label),
            style: self.style,
            kind: self.kind,
            end_labels: pair_view(self.end_labels),
            animated: self.animated,
        }
    }
}

#[derive(Debug)]
pub struct Subgraph {
    pub name: String,
    pub label: String,
    pub nodes: Vec<NodeId>,
    pub parent: Option<SubgraphId>,
}

pub struct SubgraphV {
    pub name: Seq<char>,
    pub label: Seq<char>,
    pub nodes: Seq<NodeId>,
    pub parent: Option<SubgraphId>,
}

impl View for Subgraph {
    type V = SubgraphV;

    open spec fn view(&self) -> SubgraphV {
        SubgraphV { name: self.name@, label: self.label@, nodes: self.nodes@, parent: self.parent }
    }
}

#[derive(Debug)]
pub struct Graph {
    pub direction: Direction,
    pub nodes: Vec<Node>,
    pub edges: Vec<Edge>,
    pub subgraphs: Vec<Subgraph>,
}

pub struct GraphV {
    pub direction: Direction,
    pub nodes: Seq<NodeV>,
    pub edges: Seq<EdgeV>,
    pub subgraphs: Seq<SubgraphV>,
}

impl View for Graph {
    type V = GraphV;

    open spec fn view(&self) -> GraphV {
        GraphV {
            direction: self.direction,
            nodes: self.nodes@.map_values(|n: Node| n@),
            edges: self.edges@.map_values(|e: Edge| e@),
            subgraphs: self.subgraphs@.map_values(|s: Subgraph| s@),
        }
    }
}

/// The node a fresh `Node::new(name, label)` describes.
pub open spec fn new_node(name: Seq<char>, label: Seq<char>) -> NodeV {
    NodeV {
        name,
        label,
        shape: NodeShape::Rect,
        role: ComponentRole::Generic,
        icon: None,
        parent: None,
        sections: seq![],
    }
}

/// First index of a node named `name`.
pub open spec fn index_by_name(nodes: Seq<NodeV>, name: Seq<char>, i: int) -> Option<int>
    decreases nodes.len() - i,
{
    if i < 0 || i >= nodes.len() {
        None
    } else if nodes[i].name == name {
        Some(i)
    } else {
        index_by_name(nodes, name, i + 1)
    }
}

pub proof fn lemma_index_by_name(nodes: Seq<NodeV>, name: Seq<char>, i: int)
    requires
        0 <= i,
    ensures
        index_by_name(nodes, name, i) matches Some(k) ==> i <= k < nodes.len() && nodes[k].name
            == name,
        index_by_name(nodes, name, i) is None ==> forall|k: int|
            i <= k < nodes.len() ==> nodes[k].name != name,
    decreases nodes.len() - i,
{
    if i < nodes.len() && nodes[i].name != name {
        lemma_index_by_name(nodes, name, i + 1);
    }
}

impl Node {
    /// A node with the given name and label and default shape and role;
    /// sizes and positions are attached by later pipeline stages.
    pub fn new(name: String, label: String) -> (r: Node)
        ensures
            r@ == new_node(name@, label@),
    {
        let r = Node {
            name,
            label,
            shape: NodeShape::Rect,
            role: ComponentRole::Generic,
            icon: None,
            parent: None,
            sections: Vec::new(),
        };
        assert(r@.sections =~= Seq::<Seq<char>>::empty());
        r
    }
}

impl Graph {
    /// An empty graph flowing in `direction`.
    pub fn new(direction: Direction) -> (r: Graph)
        ensures
            r@.direction == direction,
            r@.nodes.len() == 0,
            r@.edges.len() == 0,
            r@.subgraphs.len() == 0,
    {
        Graph { direction, nodes: Vec::new(), edges: Vec::new(), subgraphs: Vec::new() }
    }

    /// Appends a node; its ID is its index.
    pub fn add_node(&mut self, node: Node) -> (id: NodeId)
        ensures
            id.0 == old(self).nodes@.len() as u32,
            final(self)@ == (GraphV { nodes: old(self)@.nodes.push(node@), ..old(self)@ }),
    {
        let id = NodeId(#[verifier::truncate] (self.nodes.len() as u32));
        self.nodes.push(node);
        assert(self@.nodes =~= old(self)@.nodes.push(node@));
        id
    }

    /// Appends an edge; its ID is its index.
    pub fn add_edge(&mut self, edge: Edge) -> (id: EdgeId)
        ensures
            id.0 == old(self).edges@.len() as u32,
            final(self)@ == (GraphV { edges: old(self)@.edges.push(edge@), ..old(self)@ }),
    {
        let id = EdgeId(#[verifier::truncate] (self.edges.len() as u32));
        self.edges.push(edge);
        assert(self@.edges =~= old(self)@.edges.push(edge@));
        id
    }

    /// Appends a subgraph; its ID is its index.
    pub fn add_subgraph(&mut self, subgraph: Subgraph) -> (id: SubgraphId)
        ensures
            id.0 == old(self).subgraphs@.len() as u32,
            final(self)@ == (GraphV {
                subgraphs: old(self)@.subgraphs.push(subgraph@),
                ..old(self)@
            }),
    {
        let id = SubgraphId(#[verifier::truncate] (self.subgraphs.len() as u32));
        self.subgraphs.push(subgraph);
        assert(self@.subgraphs =~= old(self)@.subgraphs.push(subgraph@));
        id
    }

    pub fn node(&self, id: NodeId) -> (r: &Node)
        requires
            id.0 < self.nodes@.len(),
        ensures
            *r == self.nodes@[id.0 as int],
    {
        &self.nodes[id.index()]
    }

    pub fn node_mut(&mut self, id: NodeId) -> (r: &mut Node)
        requires
            id.0 < old(self).nodes@.len(),
        ensures
            *r == old(self).nodes@[id.0 as int],
            final(self).nodes@ == old(self).nodes@.update(id.0 as int, *final(r)),
            final(self).direction == old(self).direction,
            final(self).edges == old(self).edges,
            final(self).subgraphs == old(self).subgraphs,
    {
        &mut self.nodes[id.index()]
    }

    pub fn subgraph_mut(&mut self, id: SubgraphId) -> (r: &mut Subgraph)
        requires
            id.0 < old(self).subgraphs@.len(),
        ensures
            *r == old(self).subgraphs@[id.0 as int],
            final(self).subgraphs@ == old(self).subgraphs@.update(id.0 as int, *final(r)),
            final(self).direction == old(self).direction,
            final(self).edges == old(self).edges,
            final(self).nodes == old(self).nodes,
    {
        &mut self.subgraphs[id.index()]
    }

    /// The first node whose source-text name is `name`.
    pub fn node_by_name(&self, name: &str) -> (r: Option<NodeId>)
        ensures
            match index_by_name(self@.nodes, name@, 0) {
                Some(i) => r == Some(NodeId(i as u32)),
                None => r is None,
            },
    {
        let mut i: usize = 0;
        while i < self.nodes.len()
            invariant
                i <= self.nodes@.len(),
                index_by_name(self@.nodes, name@, 0) == index_by_name(self@.nodes, name@, i as int),
            decreases self.nodes@.len() - i,
        {
            assert(self@.nodes[i as int] == self.nodes@[i as int]@);
            let a = crate::text::chars_of(self.nodes[i].name.as_str());
            let b = crate::text::chars_of(name);
            if crate::text::eq_of(&a, &b) {
                return Some(NodeId(#[verifier::truncate] (i as u32)));
            }
            i += 1;
        }
        None
    }
}

} // verus!
