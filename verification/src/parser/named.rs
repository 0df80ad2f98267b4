//! Name tables shared by the diagram parsers that map names to graph nodes
//! (state, class and ER diagrams).

use vstd::prelude::*;
use crate::ir::graph::{GraphV, Node, NodeId, NodeV, Graph, SubgraphId};
use crate::ir::style::{ComponentRole, NodeShape};
use crate::text::{eq_of, string_of};

verus! {

/// The node recorded for `name`, if any.
pub open spec fn name_lookup(m: Seq<(Seq<char>, NodeId)>, name: Seq<char>) -> Option<NodeId>
    decreases m.len(),
{
    if m.len() == 0 {
        None
    } else if m.last().0 == name {
        Some(m.last().1)
    } else {
        name_lookup(m.drop_last(), name)
    }
}

/// Get-or-create the node named `name`: a new node gets `shape`, `role`
/// and `parent`, label = name, and is recorded in the table. Returns the
/// graph, the table, the id, and whether the node is new.
pub open spec fn named_intern(
    g: GraphV,
    m: Seq<(Seq<char>, NodeId)>,
    name: Seq<char>,
    shape: NodeShape,
    role: ComponentRole,
    parent: Option<SubgraphId>,
) -> (GraphV, Seq<(Seq<char>, NodeId)>, NodeId, bool) {
    match name_lookup(m, name) {
        Some(id) => (g, m, id, false),
        None => {
            let id = NodeId(g.nodes.len() as u32);
            let node = NodeV {
                name,
                label: name,
                shape,
                role,
                icon: None,
                parent,
                sections: seq![],
            };
            (GraphV { nodes: g.nodes.push(node), ..g }, m.push((name, id)), id, true)
        },
    }
}

pub open spec fn table_view(v: Seq<(Vec<char>, NodeId)>) -> Seq<(Seq<char>, NodeId)> {
    v.map_values(|e: (Vec<char>, NodeId)| (e.0@, e.1))
}

pub fn name_lookup_of(m: &Vec<(Vec<char>, NodeId)>, name: &[char]) -> (r: Option<NodeId>)
    ensures
        r == name_lookup(table_view(m@), name@),
{
    let ghost tv = table_view(m@);
    let mut i: usize = m.len();
    assert(tv.take(m@.len() as int) == tv);
    while i > 0
        invariant
            i <= m@.len(),
            tv == table_view(m@),
            name_lookup(tv, name@) == name_lookup(tv.take(i as int), name@),
        decreases i,
    {
        assert(tv.take(i as int).drop_last() == tv.take(i - 1));
        assert(tv.take(i as int).last() == (m@[i - 1].0@, m@[i - 1].1));
        if eq_of(&m[i - 1].0, name) {
            return Some(m[i - 1].1);
        }
        i -= 1;
    }
    None
}

pub fn named_intern_of(
    g: &mut Graph,
    m: &mut Vec<(Vec<char>, NodeId)>,
    name: &[char],
    shape: NodeShape,
    role: ComponentRole,
    parent: Option<SubgraphId>,
) -> (r: (NodeId, bool))
    ensures
        named_intern(old(g)@, table_view(old(m)@), name@, shape, role, parent) == (
            final(g)@,
            table_view(final(m)@),
            r.0,
            r.1,
        ),
{
    match name_lookup_of(m, name) {
        Some(id) => (id, false),
        None => {
            let mut node = Node::new(string_of(name), string_of(name));
            node.shape = shape;
            node.role = role;
            node.parent = parent;
            let id = g.add_node(node);
            let mut key: Vec<char> = Vec::new();
            crate::render::append(&mut key, name);
            let ghost before = table_view(m@);
            m.push((key, id));
            assert(table_view(m@) =~= before.push((name@, id)));
            (id, true)
        },
    }
}

} // verus!
