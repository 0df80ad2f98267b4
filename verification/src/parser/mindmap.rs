//! Mindmap parser: indentation defines the hierarchy; each node hangs off the
//! nearest shallower node above it. The result is a tree-shaped graph.

use vstd::prelude::*;
use crate::ir::graph::{
    Direction, Edge, EdgeKind, EdgeV, Graph, GraphV, Node, NodeId, NodeV,
};
use crate::ir::style::{ComponentRole, EdgeStyle, NodeShape};
use crate::parser::flowchart::empty_graph;
use crate::text::{
    byte_len, byte_len_wide, chars_of, concat, dec, dec_of, eq_of, find_any, find_any_of, lines,
    lines_of, slice_of, starts_with, starts_with_of, string_of, strip_prefix, strip_prefix_of,
    strip_suffix, strip_suffix_of, trim, trim_of, views, ws_end, ws_end_of,
};

verus! {

/// `((x))` circle, `{{x}}` hexagon, `[x]` rect, `(x)` rounded, after an
/// optional identifier; anything else is the text itself, rounded.
pub open spec fn mm_node_text(s: Seq<char>) -> (Seq<char>, NodeShape) {
    match find_any(s, seq!['(', '[', '{']) {
        None => (s, NodeShape::RoundedRect),
        Some(i) => {
            let tail = s.skip(i);
            let strip = |o: Seq<char>, c: Seq<char>|
                match strip_prefix(tail, o) {
                    Some(r) => match strip_suffix(r, c) {
                        Some(x) => Some(trim(x)),
                        None => None,
                    },
                    None => None,
                };
            if strip("(("@, "))"@) is Some {
                (strip("(("@, "))"@).unwrap(), NodeShape::Circle)
            } else if strip("{{"@, "}}"@) is Some {
                (strip("{{"@, "}}"@).unwrap(), NodeShape::Hexagon)
            } else if strip("["@, "]"@) is Some {
                (strip("["@, "]"@).unwrap(), NodeShape::Rect)
            } else if strip("("@, ")"@) is Some {
                (strip("("@, ")"@).unwrap(), NodeShape::RoundedRect)
            } else {
                (s, NodeShape::RoundedRect)
            }
        },
    }
}

/// Whether a source line carries a mindmap node.
pub open spec fn mm_keep(raw: Seq<char>) -> bool {
    let t = trim(raw);
    t.len() > 0 && !starts_with(t, "%%"@) && t != "mindmap"@
}

/// Byte width of a line's leading whitespace.
pub open spec fn indent_of(raw: Seq<char>) -> nat {
    byte_len(raw.take(ws_end(raw, 0)))
}

/// The branch from the root to the current tip with every entry at least
/// as deep as `indent` dropped.
pub open spec fn pop_deeper(stack: Seq<(nat, NodeId)>, indent: nat) -> Seq<(nat, NodeId)>
    decreases stack.len(),
{
    if stack.len() > 0 && stack.last().0 >= indent {
        pop_deeper(stack.drop_last(), indent)
    } else {
        stack
    }
}

/// One node line: add the node (`mm<i>`, the first one highlighted) and the
/// edge from its parent.
pub open spec fn mm_line(g: GraphV, stack: Seq<(nat, NodeId)>, raw: Seq<char>) -> (GraphV, Seq<(nat, NodeId)>) {
    let (label, shape) = mm_node_text(trim(raw));
    let n = g.nodes.len();
    let id = NodeId(n as u32);
    let node = NodeV {
        name: "mm"@ + dec(n),
        label,
        shape,
        role: if stack.len() == 0 {
            ComponentRole::Highlight
        } else {
            ComponentRole::Generic
        },
        icon: None,
        parent: None,
        sections: seq![],
    };
    let indent = indent_of(raw);
    let st2 = pop_deeper(stack, indent);
    let edges = if st2.len() > 0 {
        g.edges.push(
            EdgeV {
                source: st2.last().1,
                target: id,
                label: None,
                style: EdgeStyle::Solid,
                kind: EdgeKind::Open,
                end_labels: None,
                animated: false,
            },
        )
    } else {
        g.edges
    };
    (GraphV { nodes: g.nodes.push(node), edges, ..g }, st2.push((indent, id)))
}

pub open spec fn mm_upto(ls: Seq<Seq<char>>, k: int) -> (GraphV, Seq<(nat, NodeId)>)
    decreases k,
{
    if k <= 0 || k > ls.len() {
        (empty_graph(Direction::TopBottom), seq![])
    } else {
        let (g, st) = mm_upto(ls, k - 1);
        if mm_keep(ls[k - 1]) {
            mm_line(g, st, ls[k - 1])
        } else {
            (g, st)
        }
    }
}

/// The mindmap graph of a source whose header line is `mindmap`.
pub open spec fn mindmap_spec(src: Seq<char>) -> GraphV {
    mm_upto(lines(src), lines(src).len() as int).0
}

fn strip_pair(tail: &[char], o: &str, c: &str) -> (r: Option<Vec<char>>)
    ensures
        crate::parser::flowchart::ov(r) == (match strip_prefix(tail@, o@) {
            Some(r) => match strip_suffix(r, c@) {
                Some(x) => Some(trim(x)),
                None => None,
            },
            None => None,
        }),
{
    match strip_prefix_of(tail, &chars_of(o)) {
        Some(r) => match strip_suffix_of(&r, &chars_of(c)) {
            Some(x) => Some(trim_of(&x)),
            None => None,
        },
        None => None,
    }
}

fn mm_node_text_of(s: &[char]) -> (r: (Vec<char>, NodeShape))
    ensures
        mm_node_text(s@) == (r.0@, r.1),
{
    let set = vec!['(', '[', '{'];
    assert(set@ == seq!['(', '[', '{']);
    proof {
        crate::text::lemma_find_any_from(s@, seq!['(', '[', '{'], 0);
    }
    let whole = slice_of(s, 0, s.len());
    assert(s@.subrange(0, s@.len() as int) == s@);
    match find_any_of(s, &set) {
        None => (whole, NodeShape::RoundedRect),
        Some(i) => {
            let tail = slice_of(s, i, s.len());
            if let Some(l) = strip_pair(&tail, "((", "))") {
                (l, NodeShape::Circle)
            } else if let Some(l) = strip_pair(&tail, "{{", "}}") {
                (l, NodeShape::Hexagon)
            } else if let Some(l) = strip_pair(&tail, "[", "]") {
                (l, NodeShape::Rect)
            } else if let Some(l) = strip_pair(&tail, "(", ")") {
                (l, NodeShape::RoundedRect)
            } else {
                (whole, NodeShape::RoundedRect)
            }
        },
    }
}

/// Parse a `mindmap` source (the whole text, header included: the hierarchy
/// comes from the raw indentation). Every line parses, so there are no
/// warnings.
pub fn parse_mindmap(src: &str) -> (r: Graph)
    ensures
        r@ == mindmap_spec(src@),
{
    proof {
        reveal_strlit("%%");
        reveal_strlit("mindmap");
        reveal_strlit("mm");
    }
    let ls = lines_of(&chars_of(src));
    let mut g = Graph::new(Direction::TopBottom);
    assert(g@ == empty_graph(Direction::TopBottom)) by {
        assert(g@.nodes =~= Seq::<NodeV>::empty());
        assert(g@.edges =~= Seq::<EdgeV>::empty());
        assert(g@.subgraphs =~= empty_graph(Direction::TopBottom).subgraphs);
    }
    let mut stack: Vec<(u128, NodeId)> = Vec::new();
    let ghost lv = lines(src@);
    let mut k: usize = 0;
    while k < ls.len()
        invariant
            k <= ls@.len(),
            views(ls@) == lv,
            lv == lines(src@),
            mm_upto(lv, k as int) == (g@, stack@.map_values(|e: (u128, NodeId)| (e.0 as nat, e.1))),
        decreases ls@.len() - k,
    {
        let raw = &ls[k];
        assert(lv[k as int] == raw@);
        let t = trim_of(raw);
        if t.len() > 0 && !starts_with_of(&t, &chars_of("%%")) && !eq_of(&t, &chars_of("mindmap")) {
            let ghost sv = stack@.map_values(|e: (u128, NodeId)| (e.0 as nat, e.1));
            let ghost step = mm_line(g@, sv, raw@);
            let (label, shape) = mm_node_text_of(&t);
            let n = g.nodes.len();
            let role = if stack.len() == 0 {
                ComponentRole::Highlight
            } else {
                ComponentRole::Generic
            };
            let name = concat(&chars_of("mm"), &dec_of(n as u64));
            let mut node = Node::new(string_of(&name), string_of(&label));
            node.shape = shape;
            node.role = role;
            let id = g.add_node(node);
            let w = ws_end_of(raw);
            let indent = byte_len_wide(&slice_of(raw, 0, w));
            while stack.len() > 0 && stack[stack.len() - 1].0 >= indent
                invariant
                    pop_deeper(sv, indent as nat) == pop_deeper(
                        stack@.map_values(|e: (u128, NodeId)| (e.0 as nat, e.1)),
                        indent as nat,
                    ),
                decreases stack@.len(),
            {
                let ghost before = stack@;
                stack.pop();
                assert(stack@.map_values(|e: (u128, NodeId)| (e.0 as nat, e.1)) =~= before.map_values(
                    |e: (u128, NodeId)| (e.0 as nat, e.1),
                ).drop_last());
            }
            if stack.len() > 0 {
                let parent = stack[stack.len() - 1].1;
                g.add_edge(
                    Edge {
                        source: parent,
                        target: id,
                        label: None,
                        style: EdgeStyle::Solid,
                        kind: EdgeKind::Open,
                        end_labels: None,
                        animated: false,
                    },
                );
            }
            let ghost before = stack@;
            stack.push((indent, id));
            assert(stack@.map_values(|e: (u128, NodeId)| (e.0 as nat, e.1)) =~= before.map_values(
                |e: (u128, NodeId)| (e.0 as nat, e.1),
            ).push((indent as nat, id)));
            assert(g@.nodes =~= step.0.nodes);
            assert(g@.edges =~= step.0.edges);
        }
        k += 1;
    }
    g
}

proof fn lemma_pop_prefix(stack: Seq<(nat, NodeId)>, indent: nat)
    ensures
        pop_deeper(stack, indent).len() <= stack.len(),
        forall|j: int| 0 <= j < pop_deeper(stack, indent).len() ==> #[trigger] pop_deeper(stack, indent)[j] == stack[j],
    decreases stack.len(),
{
    if stack.len() > 0 && stack.last().0 >= indent {
        lemma_pop_prefix(stack.drop_last(), indent);
    }
}

/// Edges run from an earlier node to a later one, and no node is the
/// target of two edges.
pub open spec fn is_forest(g: GraphV) -> bool {
    &&& forall|i: int|
        0 <= i < g.edges.len() ==> (#[trigger] g.edges[i]).source.0 < g.edges[i].target.0 < g.nodes.len()
    &&& forall|i: int, j: int|
        0 <= i < j < g.edges.len() ==> (#[trigger] g.edges[i]).target.0 < (#[trigger] g.edges[j]).target.0
}

proof fn lemma_mm_forest(ls: Seq<Seq<char>>, k: int)
    requires
        0 <= k <= ls.len() < 0x1_0000_0000,
    ensures
        ({
            let (g, st) = mm_upto(ls, k);
            &&& is_forest(g)
            &&& g.nodes.len() <= k
            &&& forall|j: int| 0 <= j < st.len() ==> (#[trigger] st[j]).1.0 < g.nodes.len()
        }),
    decreases k,
{
    if k > 0 {
        lemma_mm_forest(ls, k - 1);
        let (g, st) = mm_upto(ls, k - 1);
        if mm_keep(ls[k - 1]) {
            let indent = indent_of(ls[k - 1]);
            lemma_pop_prefix(st, indent);
            let st2 = pop_deeper(st, indent);
            let n = g.nodes.len();
            assert((n as u32) as int == n);
            let (g2, st3) = mm_line(g, st, ls[k - 1]);
            if st2.len() > 0 {
                assert(st2.last() == st[st2.len() - 1]);
            }
            assert forall|i: int, j: int| 0 <= i < j < g2.edges.len() implies (#[trigger] g2.edges[i]).target.0
                < (#[trigger] g2.edges[j]).target.0 by {
                if j == g.edges.len() {
                    assert(g2.edges[i] == g.edges[i]);
                }
            }
            assert forall|j: int| 0 <= j < st3.len() implies (#[trigger] st3[j]).1.0 < g2.nodes.len() by {
                if j < st2.len() {
                    assert(st3[j] == st[j]);
                }
            }
        }
    }
}

/// A parsed mindmap is a forest: every edge runs from an earlier node to a
/// later one and no node has two parents (each node hangs off at most one
/// shallower node above it). Holds while node ids fit in 32 bits.
pub proof fn law_mindmap_is_forest(src: Seq<char>)
    requires
        lines(src).len() < 0x1_0000_0000,
    ensures
        is_forest(mindmap_spec(src)),
{
    lemma_mm_forest(lines(src), lines(src).len() as int);
}

} // verus!
