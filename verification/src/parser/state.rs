//! State diagram parser: states become nodes, transitions edges, composite
//! states subgraphs. Every `[*]` is its own small pseudo-state node.

use vstd::prelude::*;
use crate::ir::graph::{
    Direction, Edge, EdgeKind, EdgeV, Graph, GraphV, NodeId, NodeV, Subgraph, SubgraphId,
    SubgraphV,
};
use crate::ir::style::{ComponentRole, EdgeStyle, NodeShape};
use crate::parser::class::{direction_word, direction_word_of};
use crate::parser::flowchart::{empty_graph, sp_claim, PState};
use crate::parser::named::{name_lookup, table_view};
use crate::parser::{
    char_alnum, clean_edge_label, clean_edge_label_of, errs_view, is_alnum, lemma_errs_push,
    lines_view, ErrV, Line, ParseError,
};
use crate::text::{
    chars_of, concat, contains, contains_of, dec, dec_of, eq_of, find, find_of, lemma_find,
    slice_of, split_once, split_once_of, starts_with, starts_with_of, string_of, strip_prefix,
    strip_prefix_of, strip_suffix, strip_suffix_of, trim, trim_matches, trim_matches_of, trim_of,
};

verus! {

/// Parser state: graph, state table, `[*]` count, open composite states,
/// whether a block note is being skipped, fatal flag.
pub struct StState {
    pub graph: GraphV,
    pub names: Seq<(Seq<char>, NodeId)>,
    pub stars: int,
    pub stack: Seq<SubgraphId>,
    pub in_note: bool,
    pub fatal: bool,
}

/// Record `id` as a member of the innermost open composite state.
pub open spec fn st_claim(st: StState, id: NodeId) -> StState {
    let p = sp_claim(PState { graph: st.graph, stack: st.stack, fatal: false }, id);
    StState { graph: p.graph, ..st }
}

/// The innermost open composite state, if any.
pub open spec fn innermost(stack: Seq<SubgraphId>) -> Option<SubgraphId> {
    if stack.len() > 0 {
        Some(stack.last())
    } else {
        None
    }
}

/// Get-or-create a state. Each `[*]` makes a fresh pseudo-state `[*]<n>`.
pub open spec fn state_intern(st: StState, name: Seq<char>) -> (StState, NodeId) {
    if name == "[*]"@ {
        let n = st.stars + 1;
        let id = NodeId(st.graph.nodes.len() as u32);
        let node = NodeV {
            name: "[*]"@ + dec(n as nat),
            label: "●"@,
            shape: NodeShape::Circle,
            role: ComponentRole::Highlight,
            icon: None,
            parent: innermost(st.stack),
            sections: seq![],
        };
        let s1 = StState {
            graph: GraphV { nodes: st.graph.nodes.push(node), ..st.graph },
            stars: n,
            fatal: st.fatal || n > usize::MAX,
            ..st
        };
        (st_claim(s1, id), id)
    } else {
        match name_lookup(st.names, name) {
            Some(id) => (st, id),
            None => {
                let id = NodeId(st.graph.nodes.len() as u32);
                let node = NodeV {
                    name,
                    label: name,
                    shape: NodeShape::RoundedRect,
                    role: ComponentRole::Generic,
                    icon: None,
                    parent: innermost(st.stack),
                    sections: seq![],
                };
                let s1 = StState {
                    graph: GraphV { nodes: st.graph.nodes.push(node), ..st.graph },
                    names: st.names.push((name, id)),
                    ..st
                };
                (st_claim(s1, id), id)
            },
        }
    }
}

/// Letters, digits and `_`, at least one.
pub open spec fn is_state_ident(s: Seq<char>) -> bool {
    s.len() > 0 && forall|i: int| 0 <= i < s.len() ==> char_alnum(#[trigger] s[i]) || s[i] == '_'
}

/// One state-diagram line.
pub open spec fn state_line(st: StState, ln: int, line: Seq<char>) -> (StState, Option<ErrV>) {
    if st.in_note {
        (StState { in_note: !(line == "end note"@), ..st }, None)
    } else if starts_with(line, "note "@) {
        (StState { in_note: !contains(line, ":"@), ..st }, None)
    } else if strip_prefix(line, "direction "@) is Some {
        let d = direction_word(trim(strip_prefix(line, "direction "@).unwrap()));
        (StState { graph: GraphV { direction: d, ..st.graph }, ..st }, None)
    } else if starts_with(line, "classDef"@) || starts_with(line, "class "@) || starts_with(line, "style"@) {
        (st, None)
    } else if strip_prefix(line, "state "@) is Some {
        let rest = trim(strip_prefix(line, "state "@).unwrap());
        match strip_suffix(rest, "{"@) {
            Some(body) => {
                let name = trim_matches(trim(body), '"');
                let sg = SubgraphV { name, label: name, nodes: seq![], parent: innermost(st.stack) };
                let id = SubgraphId(st.graph.subgraphs.len() as u32);
                (
                    StState {
                        graph: GraphV { subgraphs: st.graph.subgraphs.push(sg), ..st.graph },
                        stack: st.stack.push(id),
                        ..st
                    },
                    None,
                )
            },
            None => match split_once(rest, " as "@) {
                Some((label, name)) => {
                    let (s1, id) = state_intern(st, trim(name));
                    let i = id.0 as int;
                    if i < s1.graph.nodes.len() {
                        let n = NodeV { label: trim_matches(trim(label), '"'), ..s1.graph.nodes[i] };
                        (StState { graph: GraphV { nodes: s1.graph.nodes.update(i, n), ..s1.graph }, ..s1 }, None)
                    } else {
                        (StState { fatal: true, ..s1 }, None)
                    }
                },
                None => (state_intern(st, trim_matches(rest, '"')).0, None),
            },
        }
    } else if line == "}"@ {
        (StState { stack: if st.stack.len() > 0 { st.stack.drop_last() } else { st.stack }, ..st }, None)
    } else if find(line, "-->"@) is Some {
        let at = find(line, "-->"@).unwrap();
        let from = trim(line.take(at));
        let rest = trim(line.skip(at + 3));
        let (to, label, p) = match split_once(rest, ":"@) {
            Some((t, l)) => (trim(t), Some(clean_edge_label(l).0), clean_edge_label(l).1),
            None => (rest, None, false),
        };
        let (s1, src) = state_intern(st, from);
        let (s2, dst) = state_intern(s1, to);
        let e = EdgeV {
            source: src,
            target: dst,
            label,
            style: EdgeStyle::Solid,
            kind: EdgeKind::Arrow,
            end_labels: None,
            animated: false,
        };
        (StState { graph: GraphV { edges: s2.graph.edges.push(e), ..s2.graph }, fatal: s2.fatal || p, ..s2 }, None)
    } else if is_state_ident(line) {
        (state_intern(st, line).0, None)
    } else {
        (st, Some(ErrV { line: ln, message: "cannot parse state statement '"@ + line + "'"@ }))
    }
}

/// Every open composite state exists.
pub open spec fn st_wf(st: StState) -> bool {
    forall|k: int| 0 <= k < st.stack.len() ==> (#[trigger] st.stack[k]).0 < st.graph.subgraphs.len()
}

pub open spec fn state_upto(ls: Seq<(int, Seq<char>)>, k: int) -> (StState, Seq<ErrV>)
    decreases k,
{
    if k <= 0 || k > ls.len() {
        (
            StState {
                graph: empty_graph(Direction::TopBottom),
                names: seq![],
                stars: 0,
                stack: seq![],
                in_note: false,
                fatal: false,
            },
            seq![],
        )
    } else {
        let (st, es) = state_upto(ls, k - 1);
        if st.fatal {
            (st, es)
        } else {
            let (st2, e) = state_line(st, ls[k - 1].0, ls[k - 1].1);
            (
                st2,
                match e {
                    Some(x) => es.push(x),
                    None => es,
                },
            )
        }
    }
}

/// Lenient state-diagram parse: graph, one warning per unreadable line, and
/// whether the input is fatal.
pub open spec fn state_spec(ls: Seq<(int, Seq<char>)>) -> (GraphV, Seq<ErrV>, bool) {
    let (st, es) = state_upto(ls, ls.len() as int);
    (st.graph, es, st.fatal)
}

/* ---------------- executable parser ---------------- */

fn claim_in(graph: &mut Graph, stack: &Vec<SubgraphId>, id: NodeId)
    requires
        forall|k: int| 0 <= k < stack@.len() ==> (#[trigger] stack@[k]).0 < old(graph)@.subgraphs.len(),
    ensures
        final(graph)@ == sp_claim(PState { graph: old(graph)@, stack: stack@, fatal: false }, id).graph,
{
    let n = stack.len();
    if n > 0 {
        let sg = stack[n - 1];
        assert(stack@[n - 1] == sg);
        let ghost g0 = graph@;
        let s = graph.subgraph_mut(sg);
        if !crate::parser::flowchart::contains_id(&s.nodes, id) {
            s.nodes.push(id);
        }
        assert(graph@.subgraphs =~= sp_claim(PState { graph: g0, stack: stack@, fatal: false }, id).graph.subgraphs);
    }
}

fn is_state_ident_of(s: &[char]) -> (r: bool)
    ensures
        r == is_state_ident(s@),
{
    if s.len() == 0 {
        return false;
    }
    let mut i: usize = 0;
    while i < s.len()
        invariant
            i <= s@.len(),
            forall|k: int| 0 <= k < i ==> char_alnum(#[trigger] s@[k]) || s@[k] == '_',
        decreases s@.len() - i,
    {
        if !(is_alnum(s[i]) || s[i] == '_') {
            return false;
        }
        i += 1;
    }
    true
}

/// The state parser's running state.
pub struct StParser {
    pub graph: Graph,
    pub names: Vec<(Vec<char>, NodeId)>,
    pub stars: usize,
    pub stack: Vec<SubgraphId>,
    pub in_note: bool,
    pub fatal: bool,
}

impl View for StParser {
    type V = StState;

    open spec fn view(&self) -> StState {
        StState {
            graph: self.graph@,
            names: table_view(self.names@),
            stars: self.stars as int,
            stack: self.stack@,
            in_note: self.in_note,
            fatal: self.fatal,
        }
    }
}

impl StParser {
    fn intern(&mut self, name: &[char]) -> (id: NodeId)
        requires
            st_wf(old(self)@),
            !old(self).fatal,
        ensures
            st_wf(final(self)@),
            final(self).fatal == state_intern(old(self)@, name@).0.fatal,
            !final(self).fatal ==> (final(self)@, id) == state_intern(old(self)@, name@),
    {
        proof {
            reveal_strlit("[*]");
            reveal_strlit("●");
        }
        let parent = if self.stack.len() > 0 {
            Some(self.stack[self.stack.len() - 1])
        } else {
            None
        };
        if eq_of(name, &chars_of("[*]")) {
            if self.stars == usize::MAX {
                self.fatal = true;
                return NodeId(0);
            }
            self.stars = self.stars + 1;
            let key = concat(&chars_of("[*]"), &dec_of(self.stars as u64));
            let mut node = crate::ir::graph::Node::new(string_of(&key), string_of(&chars_of("●")));
            node.shape = NodeShape::Circle;
            node.role = ComponentRole::Highlight;
            node.parent = parent;
            let id = self.graph.add_node(node);
            claim_in(&mut self.graph, &self.stack, id);
            return id;
        }
        match crate::parser::named::name_lookup_of(&self.names, name) {
            Some(id) => id,
            None => {
                let mut node = crate::ir::graph::Node::new(string_of(name), string_of(name));
                node.shape = NodeShape::RoundedRect;
                node.role = ComponentRole::Generic;
                node.parent = parent;
                let id = self.graph.add_node(node);
                let ghost before = table_view(self.names@);
                self.names.push((slice_of(name, 0, name.len()), id));
                assert(name@.subrange(0, name@.len() as int) == name@);
                assert(table_view(self.names@) =~= before.push((name@, id)));
                claim_in(&mut self.graph, &self.stack, id);
                id
            },
        }
    }
}

impl StParser {
    fn transition(&mut self, line: &[char], at: usize)
        requires
            st_wf(old(self)@),
            !old(self).fatal,
            !old(self)@.in_note,
            find(line@, "-->"@) == Some(at as int),
        ensures
            st_wf(final(self)@),
            ({
                let rest = trim(line@.skip(at + 3));
                let from = trim(line@.take(at as int));
                let (to, label, p) = match split_once(rest, ":"@) {
                    Some((t, l)) => (trim(t), Some(clean_edge_label(l).0), clean_edge_label(l).1),
                    None => (rest, None, false),
                };
                let (s1, src) = state_intern(old(self)@, from);
                let (s2, dst) = state_intern(s1, to);
                let e = EdgeV {
                    source: src,
                    target: dst,
                    label,
                    style: EdgeStyle::Solid,
                    kind: EdgeKind::Arrow,
                    end_labels: None,
                    animated: false,
                };
                let t = StState { graph: GraphV { edges: s2.graph.edges.push(e), ..s2.graph }, fatal: s2.fatal || p, ..s2 };
                &&& final(self).fatal == t.fatal
                &&& !final(self).fatal ==> final(self)@ == t
            }),
    {
        proof {
            reveal_strlit("-->");
            reveal_strlit(":");
            lemma_find(line@, "-->"@);
        }
        assert(at + 3 <= line.len());
        let from = trim_of(&slice_of(line, 0, at));
        let rest = trim_of(&slice_of(line, at + 3, line.len()));
        let (to, label, p) = match split_once_of(&rest, &chars_of(":")) {
            Some((t, l)) => {
                let (c, p) = clean_edge_label_of(&l);
                (trim_of(&t), Some(c), p)
            },
            None => (rest, None, false),
        };
        let src = self.intern(&from);
        if self.fatal {
            return;
        }
        let dst = self.intern(&to);
        if self.fatal {
            return;
        }
        let e = Edge {
            source: src,
            target: dst,
            label: match &label {
                Some(l) => Some(string_of(l)),
                None => None,
            },
            style: EdgeStyle::Solid,
            kind: EdgeKind::Arrow,
            end_labels: None,
            animated: false,
        };
        self.graph.add_edge(e);
        self.fatal = p;
    }

    fn state_decl(&mut self, rest: &[char])
        requires
            st_wf(old(self)@),
            !old(self).fatal,
        ensures
            st_wf(final(self)@),
            ({
                let t = match strip_suffix(rest@, "{"@) {
                    Some(body) => {
                        let name = trim_matches(trim(body), '"');
                        let sg = SubgraphV { name, label: name, nodes: seq![], parent: innermost(old(self)@.stack) };
                        let id = SubgraphId(old(self)@.graph.subgraphs.len() as u32);
                        StState {
                            graph: GraphV { subgraphs: old(self)@.graph.subgraphs.push(sg), ..old(self)@.graph },
                            stack: old(self)@.stack.push(id),
                            ..old(self)@
                        }
                    },
                    None => match split_once(rest@, " as "@) {
                        Some((label, name)) => {
                            let (s1, id) = state_intern(old(self)@, trim(name));
                            let i = id.0 as int;
                            if i < s1.graph.nodes.len() {
                                let n = NodeV { label: trim_matches(trim(label), '"'), ..s1.graph.nodes[i] };
                                StState { graph: GraphV { nodes: s1.graph.nodes.update(i, n), ..s1.graph }, ..s1 }
                            } else {
                                StState { fatal: true, ..s1 }
                            }
                        },
                        None => state_intern(old(self)@, trim_matches(rest@, '"')).0,
                    },
                };
                &&& final(self).fatal == t.fatal
                &&& !final(self).fatal ==> final(self)@ == t
            }),
    {
        proof {
            reveal_strlit("{");
            reveal_strlit(" as ");
        }
        match strip_suffix_of(rest, &chars_of("{")) {
            Some(body) => {
                let name = trim_matches_of(&trim_of(&body), '"');
                let parent = if self.stack.len() > 0 {
                    Some(self.stack[self.stack.len() - 1])
                } else {
                    None
                };
                let sg = Subgraph { name: string_of(&name), label: string_of(&name), nodes: Vec::new(), parent };
                assert(sg@.nodes =~= Seq::<NodeId>::empty());
                let id = self.graph.add_subgraph(sg);
                self.stack.push(id);
                assert(self@.stack =~= old(self)@.stack.push(id));
            },
            None => match split_once_of(rest, &chars_of(" as ")) {
                Some((label, name)) => {
                    let id = self.intern(&trim_of(&name));
                    if self.fatal {
                        return;
                    }
                    if id.index() >= self.graph.nodes.len() {
                        self.fatal = true;
                        return;
                    }
                    let lab = trim_matches_of(&trim_of(&label), '"');
                    let ghost g0 = self.graph@;
                    let node = self.graph.node_mut(id);
                    node.label = string_of(&lab);
                    proof {
                        assert(self.graph@.nodes =~= g0.nodes.update(id.0 as int, node@));
                    }
                },
                None => {
                    self.intern(&trim_matches_of(rest, '"'));
                },
            },
        }
    }

    /// One state-diagram statement; the warning if it cannot be read.
    #[verifier::rlimit(40)]
    pub fn line(&mut self, ln: usize, line: &[char]) -> (r: Option<ParseError>)
        requires
            st_wf(old(self)@),
            !old(self).fatal,
        ensures
            st_wf(final(self)@),
            ({
                let t = state_line(old(self)@, ln as int, line@);
                &&& final(self).fatal == t.0.fatal
                &&& !final(self).fatal ==> final(self)@ == t.0 && t.1 == (match r {
                    Some(e) => Some(e@),
                    None => None,
                })
            }),
    {
        proof {
            reveal_strlit("end note");
            reveal_strlit("note ");
            reveal_strlit(":");
            reveal_strlit("direction ");
            reveal_strlit("classDef");
            reveal_strlit("class ");
            reveal_strlit("style");
            reveal_strlit("state ");
            reveal_strlit("}");
            reveal_strlit("-->");
            reveal_strlit("cannot parse state statement '");
            reveal_strlit("'");
            lemma_find(line@, "-->"@);
        }
        if self.in_note {
            if eq_of(line, &chars_of("end note")) {
                self.in_note = false;
            }
            return None;
        }
        if starts_with_of(line, &chars_of("note ")) {
            if !contains_of(line, &chars_of(":")) {
                self.in_note = true;
            }
            return None;
        }
        if let Some(rest) = strip_prefix_of(line, &chars_of("direction ")) {
            self.graph.direction = direction_word_of(&trim_of(&rest));
            return None;
        }
        if starts_with_of(line, &chars_of("classDef")) || starts_with_of(line, &chars_of("class "))
            || starts_with_of(line, &chars_of("style")) {
            return None;
        }
        if let Some(rest) = strip_prefix_of(line, &chars_of("state ")) {
            self.state_decl(&trim_of(&rest));
            return None;
        }
        if eq_of(line, &chars_of("}")) {
            if self.stack.len() > 0 {
                self.stack.pop();
                assert(self@.stack =~= old(self)@.stack.drop_last());
            }
            return None;
        }
        if let Some(at) = find_of(line, &chars_of("-->")) {
            self.transition(line, at);
            return None;
        }
        if is_state_ident_of(line) {
            self.intern(line);
            return None;
        }
        let a = concat(&chars_of("cannot parse state statement '"), line);
        let m = concat(&a, &chars_of("'"));
        Some(ParseError::syntax(ln, &m))
    }
}

proof fn lemma_state_fatal_sticky(ls: Seq<(int, Seq<char>)>, k: int, k2: int)
    requires
        0 <= k <= k2 <= ls.len(),
        state_upto(ls, k).0.fatal,
    ensures
        state_upto(ls, k2) == state_upto(ls, k),
    decreases k2 - k,
{
    if k < k2 {
        lemma_state_fatal_sticky(ls, k, k2 - 1);
    }
}

/// Parse the lines of a `stateDiagram` (after its header): graph, one
/// warning per unreadable line, and whether the lines are fatal.
pub fn parse_state(lines: &Vec<Line>) -> (r: (Graph, Vec<ParseError>, bool))
    ensures
        ({
            let t = state_spec(lines_view(lines@));
            &&& r.2 == t.2
            &&& !r.2 ==> r.0@ == t.0 && errs_view(r.1@) == t.1
        }),
{
    let ghost ls = lines_view(lines@);
    let mut p = StParser {
        graph: Graph::new(Direction::TopBottom),
        names: Vec::new(),
        stars: 0,
        stack: Vec::new(),
        in_note: false,
        fatal: false,
    };
    assert(p@.graph == empty_graph(Direction::TopBottom)) by {
        assert(p@.graph.nodes =~= Seq::<NodeV>::empty());
        assert(p@.graph.edges =~= Seq::<EdgeV>::empty());
        assert(p@.graph.subgraphs =~= empty_graph(Direction::TopBottom).subgraphs);
    }
    assert(p@.names =~= Seq::<(Seq<char>, NodeId)>::empty());
    assert(p@.stack =~= Seq::<SubgraphId>::empty());
    let mut warnings: Vec<ParseError> = Vec::new();
    let mut i: usize = 0;
    while i < lines.len()
        invariant
            i <= lines@.len(),
            ls == lines_view(lines@),
            !p.fatal,
            st_wf(p@),
            state_upto(ls, i as int) == (p@, errs_view(warnings@)),
        decreases lines@.len() - i,
    {
        assert(ls[i as int] == (lines@[i as int].0 as int, lines@[i as int].1@));
        let e = p.line(lines[i].0, &lines[i].1);
        if p.fatal {
            proof {
                lemma_state_fatal_sticky(ls, i + 1, ls.len() as int);
            }
            return (p.graph, warnings, true);
        }
        match e {
            Some(e) => {
                proof {
                    lemma_errs_push(warnings@, e);
                }
                warnings.push(e);
            },
            None => {},
        }
        i += 1;
    }
    (p.graph, warnings, false)
}

} // verus!
