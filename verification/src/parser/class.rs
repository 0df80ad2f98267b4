//! Class diagram parser: classes become compartmented nodes (fields and
//! methods), relationships become edges with UML end markers, cardinalities
//! and labels.

use vstd::prelude::*;
use crate::ir::graph::{Direction, Edge, EdgeKind, EdgeV, Graph, GraphV, NodeId, NodeV};
use crate::ir::style::{ComponentRole, EdgeStyle, NodeShape};
use crate::parser::flowchart::empty_graph;
use crate::parser::named::{name_lookup, named_intern, named_intern_of, table_view};
use crate::parser::{char_alnum, errs_view, is_alnum, lemma_errs_push, lines_view, ErrV, Line, ParseError};
use crate::text::{
    chars_of, concat, contains, contains_of, eq_of, find, find_of, join, join_of, lemma_find,
    slice_of, split_once, split_once_of, starts_with, starts_with_of, string_of, strip_prefix,
    strip_prefix_of, strip_suffix, strip_suffix_of, trim, trim_end_matches, trim_end_matches_of,
    trim_of, views,
};

verus! {

/// Letters, digits, `_`, `~`, `<`, `>`, at least one.
pub open spec fn is_class_ident(s: Seq<char>) -> bool {
    s.len() > 0 && forall|i: int|
        0 <= i < s.len() ==> char_alnum(#[trigger] s[i]) || s[i] == '_' || s[i] == '~' || s[i] == '<'
            || s[i] == '>'
}

/// `s` with every leading repetition of `p` removed.
pub open spec fn strip_all_prefix(s: Seq<char>, p: Seq<char>) -> Seq<char>
    decreases s.len(),
{
    if p.len() > 0 && starts_with(s, p) {
        strip_all_prefix(s.skip(p.len() as int), p)
    } else {
        s
    }
}

/// Direction keyword to layout direction (default top-bottom).
pub open spec fn direction_word(w: Seq<char>) -> Direction {
    if w == "LR"@ {
        Direction::LeftRight
    } else if w == "RL"@ {
        Direction::RightLeft
    } else if w == "BT"@ {
        Direction::BottomTop
    } else {
        Direction::TopBottom
    }
}

/// `"1" Customer` / `Customer "many"` to the name and the cardinality.
pub open spec fn strip_cardinality(s0: Seq<char>) -> (Seq<char>, Option<Seq<char>>) {
    let s = trim(s0);
    let quoted_first = match strip_prefix(s, "\""@) {
        Some(rest) => match split_once(rest, "\""@) {
            Some((card, name)) => Some((trim(name), Some(card))),
            None => None,
        },
        None => None,
    };
    match quoted_first {
        Some(r) => r,
        None => match split_once(s, "\""@) {
            Some((name, rest)) => (trim(name), Some(trim_end_matches(rest, '"'))),
            None => (s, None),
        },
    }
}

/// Both endpoint cardinalities, the missing one empty; none if neither.
pub open spec fn zip_or(a: Option<Seq<char>>, b: Option<Seq<char>>) -> Option<(Seq<char>, Seq<char>)> {
    match (a, b) {
        (None, None) => None,
        _ => Some(
            (
                match a {
                    Some(x) => x,
                    None => seq![],
                },
                match b {
                    Some(x) => x,
                    None => seq![],
                },
            ),
        ),
    }
}

/// Relationship operators: token, end marker, line style, and whether the
/// marker belongs to the left-hand class (the edge then points right to left).
pub open spec fn class_op(i: int) -> (Seq<char>, EdgeKind, EdgeStyle, bool) {
    if i == 0 {
        ("<|--"@, EdgeKind::Triangle, EdgeStyle::Solid, true)
    } else if i == 1 {
        ("--|>"@, EdgeKind::Triangle, EdgeStyle::Solid, false)
    } else if i == 2 {
        ("<|.."@, EdgeKind::Triangle, EdgeStyle::Dashed, true)
    } else if i == 3 {
        ("..|>"@, EdgeKind::Triangle, EdgeStyle::Dashed, false)
    } else if i == 4 {
        ("*--"@, EdgeKind::DiamondFilled, EdgeStyle::Solid, false)
    } else if i == 5 {
        ("--*"@, EdgeKind::DiamondFilled, EdgeStyle::Solid, true)
    } else if i == 6 {
        ("o--"@, EdgeKind::DiamondOpen, EdgeStyle::Solid, false)
    } else if i == 7 {
        ("--o"@, EdgeKind::DiamondOpen, EdgeStyle::Solid, true)
    } else if i == 8 {
        ("-->"@, EdgeKind::Arrow, EdgeStyle::Solid, false)
    } else if i == 9 {
        ("<--"@, EdgeKind::Arrow, EdgeStyle::Solid, true)
    } else if i == 10 {
        ("..>"@, EdgeKind::Arrow, EdgeStyle::Dashed, false)
    } else if i == 11 {
        ("<.."@, EdgeKind::Arrow, EdgeStyle::Dashed, true)
    } else if i == 12 {
        ("--"@, EdgeKind::Open, EdgeStyle::Solid, false)
    } else {
        (".."@, EdgeKind::Open, EdgeStyle::Dashed, false)
    }
}

/// Among the first `k` operators, the earliest occurrence, the longer
/// operator winning at equal positions: (position, operator index).
pub open spec fn best_op(line: Seq<char>, k: int) -> Option<(int, int)>
    decreases k,
{
    if k <= 0 {
        None
    } else {
        let b = best_op(line, k - 1);
        match find(line, class_op(k - 1).0) {
            None => b,
            Some(p) => match b {
                None => Some((p, k - 1)),
                Some((bp, bi)) => if p < bp || (p == bp && class_op(k - 1).0.len() > class_op(bi).0.len()) {
                    Some((p, k - 1))
                } else {
                    b
                },
            },
        }
    }
}

/// Parser state: graph, class table, members per node (fields, methods),
/// the open `class X {` block, fatal flag.
pub struct ClassState {
    pub graph: GraphV,
    pub names: Seq<(Seq<char>, NodeId)>,
    pub members: Seq<(Seq<Seq<char>>, Seq<Seq<char>>)>,
    pub open: Option<Seq<char>>,
    pub fatal: bool,
}

pub open spec fn class_intern(st: ClassState, name: Seq<char>) -> (ClassState, NodeId) {
    let (g, m, id, created) = named_intern(st.graph, st.names, name, NodeShape::Rect, ComponentRole::Service, None);
    (
        ClassState {
            graph: g,
            names: m,
            members: if created {
                st.members.push((seq![], seq![]))
            } else {
                st.members
            },
            ..st
        },
        id,
    )
}

/// Record a member line of class `name`: methods contain `(`; empty lines
/// and `<<stereotypes>>` are dropped.
pub open spec fn add_member(st: ClassState, name: Seq<char>, member: Seq<char>) -> ClassState {
    if member.len() == 0 || starts_with(member, "<<"@) {
        st
    } else {
        match name_lookup(st.names, name) {
            Some(id) => if id.0 < st.members.len() {
                let (f, m) = st.members[id.0 as int];
                let e = if contains(member, "("@) {
                    (f, m.push(member))
                } else {
                    (f.push(member), m)
                };
                ClassState { members: st.members.update(id.0 as int, e), ..st }
            } else {
                ClassState { fatal: true, ..st }
            },
            None => st,
        }
    }
}

/// `A "1" <|-- "many" B : label`, if the line is a relationship.
pub open spec fn class_relationship(st: ClassState, line: Seq<char>) -> Option<ClassState> {
    match best_op(line, 14) {
        None => None,
        Some((pos, oi)) => {
            let (op, kind, style, reverse) = class_op(oi);
            let lhs_raw = trim(line.take(pos));
            let rest = trim(line.skip(pos + op.len()));
            let (rhs_raw, label) = match split_once(rest, ":"@) {
                Some((r, l)) => (trim(r), Some(trim(l))),
                None => (rest, None),
            };
            let (lhs, lcard) = strip_cardinality(lhs_raw);
            let (rhs, rcard) = strip_cardinality(rhs_raw);
            if !is_class_ident(lhs) || !is_class_ident(rhs) {
                None
            } else {
                let (s1, a) = class_intern(st, lhs);
                let (s2, b) = class_intern(s1, rhs);
                let (source, target, end_labels) = if reverse {
                    (b, a, zip_or(rcard, lcard))
                } else {
                    (a, b, zip_or(lcard, rcard))
                };
                let e = EdgeV { source, target, label, style, kind, end_labels, animated: false };
                Some(ClassState { graph: GraphV { edges: s2.graph.edges.push(e), ..s2.graph }, ..s2 })
            }
        },
    }
}

/// One class-diagram line.
pub open spec fn class_line(st: ClassState, ln: int, line: Seq<char>) -> (ClassState, Option<ErrV>) {
    if starts_with(line, "direction "@) {
        let d = direction_word(trim(strip_all_prefix(line, "direction "@)));
        (ClassState { graph: GraphV { direction: d, ..st.graph }, ..st }, None)
    } else if st.open is Some {
        let name = st.open.unwrap();
        if line == "}"@ {
            (ClassState { open: None, ..st }, None)
        } else {
            (add_member(st, name, trim(trim_end_matches(line, ';'))), None)
        }
    } else if strip_prefix(line, "class "@) is Some {
        let rest = trim(strip_prefix(line, "class "@).unwrap());
        match strip_suffix(rest, "{"@) {
            Some(n) => {
                let name = trim(n);
                let (s1, _) = class_intern(st, name);
                (ClassState { open: Some(name), ..s1 }, None)
            },
            None => match split_once(rest, ":"@) {
                Some((n, a)) => {
                    let name = trim(n);
                    let (s1, _) = class_intern(st, name);
                    (add_member(s1, name, trim(a)), None)
                },
                None => (class_intern(st, rest).0, None),
            },
        }
    } else {
        let member_form = match split_once(line, " : "@) {
            Some((lhs, rhs)) => if !contains(lhs, "--"@) && !contains(lhs, ".."@) && is_class_ident(trim(lhs)) {
                Some((trim(lhs), trim(rhs)))
            } else {
                None
            },
            None => None,
        };
        match member_form {
            Some((name, member)) => {
                let (s1, _) = class_intern(st, name);
                (add_member(s1, name, member), None)
            },
            None => match class_relationship(st, line) {
                Some(s) => (s, None),
                None => if starts_with(line, "<<"@) || starts_with(line, "note "@) || starts_with(line, "%%"@) {
                    (st, None)
                } else {
                    (st, Some(ErrV { line: ln, message: "cannot parse class statement '"@ + line + "'"@ }))
                },
            },
        }
    }
}

pub open spec fn class_upto(ls: Seq<(int, Seq<char>)>, k: int) -> (ClassState, Seq<ErrV>)
    decreases k,
{
    if k <= 0 || k > ls.len() {
        (
            ClassState {
                graph: empty_graph(Direction::TopBottom),
                names: seq![],
                members: seq![],
                open: None,
                fatal: false,
            },
            seq![],
        )
    } else {
        let (st, es) = class_upto(ls, k - 1);
        if st.fatal {
            (st, es)
        } else {
            let (st2, e) = class_line(st, ls[k - 1].0, ls[k - 1].1);
            (
                st2,
                match e {
                    Some(x) => es.push(x),
                    None => es,
                },
            )
        }
    }
}

/// Compartments of a class from its members: fields, then methods, each
/// one line per member, present only when non-empty.
pub open spec fn compartments(f: Seq<Seq<char>>, m: Seq<Seq<char>>) -> Seq<Seq<char>> {
    let a: Seq<Seq<char>> = if f.len() > 0 {
        seq![join(f, "\n"@)]
    } else {
        seq![]
    };
    if m.len() > 0 {
        a.push(join(m, "\n"@))
    } else {
        a
    }
}

/// Nodes with their collected members folded into compartments.
pub open spec fn with_members(nodes: Seq<NodeV>, members: Seq<(Seq<Seq<char>>, Seq<Seq<char>>)>) -> Seq<NodeV> {
    Seq::new(
        nodes.len(),
        |i: int|
            if i < members.len() {
                NodeV { sections: compartments(members[i].0, members[i].1), ..nodes[i] }
            } else {
                nodes[i]
            },
    )
}

/// Lenient class-diagram parse: graph, warnings, and whether the input is
/// fatal.
pub open spec fn class_spec(ls: Seq<(int, Seq<char>)>) -> (GraphV, Seq<ErrV>, bool) {
    let (st, es) = class_upto(ls, ls.len() as int);
    (GraphV { nodes: with_members(st.graph.nodes, st.members), ..st.graph }, es, st.fatal)
}

/* ---------------- executable parser ---------------- */

fn is_class_ident_of(s: &[char]) -> (r: bool)
    ensures
        r == is_class_ident(s@),
{
    if s.len() == 0 {
        return false;
    }
    let mut i: usize = 0;
    while i < s.len()
        invariant
            i <= s@.len(),
            forall|k: int|
                0 <= k < i ==> char_alnum(#[trigger] s@[k]) || s@[k] == '_' || s@[k] == '~' || s@[k]
                    == '<' || s@[k] == '>',
        decreases s@.len() - i,
    {
        let c = s[i];
        if !(is_alnum(c) || c == '_' || c == '~' || c == '<' || c == '>') {
            return false;
        }
        i += 1;
    }
    true
}

fn strip_all_prefix_of(s: &[char], p: &[char]) -> (r: Vec<char>)
    ensures
        r@ == strip_all_prefix(s@, p@),
{
    let mut cur = slice_of(s, 0, s.len());
    assert(s@.subrange(0, s@.len() as int) == s@);
    while p.len() > 0 && starts_with_of(&cur, p)
        invariant
            strip_all_prefix(s@, p@) == strip_all_prefix(cur@, p@),
        decreases cur@.len(),
    {
        cur = slice_of(&cur, p.len(), cur.len());
    }
    cur
}

pub(crate) fn direction_word_of(w: &[char]) -> (r: Direction)
    ensures
        r == direction_word(w@),
{
    if eq_of(w, &chars_of("LR")) {
        Direction::LeftRight
    } else if eq_of(w, &chars_of("RL")) {
        Direction::RightLeft
    } else if eq_of(w, &chars_of("BT")) {
        Direction::BottomTop
    } else {
        Direction::TopBottom
    }
}

fn strip_cardinality_of(s0: &[char]) -> (r: (Vec<char>, Option<Vec<char>>))
    ensures
        strip_cardinality(s0@) == (r.0@, crate::parser::flowchart::ov(r.1)),
{
    let s = trim_of(s0);
    let q = chars_of("\"");
    if let Some(rest) = strip_prefix_of(&s, &q) {
        if let Some((card, name)) = split_once_of(&rest, &q) {
            return (trim_of(&name), Some(card));
        }
    }
    match split_once_of(&s, &q) {
        Some((name, rest)) => (trim_of(&name), Some(trim_end_matches_of(&rest, '"'))),
        None => (s, None),
    }
}

fn zip_or_of(a: Option<Vec<char>>, b: Option<Vec<char>>) -> (r: Option<(String, String)>)
    ensures
        zip_or(crate::parser::flowchart::ov(a), crate::parser::flowchart::ov(b)) == crate::ir::graph::pair_view(r),
{
    if a.is_none() && b.is_none() {
        return None;
    }
    let x = match &a {
        Some(v) => string_of(v),
        None => String::new(),
    };
    let y = match &b {
        Some(v) => string_of(v),
        None => String::new(),
    };
    assert(a is None ==> x@ =~= Seq::<char>::empty());
    assert(b is None ==> y@ =~= Seq::<char>::empty());
    Some((x, y))
}

fn class_op_of(i: usize) -> (r: (&'static str, EdgeKind, EdgeStyle, bool))
    requires
        i < 14,
    ensures
        (r.0@, r.1, r.2, r.3) == class_op(i as int),
{
    if i == 0 {
        ("<|--", EdgeKind::Triangle, EdgeStyle::Solid, true)
    } else if i == 1 {
        ("--|>", EdgeKind::Triangle, EdgeStyle::Solid, false)
    } else if i == 2 {
        ("<|..", EdgeKind::Triangle, EdgeStyle::Dashed, true)
    } else if i == 3 {
        ("..|>", EdgeKind::Triangle, EdgeStyle::Dashed, false)
    } else if i == 4 {
        ("*--", EdgeKind::DiamondFilled, EdgeStyle::Solid, false)
    } else if i == 5 {
        ("--*", EdgeKind::DiamondFilled, EdgeStyle::Solid, true)
    } else if i == 6 {
        ("o--", EdgeKind::DiamondOpen, EdgeStyle::Solid, false)
    } else if i == 7 {
        ("--o", EdgeKind::DiamondOpen, EdgeStyle::Solid, true)
    } else if i == 8 {
        ("-->", EdgeKind::Arrow, EdgeStyle::Solid, false)
    } else if i == 9 {
        ("<--", EdgeKind::Arrow, EdgeStyle::Solid, true)
    } else if i == 10 {
        ("..>", EdgeKind::Arrow, EdgeStyle::Dashed, false)
    } else if i == 11 {
        ("<..", EdgeKind::Arrow, EdgeStyle::Dashed, true)
    } else if i == 12 {
        ("--", EdgeKind::Open, EdgeStyle::Solid, false)
    } else {
        ("..", EdgeKind::Open, EdgeStyle::Dashed, false)
    }
}

fn best_op_of(line: &[char]) -> (r: Option<(usize, usize)>)
    ensures
        best_op(line@, 14) == (match r {
            Some((p, i)) => Some((p as int, i as int)),
            None => None,
        }),
        r matches Some((p, i)) ==> i < 14 && p + class_op(i as int).0.len() <= line@.len(),
{
    let mut best: Option<(usize, usize)> = None;
    let mut k: usize = 0;
    while k < 14
        invariant
            k <= 14,
            best_op(line@, k as int) == (match best {
                Some((p, i)) => Some((p as int, i as int)),
                None => None,
            }),
            best matches Some((p, i)) ==> i < k && p + class_op(i as int).0.len() <= line@.len(),
        decreases 14 - k,
    {
        let (tok, _, _, _) = class_op_of(k);
        let tv = chars_of(tok);
        proof {
            lemma_find(line@, tv@);
        }
        match find_of(line, &tv) {
            None => {},
            Some(p) => {
                match best {
                    None => {
                        best = Some((p, k));
                    },
                    Some((bp, bi)) => {
                        let (btok, _, _, _) = class_op_of(bi);
                        let blen = chars_of(btok).len();
                        if p < bp || (p == bp && tv.len() > blen) {
                            best = Some((p, k));
                        }
                    },
                }
            },
        }
        k += 1;
    }
    best
}

/// The class parser's running state.
pub struct ClassParser {
    pub graph: Graph,
    pub names: Vec<(Vec<char>, NodeId)>,
    pub members: Vec<(Vec<Vec<char>>, Vec<Vec<char>>)>,
    pub open: Option<Vec<char>>,
    pub fatal: bool,
}

pub open spec fn members_view(v: Seq<(Vec<Vec<char>>, Vec<Vec<char>>)>) -> Seq<(Seq<Seq<char>>, Seq<Seq<char>>)> {
    v.map_values(|e: (Vec<Vec<char>>, Vec<Vec<char>>)| (views(e.0@), views(e.1@)))
}

impl View for ClassParser {
    type V = ClassState;

    open spec fn view(&self) -> ClassState {
        ClassState {
            graph: self.graph@,
            names: table_view(self.names@),
            members: members_view(self.members@),
            open: crate::parser::flowchart::ov(self.open),
            fatal: self.fatal,
        }
    }
}

impl ClassParser {
    fn intern(&mut self, name: &[char]) -> (id: NodeId)
        ensures
            (final(self)@, id) == class_intern(old(self)@, name@),
    {
        let (id, created) = named_intern_of(
            &mut self.graph,
            &mut self.names,
            name,
            NodeShape::Rect,
            ComponentRole::Service,
            None,
        );
        if created {
            let ghost before = members_view(self.members@);
            let e: (Vec<Vec<char>>, Vec<Vec<char>>) = (Vec::new(), Vec::new());
            self.members.push(e);
            assert(views(e.0@) =~= Seq::<Seq<char>>::empty());
            assert(views(e.1@) =~= Seq::<Seq<char>>::empty());
            assert(members_view(self.members@) =~= before.push((seq![], seq![])));
        }
        id
    }

    fn add_member(&mut self, name: &[char], member: &[char])
        ensures
            final(self)@ == add_member(old(self)@, name@, member@),
    {
        proof {
            reveal_strlit("<<");
            reveal_strlit("(");
        }
        if member.len() == 0 || starts_with_of(member, &chars_of("<<")) {
            return;
        }
        match crate::parser::named::name_lookup_of(&self.names, name) {
            Some(id) => {
                let i = id.index();
                if i >= self.members.len() {
                    self.fatal = true;
                    return;
                }
                let ghost mv = members_view(self.members@);
                let m = slice_of(member, 0, member.len());
                assert(member@.subrange(0, member@.len() as int) == member@);
                let mut e = (Vec::new(), Vec::new());
                std::mem::swap(&mut e, &mut self.members[i]);
                assert(views(e.0@) == mv[i as int].0 && views(e.1@) == mv[i as int].1);
                if contains_of(member, &chars_of("(")) {
                    proof {
                        crate::text::lemma_views_push(e.1@, m);
                    }
                    e.1.push(m);
                } else {
                    proof {
                        crate::text::lemma_views_push(e.0@, m);
                    }
                    e.0.push(m);
                }
                let ghost ev = (views(e.0@), views(e.1@));
                self.members.set(i, e);
                assert(members_view(self.members@) =~= mv.update(i as int, ev));
            },
            None => {},
        }
    }
}

impl ClassParser {
    #[verifier::rlimit(40)]
    fn relationship(&mut self, line: &[char]) -> (found: bool)
        ensures
            found <==> class_relationship(old(self)@, line@) is Some,
            found ==> final(self)@ == class_relationship(old(self)@, line@).unwrap(),
            !found ==> final(self)@ == old(self)@,
    {
        proof {
            reveal_strlit(":");
        }
        let (pos, oi) = match best_op_of(line) {
            Some(b) => b,
            None => return false,
        };
        let (op, kind, style, reverse) = class_op_of(oi);
        let oplen = chars_of(op).len();
        assert(pos + oplen <= line.len());
        let lhs_raw = trim_of(&slice_of(line, 0, pos));
        let rest = trim_of(&slice_of(line, pos + oplen, line.len()));
        let (rhs_raw, label) = match split_once_of(&rest, &chars_of(":")) {
            Some((r, l)) => (trim_of(&r), Some(trim_of(&l))),
            None => (rest, None),
        };
        let (lhs, lcard) = strip_cardinality_of(&lhs_raw);
        let (rhs, rcard) = strip_cardinality_of(&rhs_raw);
        if !is_class_ident_of(&lhs) || !is_class_ident_of(&rhs) {
            return false;
        }
        let a = self.intern(&lhs);
        let b = self.intern(&rhs);
        let (source, target, end_labels) = if reverse {
            (b, a, zip_or_of(rcard, lcard))
        } else {
            (a, b, zip_or_of(lcard, rcard))
        };
        let e = Edge {
            source,
            target,
            label: match &label {
                Some(l) => Some(string_of(l)),
                None => None,
            },
            style,
            kind,
            end_labels,
            animated: false,
        };
        self.graph.add_edge(e);
        true
    }

    /// One class-diagram statement; the warning if it cannot be read.
    #[verifier::rlimit(40)]
    pub fn line(&mut self, ln: usize, line: &[char]) -> (r: Option<ParseError>)
        ensures
            ({
                let t = class_line(old(self)@, ln as int, line@);
                &&& final(self)@ == t.0
                &&& t.1 == (match r {
                    Some(e) => Some(e@),
                    None => None,
                })
            }),
    {
        proof {
            reveal_strlit("direction ");
            reveal_strlit("}");
            reveal_strlit("class ");
            reveal_strlit("{");
            reveal_strlit(":");
            reveal_strlit(" : ");
            reveal_strlit("--");
            reveal_strlit("..");
            reveal_strlit("<<");
            reveal_strlit("note ");
            reveal_strlit("%%");
            reveal_strlit("cannot parse class statement '");
            reveal_strlit("'");
        }
        if starts_with_of(line, &chars_of("direction ")) {
            let w = trim_of(&strip_all_prefix_of(line, &chars_of("direction ")));
            self.graph.direction = direction_word_of(&w);
            return None;
        }
        match &self.open {
            Some(name) => {
                let name = slice_of(name, 0, name.len());
                assert(self.open.unwrap()@.subrange(0, self.open.unwrap()@.len() as int) == self.open.unwrap()@);
                if eq_of(line, &chars_of("}")) {
                    self.open = None;
                } else {
                    let m = trim_of(&trim_end_matches_of(line, ';'));
                    self.add_member(&name, &m);
                }
                return None;
            },
            None => {},
        }
        if let Some(r) = strip_prefix_of(line, &chars_of("class ")) {
            let rest = trim_of(&r);
            match strip_suffix_of(&rest, &chars_of("{")) {
                Some(n) => {
                    let name = trim_of(&n);
                    self.intern(&name);
                    self.open = Some(name);
                },
                None => match split_once_of(&rest, &chars_of(":")) {
                    Some((n, a)) => {
                        let name = trim_of(&n);
                        self.intern(&name);
                        self.add_member(&name, &trim_of(&a));
                    },
                    None => {
                        self.intern(&rest);
                    },
                },
            }
            return None;
        }
        if let Some((lhs, rhs)) = split_once_of(line, &chars_of(" : ")) {
            let name = trim_of(&lhs);
            if !contains_of(&lhs, &chars_of("--")) && !contains_of(&lhs, &chars_of(".."))
                && is_class_ident_of(&name) {
                self.intern(&name);
                self.add_member(&name, &trim_of(&rhs));
                return None;
            }
        }
        if self.relationship(line) {
            return None;
        }
        if starts_with_of(line, &chars_of("<<")) || starts_with_of(line, &chars_of("note "))
            || starts_with_of(line, &chars_of("%%")) {
            return None;
        }
        let a = concat(&chars_of("cannot parse class statement '"), line);
        let m = concat(&a, &chars_of("'"));
        Some(ParseError::syntax(ln, &m))
    }
}

proof fn lemma_class_fatal_sticky(ls: Seq<(int, Seq<char>)>, k: int, k2: int)
    requires
        0 <= k <= k2 <= ls.len(),
        class_upto(ls, k).0.fatal,
    ensures
        class_upto(ls, k2) == class_upto(ls, k),
    decreases k2 - k,
{
    if k < k2 {
        lemma_class_fatal_sticky(ls, k, k2 - 1);
    }
}

fn compartments_of(f: &Vec<Vec<char>>, m: &Vec<Vec<char>>) -> (r: Vec<String>)
    ensures
        crate::ir::graph::strings_view(r@) == compartments(views(f@), views(m@)),
{
    proof {
        reveal_strlit("\n");
    }
    let nl = chars_of("\n");
    let mut out: Vec<String> = Vec::new();
    if f.len() > 0 {
        out.push(string_of(&join_of(f, &nl)));
    }
    if m.len() > 0 {
        let ghost before = out@;
        let s = string_of(&join_of(m, &nl));
        out.push(s);
        assert(crate::ir::graph::strings_view(out@) =~= crate::ir::graph::strings_view(before).push(s@));
    }
    assert(crate::ir::graph::strings_view(out@) =~= compartments(views(f@), views(m@)));
    out
}

/// Parse the lines of a `classDiagram` (after its header): graph (members
/// folded into compartments), warnings, and whether the lines are fatal.
pub fn parse_class(lines: &Vec<Line>) -> (r: (Graph, Vec<ParseError>, bool))
    ensures
        ({
            let t = class_spec(lines_view(lines@));
            &&& r.2 == t.2
            &&& !r.2 ==> r.0@ == t.0 && errs_view(r.1@) == t.1
        }),
{
    let ghost ls = lines_view(lines@);
    let mut p = ClassParser {
        graph: Graph::new(Direction::TopBottom),
        names: Vec::new(),
        members: Vec::new(),
        open: None,
        fatal: false,
    };
    assert(p@.graph == empty_graph(Direction::TopBottom)) by {
        assert(p@.graph.nodes =~= Seq::<NodeV>::empty());
        assert(p@.graph.edges =~= Seq::<EdgeV>::empty());
        assert(p@.graph.subgraphs =~= empty_graph(Direction::TopBottom).subgraphs);
    }
    assert(p@.names =~= Seq::<(Seq<char>, NodeId)>::empty());
    assert(p@.members =~= Seq::<(Seq<Seq<char>>, Seq<Seq<char>>)>::empty());
    let mut warnings: Vec<ParseError> = Vec::new();
    let mut i: usize = 0;
    while i < lines.len()
        invariant
            i <= lines@.len(),
            ls == lines_view(lines@),
            !p.fatal,
            class_upto(ls, i as int) == (p@, errs_view(warnings@)),
        decreases lines@.len() - i,
    {
        assert(ls[i as int] == (lines@[i as int].0 as int, lines@[i as int].1@));
        let e = p.line(lines[i].0, &lines[i].1);
        if p.fatal {
            proof {
                lemma_class_fatal_sticky(ls, i + 1, ls.len() as int);
            }
            return (p.graph, warnings, true);
        }
        match e {
            Some(e) => {
                proof {
                    lemma_errs_push(warnings@, e);
                }
                warnings.push(e);
            },
            None => {},
        }
        i += 1;
    }
    let ghost st = p@;
    let mut g = p.graph;
    let members = p.members;
    let mut k: usize = 0;
    while k < g.nodes.len()
        invariant
            k <= g.nodes@.len() == st.graph.nodes.len(),
            members_view(members@) == st.members,
            g@.direction == st.graph.direction,
            g@.edges == st.graph.edges,
            g@.subgraphs == st.graph.subgraphs,
            forall|j: int| 0 <= j < k ==> g@.nodes[j] == with_members(st.graph.nodes, st.members)[j],
            forall|j: int| k <= j < g@.nodes.len() ==> g@.nodes[j] == st.graph.nodes[j],
        decreases g.nodes@.len() - k,
    {
        if k < members.len() {
            let secs = compartments_of(&members[k].0, &members[k].1);
            let ghost g0 = g@;
            let mut n = crate::ir::graph::Node::new(String::new(), String::new());
            std::mem::swap(&mut n, &mut g.nodes[k]);
            assert(n@ == g0.nodes[k as int]);
            n.sections = secs;
            let ghost nv = n@;
            g.nodes.set(k, n);
            proof {
                assert(g@.nodes =~= g0.nodes.update(k as int, nv));
            }
        }
        k += 1;
    }
    assert(g@.nodes =~= with_members(st.graph.nodes, st.members));
    (g, warnings, false)
}

} // verus!
