//! Entity-relationship diagram parser: entities become nodes with an
//! attribute compartment, relationships become edges whose end labels are
//! the crow's-foot cardinalities (`1`, `0..1`, `1..*`, `0..*`).

use vstd::prelude::*;
use crate::ir::graph::{Direction, Edge, EdgeKind, EdgeV, Graph, GraphV, NodeId, NodeV};
use crate::ir::style::{ComponentRole, EdgeStyle, NodeShape};
use crate::parser::flowchart::empty_graph;
use crate::parser::named::{named_intern, named_intern_of, table_view};
use crate::parser::{char_alnum, errs_view, is_alnum, lemma_errs_push, lines_view, ErrV, Line, ParseError};
use crate::text::{
    byte_len, byte_len_wide, chars_of, concat, eq_of, find, find_of, join, join_of, lemma_find,
    slice_of, split_once, split_once_of, split_ws, split_ws_of, string_of, strip_suffix,
    strip_suffix_of, trim, trim_end, trim_end_of, trim_matches, trim_matches_of, trim_of, utf8_len,
    views,
};

verus! {

/// Letters, digits, `_` and `-`, at least one.
pub open spec fn is_entity_ident(s: Seq<char>) -> bool {
    s.len() > 0 && forall|i: int| 0 <= i < s.len() ==> char_alnum(#[trigger] s[i]) || s[i] == '_' || s[i] == '-'
}

/// Crow's-foot token to its cardinality label; `left` tokens read mirrored,
/// and `}` counts as `{`.
pub open spec fn cardinality_label(tok: Seq<char>, left: bool) -> Option<Seq<char>> {
    let o = if left {
        tok.reverse()
    } else {
        tok
    };
    let n = o.map_values(|c: char| if c == '}' { '{' } else { c });
    if n == "||"@ {
        Some("1"@)
    } else if n == "o|"@ || n == "|o"@ {
        Some("0..1"@)
    } else if n == "|{"@ || n == "{|"@ {
        Some("1..*"@)
    } else if n == "o{"@ || n == "{o"@ {
        Some("0..*"@)
    } else {
        None
    }
}

/// `int id PK` becomes `id: int  [PK]`; lines with fewer than two words stay.
pub open spec fn normalize_attribute(line: Seq<char>) -> Seq<char> {
    let parts = split_ws(line);
    if parts.len() < 2 {
        line
    } else {
        let base = parts[1] + ": "@ + parts[0];
        if parts.len() > 2 {
            base + "  ["@ + join(parts.skip(2), ","@) + "]"@
        } else {
            base
        }
    }
}

/// Split off the last two bytes: `None` where that is not a character
/// boundary (fatal input). Needs at least two bytes.
pub open spec fn split_last_two_bytes(s: Seq<char>) -> Option<(Seq<char>, Seq<char>)> {
    let c = s.last();
    if utf8_len(c) == 2 {
        Some((s.drop_last(), seq![c]))
    } else if utf8_len(c) == 1 && s.len() >= 2 && utf8_len(s[s.len() - 2]) == 1 {
        Some((s.take(s.len() - 2), s.skip(s.len() - 2)))
    } else {
        None
    }
}

/// Split off the first two bytes, as above.
pub open spec fn split_first_two_bytes(s: Seq<char>) -> Option<(Seq<char>, Seq<char>)> {
    let c = s[0];
    if utf8_len(c) == 2 {
        Some((seq![c], s.skip(1)))
    } else if utf8_len(c) == 1 && s.len() >= 2 && utf8_len(s[1]) == 1 {
        Some((s.take(2), s.skip(2)))
    } else {
        None
    }
}

/// Parser state: graph, entity table, open attribute block, fatal flag.
pub struct ErState {
    pub graph: GraphV,
    pub names: Seq<(Seq<char>, NodeId)>,
    pub open: Option<NodeId>,
    pub fatal: bool,
}

pub open spec fn er_intern(st: ErState, name: Seq<char>) -> (ErState, NodeId) {
    let (g, m, id, _) = named_intern(st.graph, st.names, name, NodeShape::Rect, ComponentRole::Database, None);
    (ErState { graph: g, names: m, ..st }, id)
}

/// Outcome of reading a line as a relationship: `None` if it is not one.
pub open spec fn er_relationship(st: ErState, line: Seq<char>) -> Option<ErState> {
    let dash = find(line, "--"@);
    let dot = find(line, ".."@);
    let body = match (dash, dot) {
        (Some(p), None) => Some((p, EdgeStyle::Solid)),
        (None, Some(p)) => Some((p, EdgeStyle::Dashed)),
        (Some(a), Some(b)) => if a < b {
            Some((a, EdgeStyle::Solid))
        } else {
            Some((b, EdgeStyle::Dashed))
        },
        (None, None) => None,
    };
    match body {
        None => None,
        Some((pos, style)) => {
            let left = trim_end(line.take(pos));
            let after = line.skip(pos + 2);
            if byte_len(left) < 2 || byte_len(after) < 2 {
                None
            } else {
                match (split_last_two_bytes(left), split_first_two_bytes(after)) {
                    (Some((lhs_raw, ltok)), Some((rtok, rest))) => match (
                        cardinality_label(ltok, true),
                        cardinality_label(rtok, false),
                    ) {
                        (Some(lcard), Some(rcard)) => {
                            let (rhs, label) = match split_once(rest, ":"@) {
                                Some((r, l)) => (trim(r), Some(trim_matches(trim(l), '"'))),
                                None => (trim(rest), None),
                            };
                            let lhs = trim(lhs_raw);
                            if !is_entity_ident(lhs) || !is_entity_ident(rhs) {
                                None
                            } else {
                                let (s1, a) = er_intern(st, lhs);
                                let (s2, b) = er_intern(s1, rhs);
                                let e = EdgeV {
                                    source: a,
                                    target: b,
                                    label,
                                    style,
                                    kind: EdgeKind::Open,
                                    end_labels: Some((lcard, rcard)),
                                    animated: false,
                                };
                                Some(ErState { graph: GraphV { edges: s2.graph.edges.push(e), ..s2.graph }, ..s2 })
                            }
                        },
                        _ => None,
                    },
                    _ => Some(ErState { fatal: true, ..st }),
                }
            }
        },
    }
}

/// One ER line: attribute block body, `ENTITY {`, relationship, or bare
/// entity.
pub open spec fn er_line(st: ErState, ln: int, line: Seq<char>) -> (ErState, Option<ErrV>) {
    match st.open {
        Some(id) => if line == "}"@ {
            (ErState { open: None, ..st }, None)
        } else if id.0 < st.graph.nodes.len() {
            let i = id.0 as int;
            let node = st.graph.nodes[i];
            let secs = if node.sections.len() == 0 {
                seq![seq![]]
            } else {
                node.sections
            };
            let s0 = if secs[0].len() > 0 {
                secs[0].push('\n')
            } else {
                secs[0]
            };
            let n2 = NodeV { sections: secs.update(0, s0 + normalize_attribute(line)), ..node };
            (ErState { graph: GraphV { nodes: st.graph.nodes.update(i, n2), ..st.graph }, ..st }, None)
        } else {
            (ErState { fatal: true, ..st }, None)
        },
        None => {
            let block = match strip_suffix(line, "{"@) {
                Some(name) => if is_entity_ident(trim(name)) {
                    Some(trim(name))
                } else {
                    None
                },
                None => None,
            };
            match block {
                Some(name) => {
                    let (s1, id) = er_intern(st, name);
                    (ErState { open: Some(id), ..s1 }, None)
                },
                None => match er_relationship(st, line) {
                    Some(s) => (s, None),
                    None => if is_entity_ident(line) {
                        (er_intern(st, line).0, None)
                    } else {
                        (st, Some(ErrV { line: ln, message: "cannot parse ER statement '"@ + line + "'"@ }))
                    },
                },
            }
        },
    }
}

/// State and warnings after the first `k` lines; a fatal line ends the parse.
pub open spec fn er_upto(ls: Seq<(int, Seq<char>)>, k: int) -> (ErState, Seq<ErrV>)
    decreases k,
{
    if k <= 0 || k > ls.len() {
        (ErState { graph: empty_graph(Direction::TopBottom), names: seq![], open: None, fatal: false }, seq![])
    } else {
        let (st, es) = er_upto(ls, k - 1);
        if st.fatal {
            (st, es)
        } else {
            let (st2, e) = er_line(st, ls[k - 1].0, ls[k - 1].1);
            (
                st2,
                match e {
                    Some(x) => es.push(x),
                    None => es,
                },
            )
        }
    }
}

/// Lenient ER parse: graph, warnings, and whether the input is fatal.
pub open spec fn er_spec(ls: Seq<(int, Seq<char>)>) -> (GraphV, Seq<ErrV>, bool) {
    let (st, es) = er_upto(ls, ls.len() as int);
    (st.graph, es, st.fatal)
}

/* ---------------- executable parser ---------------- */

fn is_entity_ident_of(s: &[char]) -> (r: bool)
    ensures
        r == is_entity_ident(s@),
{
    if s.len() == 0 {
        return false;
    }
    let mut i: usize = 0;
    while i < s.len()
        invariant
            i <= s@.len(),
            forall|k: int| 0 <= k < i ==> char_alnum(#[trigger] s@[k]) || s@[k] == '_' || s@[k] == '-',
        decreases s@.len() - i,
    {
        if !(is_alnum(s[i]) || s[i] == '_' || s[i] == '-') {
            return false;
        }
        i += 1;
    }
    true
}

/// The mark of a crow's-foot token next to the line: a bar or a ring.
pub open spec fn limit_mark(c: char) -> bool {
    c == '|' || c == 'o'
}

/// The outer mark of a crow's-foot token: a bar or a foot.
pub open spec fn count_mark(c: char) -> bool {
    c == '|' || c == '{' || c == '}'
}

/// A crow's-foot token is two marks, read the same either way round: its
/// label is `min..max`, or `1` for exactly one. The minimum is `0` when a
/// ring `o` is drawn and `1` otherwise; the maximum is `*` when a foot `{`
/// or `}` is drawn and `1` otherwise.
pub proof fn law_cardinality_marks(tok: Seq<char>, left: bool)
    ensures
        cardinality_label(tok, left) matches Some(l) ==> {
            &&& tok.len() == 2
            &&& l.len() == 1 || (l.len() == 4 && l[1] == '.' && l[2] == '.')
            &&& l[0] == (if tok[0] == 'o' || tok[1] == 'o' {
                '0'
            } else {
                '1'
            })
            &&& l.last() == (if tok[0] == '{' || tok[1] == '{' || tok[0] == '}' || tok[1] == '}' {
                '*'
            } else {
                '1'
            })
            &&& (l.len() == 1 <==> (tok[0] == '|' && tok[1] == '|'))
        },
        cardinality_label(tok, left) is Some <==> (tok.len() == 2 && ((limit_mark(tok[0])
            && count_mark(tok[1])) || (limit_mark(tok[1]) && count_mark(tok[0])))),
{
    reveal_strlit("||");
    reveal_strlit("o|");
    reveal_strlit("|o");
    reveal_strlit("|{");
    reveal_strlit("{|");
    reveal_strlit("o{");
    reveal_strlit("{o");
    reveal_strlit("1");
    reveal_strlit("0..1");
    reveal_strlit("1..*");
    reveal_strlit("0..*");
    assert("1"@ =~= seq!['1']);
    assert("0..1"@ =~= seq!['0', '.', '.', '1']);
    assert("1..*"@ =~= seq!['1', '.', '.', '*']);
    assert("0..*"@ =~= seq!['0', '.', '.', '*']);
    let o = if left {
        tok.reverse()
    } else {
        tok
    };
    let n = o.map_values(|c: char| if c == '}' { '{' } else { c });
    assert("||"@.len() == 2 && "o|"@.len() == 2 && "|o"@.len() == 2 && "|{"@.len() == 2);
    assert("{|"@.len() == 2 && "o{"@.len() == 2 && "{o"@.len() == 2);
    assert("||"@[0] == '|' && "||"@[1] == '|');
    assert("o|"@[0] == 'o' && "o|"@[1] == '|');
    assert("|o"@[0] == '|' && "|o"@[1] == 'o');
    assert("|{"@[0] == '|' && "|{"@[1] == '{');
    assert("{|"@[0] == '{' && "{|"@[1] == '|');
    assert("o{"@[0] == 'o' && "o{"@[1] == '{');
    assert("{o"@[0] == '{' && "{o"@[1] == 'o');
    if tok.len() == 2 {
        let a = if left { tok[1] } else { tok[0] };
        let b = if left { tok[0] } else { tok[1] };
        assert(o[0] == a && o[1] == b);
        let na = if a == '}' { '{' } else { a };
        let nb = if b == '}' { '{' } else { b };
        assert(n =~= seq![na, nb]);
        if na == '|' && nb == '|' {
            assert(n =~= "||"@);
        } else if na == 'o' && nb == '|' {
            assert(n =~= "o|"@);
        } else if na == '|' && nb == 'o' {
            assert(n =~= "|o"@);
        } else if na == '|' && nb == '{' {
            assert(n =~= "|{"@);
        } else if na == '{' && nb == '|' {
            assert(n =~= "{|"@);
        } else if na == 'o' && nb == '{' {
            assert(n =~= "o{"@);
        } else if na == '{' && nb == 'o' {
            assert(n =~= "{o"@);
        }
    }
    if cardinality_label(tok, left) is Some {
        assert(n.len() == 2);
        assert(tok.len() == 2);
    }
}

fn cardinality_label_of(tok: &[char], left: bool) -> (r: Option<Vec<char>>)
    ensures
        cardinality_label(tok@, left) == crate::parser::flowchart::ov(r),
{
    proof {
        reveal_strlit("||");
        reveal_strlit("o|");
        reveal_strlit("|o");
        reveal_strlit("|{");
        reveal_strlit("{|");
        reveal_strlit("o{");
        reveal_strlit("{o");
        reveal_strlit("1");
        reveal_strlit("0..1");
        reveal_strlit("1..*");
        reveal_strlit("0..*");
    }
    let ghost o = if left {
        tok@.reverse()
    } else {
        tok@
    };
    let ghost nv = o.map_values(|c: char| if c == '}' { '{' } else { c });
    let n = tok.len();
    let mut v: Vec<char> = Vec::new();
    let mut i: usize = 0;
    while i < n
        invariant
            i <= n == tok@.len(),
            o == (if left {
                tok@.reverse()
            } else {
                tok@
            }),
            v@ == o.take(i as int).map_values(|c: char| if c == '}' { '{' } else { c }),
        decreases n - i,
    {
        let c = if left {
            tok[n - 1 - i]
        } else {
            tok[i]
        };
        assert(c == o[i as int]);
        let d = if c == '}' {
            '{'
        } else {
            c
        };
        v.push(d);
        assert(o.take(i + 1).map_values(|c: char| if c == '}' { '{' } else { c }) =~= o.take(
            i as int,
        ).map_values(|c: char| if c == '}' { '{' } else { c }).push(d));
        i += 1;
    }
    assert(o.take(n as int) =~= o);
    assert(v@ == nv);
    if eq_of(&v, &chars_of("||")) {
        Some(chars_of("1"))
    } else if eq_of(&v, &chars_of("o|")) || eq_of(&v, &chars_of("|o")) {
        Some(chars_of("0..1"))
    } else if eq_of(&v, &chars_of("|{")) || eq_of(&v, &chars_of("{|")) {
        Some(chars_of("1..*"))
    } else if eq_of(&v, &chars_of("o{")) || eq_of(&v, &chars_of("{o")) {
        Some(chars_of("0..*"))
    } else {
        None
    }
}

fn normalize_attribute_of(line: &[char]) -> (r: Vec<char>)
    ensures
        r@ == normalize_attribute(line@),
{
    proof {
        reveal_strlit(": ");
        reveal_strlit("  [");
        reveal_strlit(",");
        reveal_strlit("]");
    }
    let parts = split_ws_of(line);
    if parts.len() < 2 {
        return slice_of(line, 0, line.len());
    }
    assert(views(parts@)[0] == parts@[0]@ && views(parts@)[1] == parts@[1]@);
    let mut out = concat(&parts[1], &chars_of(": "));
    out = concat(&out, &parts[0]);
    if parts.len() > 2 {
        let mut keys: Vec<Vec<char>> = Vec::new();
        let mut i: usize = 2;
        while i < parts.len()
            invariant
                2 <= i <= parts@.len(),
                views(keys@) == views(parts@).subrange(2, i as int),
            decreases parts@.len() - i,
        {
            let k = slice_of(&parts[i], 0, parts[i].len());
            assert(parts@[i as int]@.subrange(0, parts@[i as int]@.len() as int) == parts@[i as int]@);
            proof {
                crate::text::lemma_views_push(keys@, k);
            }
            keys.push(k);
            assert(views(parts@).subrange(2, i + 1) =~= views(parts@).subrange(2, i as int).push(parts@[i as int]@));
            i += 1;
        }
        assert(views(parts@).subrange(2, parts@.len() as int) =~= views(parts@).skip(2));
        out = concat(&out, &chars_of("  ["));
        out = concat(&out, &join_of(&keys, &chars_of(",")));
        out = concat(&out, &chars_of("]"));
    }
    out
}

fn utf8_len_of(c: char) -> (r: u32)
    ensures
        r == utf8_len(c),
{
    let u = c as u32;
    if u < 0x80 {
        1
    } else if u < 0x800 {
        2
    } else if u < 0x10000 {
        3
    } else {
        4
    }
}

fn split_last_two_bytes_of(s: &[char]) -> (r: Option<(Vec<char>, Vec<char>)>)
    requires
        s@.len() > 0,
    ensures
        split_last_two_bytes(s@) == (match r {
            Some((a, b)) => Some((a@, b@)),
            None => None,
        }),
{
    let n = s.len();
    let c = s[n - 1];
    if utf8_len_of(c) == 2 {
        let v = vec![c];
        assert(v@ == seq![c]);
        Some((slice_of(s, 0, n - 1), v))
    } else if utf8_len_of(c) == 1 && n >= 2 && utf8_len_of(s[n - 2]) == 1 {
        Some((slice_of(s, 0, n - 2), slice_of(s, n - 2, n)))
    } else {
        None
    }
}

fn split_first_two_bytes_of(s: &[char]) -> (r: Option<(Vec<char>, Vec<char>)>)
    requires
        s@.len() > 0,
    ensures
        split_first_two_bytes(s@) == (match r {
            Some((a, b)) => Some((a@, b@)),
            None => None,
        }),
{
    let n = s.len();
    let c = s[0];
    if utf8_len_of(c) == 2 {
        let v = vec![c];
        assert(v@ == seq![c]);
        Some((v, slice_of(s, 1, n)))
    } else if utf8_len_of(c) == 1 && n >= 2 && utf8_len_of(s[1]) == 1 {
        Some((slice_of(s, 0, 2), slice_of(s, 2, n)))
    } else {
        None
    }
}

/// The ER parser's running state.
pub struct ErParser {
    pub graph: Graph,
    pub names: Vec<(Vec<char>, NodeId)>,
    pub open: Option<NodeId>,
    pub fatal: bool,
}

impl View for ErParser {
    type V = ErState;

    open spec fn view(&self) -> ErState {
        ErState { graph: self.graph@, names: table_view(self.names@), open: self.open, fatal: self.fatal }
    }
}

impl ErParser {
    fn intern(&mut self, name: &[char]) -> (id: NodeId)
        ensures
            (final(self)@, id) == er_intern(old(self)@, name@),
    {
        named_intern_of(&mut self.graph, &mut self.names, name, NodeShape::Rect, ComponentRole::Database, None).0
    }
}

proof fn lemma_byte_len_pos(s: Seq<char>)
    requires
        byte_len(s) >= 2,
    ensures
        s.len() > 0,
{
    if s.len() == 0 {
        assert(byte_len(s) == 0);
    }
}

impl ErParser {
    #[verifier::rlimit(40)]
    fn relationship(&mut self, line: &[char]) -> (found: bool)
        requires
            !old(self).fatal,
        ensures
            found <==> er_relationship(old(self)@, line@) is Some,
            found ==> final(self)@ == er_relationship(old(self)@, line@).unwrap(),
            !found ==> final(self)@ == old(self)@,
    {
        proof {
            reveal_strlit("--");
            reveal_strlit("..");
            reveal_strlit(":");
            lemma_find(line@, "--"@);
            lemma_find(line@, ".."@);
        }
        let dash = find_of(line, &chars_of("--"));
        let dot = find_of(line, &chars_of(".."));
        let (pos, style) = match (dash, dot) {
            (Some(p), None) => (p, EdgeStyle::Solid),
            (None, Some(p)) => (p, EdgeStyle::Dashed),
            (Some(a), Some(b)) => if a < b {
                (a, EdgeStyle::Solid)
            } else {
                (b, EdgeStyle::Dashed)
            },
            (None, None) => {
                return false;
            },
        };
        assert(pos + 2 <= line.len());
        let left = trim_end_of(&slice_of(line, 0, pos));
        let after = slice_of(line, pos + 2, line.len());
        if byte_len_wide(&left) < 2 || byte_len_wide(&after) < 2 {
            return false;
        }
        proof {
            lemma_byte_len_pos(left@);
            lemma_byte_len_pos(after@);
        }
        let (lhs_raw, ltok) = match split_last_two_bytes_of(&left) {
            Some(x) => x,
            None => {
                self.fatal = true;
                return true;
            },
        };
        let (rtok, rest) = match split_first_two_bytes_of(&after) {
            Some(x) => x,
            None => {
                self.fatal = true;
                return true;
            },
        };
        let lcard = match cardinality_label_of(&ltok, true) {
            Some(c) => c,
            None => {
                return false;
            },
        };
        let rcard = match cardinality_label_of(&rtok, false) {
            Some(c) => c,
            None => {
                return false;
            },
        };
        let (rhs, label) = match split_once_of(&rest, &chars_of(":")) {
            Some((r, l)) => (trim_of(&r), Some(trim_matches_of(&trim_of(&l), '"'))),
            None => (trim_of(&rest), None),
        };
        let lhs = trim_of(&lhs_raw);
        if !is_entity_ident_of(&lhs) || !is_entity_ident_of(&rhs) {
            return false;
        }
        let a = self.intern(&lhs);
        let b = self.intern(&rhs);
        let e = Edge {
            source: a,
            target: b,
            label: match &label {
                Some(l) => Some(string_of(l)),
                None => None,
            },
            style,
            kind: EdgeKind::Open,
            end_labels: Some((string_of(&lcard), string_of(&rcard))),
            animated: false,
        };
        self.graph.add_edge(e);
        true
    }

    /// One ER statement; the warning if it cannot be read.
    pub fn line(&mut self, ln: usize, line: &[char]) -> (r: Option<ParseError>)
        requires
            !old(self).fatal,
        ensures
            ({
                let t = er_line(old(self)@, ln as int, line@);
                &&& final(self)@ == t.0
                &&& t.1 == (match r {
                    Some(e) => Some(e@),
                    None => None,
                })
            }),
    {
        proof {
            reveal_strlit("}");
            reveal_strlit("{");
            reveal_strlit("\n");
            reveal_strlit("cannot parse ER statement '");
            reveal_strlit("'");
        }
        match self.open {
            Some(id) => {
                if eq_of(line, &chars_of("}")) {
                    self.open = None;
                    return None;
                }
                if id.index() >= self.graph.nodes.len() {
                    self.fatal = true;
                    return None;
                }
                let attr = normalize_attribute_of(line);
                let ghost g0 = self.graph@;
                let node = self.graph.node_mut(id);
                let ghost n0 = node@;
                if node.sections.len() == 0 {
                    let empty = String::new();
                    assert(empty@ =~= Seq::<char>::empty());
                    node.sections.push(empty);
                    assert(node@.sections =~= seq![Seq::<char>::empty()]);
                }
                let ghost secs = node@.sections;
                assert(secs == (if n0.sections.len() == 0 {
                    seq![Seq::<char>::empty()]
                } else {
                    n0.sections
                }));
                assert(secs[0] == node.sections@[0]@);
                let mut s0 = chars_of(node.sections[0].as_str());
                if s0.len() > 0 {
                    s0.push('\n');
                }
                crate::render::append(&mut s0, &attr);
                node.sections.set(0, string_of(&s0));
                assert(node@.sections =~= secs.update(0, s0@));
                assert(node@ == NodeV { sections: secs.update(0, s0@), ..n0 });
                proof {
                    assert(self.graph@.nodes =~= g0.nodes.update(id.0 as int, node@));
                }
                None
            },
            None => {
                if let Some(name) = strip_suffix_of(line, &chars_of("{")) {
                    let t = trim_of(&name);
                    if is_entity_ident_of(&t) {
                        let id = self.intern(&t);
                        self.open = Some(id);
                        return None;
                    }
                }
                if self.relationship(line) {
                    return None;
                }
                if is_entity_ident_of(line) {
                    self.intern(line);
                    return None;
                }
                let a = concat(&chars_of("cannot parse ER statement '"), line);
                let m = concat(&a, &chars_of("'"));
                Some(ParseError::syntax(ln, &m))
            },
        }
    }
}

proof fn lemma_er_fatal_sticky(ls: Seq<(int, Seq<char>)>, k: int, k2: int)
    requires
        0 <= k <= k2 <= ls.len(),
        er_upto(ls, k).0.fatal,
    ensures
        er_upto(ls, k2) == er_upto(ls, k),
    decreases k2 - k,
{
    if k < k2 {
        lemma_er_fatal_sticky(ls, k, k2 - 1);
    }
}

/// Parse the lines of an `erDiagram` (after its header): graph, warnings,
/// and whether the lines are fatal.
pub fn parse_er(lines: &Vec<Line>) -> (r: (Graph, Vec<ParseError>, bool))
    ensures
        ({
            let t = er_spec(lines_view(lines@));
            &&& r.2 == t.2
            &&& !r.2 ==> r.0@ == t.0 && errs_view(r.1@) == t.1
        }),
{
    let ghost ls = lines_view(lines@);
    let mut p = ErParser { graph: Graph::new(Direction::TopBottom), names: Vec::new(), open: None, fatal: false };
    assert(p@.graph == empty_graph(Direction::TopBottom)) by {
        assert(p@.graph.nodes =~= Seq::<NodeV>::empty());
        assert(p@.graph.edges =~= Seq::<EdgeV>::empty());
        assert(p@.graph.subgraphs =~= empty_graph(Direction::TopBottom).subgraphs);
    }
    assert(p@.names =~= Seq::<(Seq<char>, NodeId)>::empty());
    let mut warnings: Vec<ParseError> = Vec::new();
    let mut i: usize = 0;
    while i < lines.len()
        invariant
            i <= lines@.len(),
            ls == lines_view(lines@),
            !p.fatal,
            er_upto(ls, i as int) == (p@, errs_view(warnings@)),
        decreases lines@.len() - i,
    {
        assert(ls[i as int] == (lines@[i as int].0 as int, lines@[i as int].1@));
        let e = p.line(lines[i].0, &lines[i].1);
        if p.fatal {
            proof {
                lemma_er_fatal_sticky(ls, i + 1, ls.len() as int);
            }
            return (p.graph, warnings, true);
        }
        match e {
            Some(e) => {
                proof {
                    lemma_errs_push(warnings@, e);
                }
                warnings.push(e);
            },
            None => {},
        }
        i += 1;
    }
    (p.graph, warnings, false)
}

} // verus!
