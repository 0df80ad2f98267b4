//! Flowchart parser: the Mermaid `flowchart`/`graph` dialect to graph IR.
//!
//! - Node shapes from bracket syntax: `[rect]`, `(rounded)`, `([stadium])`,
//!   `[(cylinder)]`, `((circle))`, `{diamond}`, `{{hexagon}}`
//! - Edges: `-->`, `---`, `-.->`, `==>`, `<-->`, `~~~`, with `|label|` or
//!   `-- label -->`; `a & b --> c & d` makes the cross product
//! - `:::role` class bindings mapping to the component taxonomy
//! - `subgraph id["Label"] ... end` (nesting supported)
//! - Icon refs inside labels: `{icon:logos:postgresql}`

use vstd::prelude::*;
use crate::ir::graph::{
    index_by_name, lemma_index_by_name, Direction, Edge, EdgeKind, EdgeV, Graph, GraphV, Node,
    NodeId, NodeV, Subgraph, SubgraphId, SubgraphV,
};
use crate::ir::style::{ComponentRole, EdgeStyle, NodeShape};
use crate::parser::{
    char_alnum, clean_edge_label, clean_edge_label_of, extract_icon, extract_icon_of, is_alnum,
    sanitize_html_label, sanitize_html_label_of,
    unescape_newlines, unescape_newlines_of, ErrV, ParseError,
};
use crate::text::{
    chars_of, concat, count_matches, count_matches_of, eq_of, find, find_any, find_any_of,
    find_of, lemma_find, lemma_find_any_from, lower, lower_of, slice_of, split_once,
    split_once_of, starts_with, starts_with_of, string_of, strip_prefix, strip_prefix_of,
    strip_suffix, strip_suffix_of, trim, trim_end, trim_end_of, trim_matches, trim_matches_of,
    trim_of, trim_start, trim_start_of,
};

verus! {

/// Direction keyword of a header (`TB` by default).
pub open spec fn spec_parse_direction(s: Seq<char>) -> Direction {
    if s == "LR"@ {
        Direction::LeftRight
    } else if s == "RL"@ {
        Direction::RightLeft
    } else if s == "BT"@ {
        Direction::BottomTop
    } else {
        Direction::TopBottom
    }
}

pub fn parse_direction(s: &[char]) -> (r: Direction)
    ensures
        r == spec_parse_direction(s@),
{
    if eq_of(s, &chars_of("LR")) {
        Direction::LeftRight
    } else if eq_of(s, &chars_of("RL")) {
        Direction::RightLeft
    } else if eq_of(s, &chars_of("BT")) {
        Direction::BottomTop
    } else {
        Direction::TopBottom
    }
}

/// Default roles for shapes with strong conventions.
pub open spec fn spec_infer_role(shape: NodeShape) -> ComponentRole {
    match shape {
        NodeShape::Cylinder => ComponentRole::Database,
        NodeShape::Hexagon => ComponentRole::Queue,
        _ => ComponentRole::Generic,
    }
}

pub fn infer_role(shape: NodeShape) -> (r: ComponentRole)
    ensures
        r == spec_infer_role(shape),
{
    match shape {
        NodeShape::Cylinder => ComponentRole::Database,
        NodeShape::Hexagon => ComponentRole::Queue,
        _ => ComponentRole::Generic,
    }
}

/// `:::role` names; unknown names map to `Generic`.
pub open spec fn spec_parse_role(s: Seq<char>) -> ComponentRole {
    if s == "service"@ {
        ComponentRole::Service
    } else if s == "database"@ || s == "db"@ {
        ComponentRole::Database
    } else if s == "cache"@ {
        ComponentRole::Cache
    } else if s == "queue"@ {
        ComponentRole::Queue
    } else if s == "gateway"@ {
        ComponentRole::Gateway
    } else if s == "client"@ {
        ComponentRole::Client
    } else if s == "external"@ {
        ComponentRole::External
    } else if s == "storage"@ {
        ComponentRole::Storage
    } else if s == "compute"@ {
        ComponentRole::Compute
    } else if s == "highlight"@ {
        ComponentRole::Highlight
    } else {
        ComponentRole::Generic
    }
}

pub fn parse_role(s: &[char]) -> (r: ComponentRole)
    ensures
        r == spec_parse_role(s@),
{
    if eq_of(s, &chars_of("service")) {
        ComponentRole::Service
    } else if eq_of(s, &chars_of("database")) || eq_of(s, &chars_of("db")) {
        ComponentRole::Database
    } else if eq_of(s, &chars_of("cache")) {
        ComponentRole::Cache
    } else if eq_of(s, &chars_of("queue")) {
        ComponentRole::Queue
    } else if eq_of(s, &chars_of("gateway")) {
        ComponentRole::Gateway
    } else if eq_of(s, &chars_of("client")) {
        ComponentRole::Client
    } else if eq_of(s, &chars_of("external")) {
        ComponentRole::External
    } else if eq_of(s, &chars_of("storage")) {
        ComponentRole::Storage
    } else if eq_of(s, &chars_of("compute")) {
        ComponentRole::Compute
    } else if eq_of(s, &chars_of("highlight")) {
        ComponentRole::Highlight
    } else {
        ComponentRole::Generic
    }
}

/// Node identifiers: alphanumerics, `_`, `-`, `.`.
pub open spec fn spec_is_ident(s: Seq<char>) -> bool {
    forall|i: int|
        0 <= i < s.len() ==> char_alnum(#[trigger] s[i]) || s[i] == '_' || s[i] == '-' || s[i]
            == '.'
}

pub fn is_ident(s: &[char]) -> (r: bool)
    ensures
        r == spec_is_ident(s@),
{
    let mut i: usize = 0;
    while i < s.len()
        invariant
            i <= s@.len(),
            forall|k: int|
                0 <= k < i ==> char_alnum(#[trigger] s@[k]) || s@[k] == '_' || s@[k] == '-'
                    || s@[k] == '.',
        decreases s@.len() - i,
    {
        let c = s[i];
        if !(is_alnum(c) || c == '_' || c == '-' || c == '.') {
            return false;
        }
        i += 1;
    }
    true
}

/// Split a chain segment on `&` outside any bracket/quote nesting.
pub open spec fn amp_scan(s: Seq<char>, i: int, depth: int, in_quote: bool, start: int) -> Seq<
    Seq<char>,
>
    decreases s.len() - i,
{
    if i < 0 || i >= s.len() {
        seq![s.subrange(start, s.len() as int)]
    } else {
        let c = s[i];
        if c == '"' {
            amp_scan(s, i + 1, depth, !in_quote, start)
        } else if (c == '[' || c == '(' || c == '{') && !in_quote {
            amp_scan(s, i + 1, depth + 1, in_quote, start)
        } else if (c == ']' || c == ')' || c == '}') && !in_quote {
            amp_scan(s, i + 1, depth - 1, in_quote, start)
        } else if c == '&' && depth == 0 && !in_quote {
            seq![s.subrange(start, i)] + amp_scan(s, i + 1, depth, in_quote, i + 1)
        } else {
            amp_scan(s, i + 1, depth, in_quote, start)
        }
    }
}

pub open spec fn split_amp(s: Seq<char>) -> Seq<Seq<char>> {
    amp_scan(s, 0, 0, false, 0)
}

pub fn split_amp_of(s: &[char]) -> (r: Vec<Vec<char>>)
    ensures
        crate::text::views(r@) == split_amp(s@),
{
    let mut parts: Vec<Vec<char>> = Vec::new();
    let mut depth: i128 = 0;
    let mut in_quote = false;
    let mut start: usize = 0;
    let mut i: usize = 0;
    while i < s.len()
        invariant
            i <= s@.len(),
            start <= i,
            -(i as int) <= depth <= i,
            split_amp(s@) == crate::text::views(parts@) + amp_scan(
                s@,
                i as int,
                depth as int,
                in_quote,
                start as int,
            ),
        decreases s@.len() - i,
    {
        let c = s[i];
        if c == '"' {
            in_quote = !in_quote;
        } else if (c == '[' || c == '(' || c == '{') && !in_quote {
            depth += 1;
        } else if (c == ']' || c == ')' || c == '}') && !in_quote {
            depth -= 1;
        } else if c == '&' && depth == 0 && !in_quote {
            let piece = slice_of(s, start, i);
            proof {
                crate::text::lemma_views_push(parts@, piece);
            }
            parts.push(piece);
            start = i + 1;
        }
        i += 1;
    }
    let piece = slice_of(s, start, s.len());
    proof {
        crate::text::lemma_views_push(parts@, piece);
    }
    parts.push(piece);
    parts
}

/// Index of the first `"` at or after `i` (or the length).
pub open spec fn quote_end(s: Seq<char>, i: int) -> int
    decreases s.len() - i,
{
    if 0 <= i < s.len() && s[i] != '"' {
        quote_end(s, i + 1)
    } else {
        i
    }
}

proof fn lemma_quote_end(s: Seq<char>, i: int)
    requires
        0 <= i <= s.len(),
    ensures
        i <= quote_end(s, i) <= s.len(),
    decreases s.len() - i,
{
    if i < s.len() && s[i] != '"' {
        lemma_quote_end(s, i + 1);
    }
}

/// Whether `r` begins an edge operator.
pub open spec fn op_start(r: Seq<char>) -> bool {
    starts_with(r, "--"@) || starts_with(r, "-."@) || starts_with(r, "=="@) || starts_with(
        r,
        "<--"@,
    ) || starts_with(r, "<=="@) || starts_with(r, "~~~"@)
}

/// Where the leading node segment of a chain ends (before an edge
/// operator at bracket depth 0, skipping quoted spans).
pub open spec fn seg_scan(s: Seq<char>, i: int, depth: int) -> int
    decreases s.len() + 1 - i,
{
    if i < 0 || i >= s.len() {
        s.len() as int
    } else {
        let c = s[i];
        if c == '[' || c == '(' || c == '{' {
            seg_scan(s, i + 1, depth + 1)
        } else if c == ']' || c == ')' || c == '}' {
            seg_scan(s, i + 1, depth - 1)
        } else if c == '"' {
            let j = quote_end(s, i + 1);
            if i <= j <= s.len() {
                seg_scan(s, j + 1, depth)
            } else {
                s.len() as int
            }
        } else if (c == '-' || c == '=' || c == '<' || c == '~') && depth == 0 && op_start(
            s.skip(i),
        ) {
            i
        } else {
            seg_scan(s, i + 1, depth)
        }
    }
}

/// Split off the leading node segment of a chain: (segment, rest).
pub open spec fn split_node_segment(s: Seq<char>) -> (Seq<char>, Seq<char>) {
    let k = seg_scan(s, 0, 0);
    (s.take(k), s.skip(k))
}

proof fn lemma_seg_scan(s: Seq<char>, i: int, depth: int)
    requires
        0 <= i,
    ensures
        0 <= seg_scan(s, i, depth) <= s.len(),
    decreases s.len() + 1 - i,
{
    if i < s.len() {
        let c = s[i];
        if c == '[' || c == '(' || c == '{' {
            lemma_seg_scan(s, i + 1, depth + 1);
        } else if c == ']' || c == ')' || c == '}' {
            lemma_seg_scan(s, i + 1, depth - 1);
        } else if c == '"' {
            lemma_quote_end(s, i + 1);
            lemma_seg_scan(s, quote_end(s, i + 1) + 1, depth);
        } else if (c == '-' || c == '=' || c == '<' || c == '~') && depth == 0 && op_start(
            s.skip(i),
        ) {
        } else {
            lemma_seg_scan(s, i + 1, depth);
        }
    }
}

fn op_start_of(r: &[char]) -> (b: bool)
    ensures
        b == op_start(r@),
{
    starts_with_of(r, &chars_of("--")) || starts_with_of(r, &chars_of("-.")) || starts_with_of(
        r,
        &chars_of("=="),
    ) || starts_with_of(r, &chars_of("<--")) || starts_with_of(r, &chars_of("<=="))
        || starts_with_of(r, &chars_of("~~~"))
}

pub fn split_node_segment_of(s: &[char]) -> (r: (Vec<char>, Vec<char>))
    ensures
        split_node_segment(s@) == (r.0@, r.1@),
{
    let mut depth: i128 = 0;
    let mut i: usize = 0;
    let n = s.len();
    while i < n
        invariant
            n == s@.len(),
            i <= n,
            -(i as int) <= depth <= i,
            seg_scan(s@, 0, 0) == seg_scan(s@, i as int, depth as int),
        decreases n + 1 - i,
    {
        let c = s[i];
        if c == '[' || c == '(' || c == '{' {
            depth += 1;
        } else if c == ']' || c == ')' || c == '}' {
            depth -= 1;
        } else if c == '"' {
            let ghost i0 = i;
            i += 1;
            while i < n && s[i] != '"'
                invariant
                    n == s@.len(),
                    i0 < i <= n,
                    quote_end(s@, i0 + 1) == quote_end(s@, i as int),
                decreases n - i,
            {
                i += 1;
            }
            proof {
                lemma_quote_end(s@, i0 + 1);
            }
            if i >= n {
                assert(seg_scan(s@, i0 as int, depth as int) == seg_scan(s@, n + 1, depth as int));
                assert(seg_scan(s@, n as int, depth as int) == n);
                continue;
            }
        } else if (c == '-' || c == '=' || c == '<' || c == '~') && depth == 0 {
            let rest = slice_of(s, i, n);
            if op_start_of(&rest) {
                assert(rest@ == s@.skip(i as int));
                return (slice_of(s, 0, i), rest);
            }
        }
        i += 1;
    }
    assert(s@.take(n as int) == s@);
    assert(s@.skip(n as int) == Seq::<char>::empty());
    let empty: Vec<char> = Vec::new();
    (slice_of(s, 0, n), empty)
}


/// A parsed edge operator: style, end markers and optional label.
pub struct EdgeOp {
    pub style: EdgeStyle,
    pub kind: EdgeKind,
    pub label: Option<Vec<char>>,
}

pub struct EdgeOpV {
    pub style: EdgeStyle,
    pub kind: EdgeKind,
    pub label: Option<Seq<char>>,
}

impl View for EdgeOp {
    type V = EdgeOpV;

    open spec fn view(&self) -> EdgeOpV {
        EdgeOpV {
            style: self.style,
            kind: self.kind,
            label: match self.label {
                Some(v) => Some(v@),
                None => None,
            },
        }
    }
}

/// Parse an edge operator (with optional label) at the start of `s0`:
/// the operator and the remaining tail, and whether the label is fatal.
pub open spec fn spec_edge_op(s0: Seq<char>) -> (Option<(EdgeOpV, Seq<char>)>, bool) {
    let kind_prefix = starts_with(s0, "<"@);
    let s = if kind_prefix {
        s0.skip(1)
    } else {
        s0
    };
    if starts_with(s, "~~~"@) {
        (
            Some(
                (
                    EdgeOpV { style: EdgeStyle::Invisible, kind: EdgeKind::Open, label: None },
                    s.skip(3),
                ),
            ),
            false,
        )
    } else {
        let (ok, style, after) = if starts_with(s, "-..-"@) {
            (true, EdgeStyle::Dotted, s.skip(4))
        } else if starts_with(s, "-."@) {
            let r = s.skip(2);
            if starts_with(r, "-"@) {
                (true, EdgeStyle::Dashed, r.skip(1))
            } else {
                (false, EdgeStyle::Solid, r)
            }
        } else if starts_with(s, "=="@) {
            (true, EdgeStyle::Thick, s.skip(2))
        } else if starts_with(s, "--"@) {
            (true, EdgeStyle::Solid, s.skip(2))
        } else {
            (false, EdgeStyle::Solid, s)
        };
        if !ok {
            (None, false)
        } else {
            let arrow_kind = if kind_prefix {
                EdgeKind::Bidirectional
            } else {
                EdgeKind::Arrow
            };
            let inline = style == EdgeStyle::Solid && !starts_with(after, ">"@) && !starts_with(
                after,
                "-"@,
            );
            if inline && find(after, "-->"@) is Some {
                let end = find(after, "-->"@)->0;
                let label = trim(after.take(end));
                let tail = after.skip(end + 3);
                let (cl, p) = clean_edge_label(label);
                (
                    Some(
                        (
                            EdgeOpV {
                                style,
                                kind: arrow_kind,
                                label: if label.len() > 0 {
                                    Some(cl)
                                } else {
                                    None
                                },
                            },
                            tail,
                        ),
                    ),
                    label.len() > 0 && p,
                )
            } else {
                let (kind, after2) = if starts_with(after, ">"@) {
                    (arrow_kind, after.skip(1))
                } else if starts_with(after, "-"@) {
                    (EdgeKind::Open, after.skip(1))
                } else if starts_with(after, "="@) {
                    (EdgeKind::Open, after.skip(1))
                } else {
                    (EdgeKind::Arrow, after)
                };
                let ts = trim_start(after2);
                if starts_with(ts, "|"@) {
                    let rest = ts.skip(1);
                    match find(rest, "|"@) {
                        None => (None, false),
                        Some(end) => {
                            let (cl, p) = clean_edge_label(rest.take(end));
                            (Some((EdgeOpV { style, kind, label: Some(cl) }, rest.skip(end + 1))), p)
                        },
                    }
                } else {
                    (Some((EdgeOpV { style, kind, label: None }, after2)), false)
                }
            }
        }
    }
}

proof fn lemma_trim_start_len(s: Seq<char>)
    ensures
        trim_start(s).len() <= s.len(),
{
    crate::text::lemma_trim_bounds(s);
}

proof fn lemma_edge_op_shrinks(s0: Seq<char>)
    ensures
        spec_edge_op(s0).0 matches Some((op, tail)) ==> tail.len() + 2 <= s0.len(),
{
    reveal_strlit("<");
    reveal_strlit("~~~");
    reveal_strlit("-..-");
    reveal_strlit("-.");
    reveal_strlit("-");
    reveal_strlit("==");
    reveal_strlit("--");
    reveal_strlit(">");
    reveal_strlit("=");
    reveal_strlit("|");
    reveal_strlit("-->");
    let kind_prefix = starts_with(s0, "<"@);
    let s = if kind_prefix {
        s0.skip(1)
    } else {
        s0
    };
    let (ok, style, after) = if starts_with(s, "-..-"@) {
        (true, EdgeStyle::Dotted, s.skip(4))
    } else if starts_with(s, "-."@) {
        let r = s.skip(2);
        if starts_with(r, "-"@) {
            (true, EdgeStyle::Dashed, r.skip(1))
        } else {
            (false, EdgeStyle::Solid, r)
        }
    } else if starts_with(s, "=="@) {
        (true, EdgeStyle::Thick, s.skip(2))
    } else if starts_with(s, "--"@) {
        (true, EdgeStyle::Solid, s.skip(2))
    } else {
        (false, EdgeStyle::Solid, s)
    };
    lemma_find(after, "-->"@);
    let (kind, after2) = if starts_with(after, ">"@) {
        (EdgeKind::Arrow, after.skip(1))
    } else if starts_with(after, "-"@) {
        (EdgeKind::Open, after.skip(1))
    } else if starts_with(after, "="@) {
        (EdgeKind::Open, after.skip(1))
    } else {
        (EdgeKind::Arrow, after)
    };
    let ts = trim_start(after2);
    lemma_trim_start_len(after2);
    lemma_find(ts.skip(1), "|"@);
}

/// The line of an edge operator sets its style: after an optional `<`, an
/// operator beginning `==` is thick, `--` solid, `-.-` dashed, `-..-`
/// dotted and `~~~` invisible; one beginning with none of these lines is
/// not an operator. A line ending in `>` points at the target (both ends
/// with a leading `<`); `---` and `===` are open links.
pub proof fn law_edge_op_style(s0: Seq<char>)
    ensures
        ({
            let s = if s0.len() > 0 && s0[0] == '<' {
                s0.skip(1)
            } else {
                s0
            };
            &&& spec_edge_op(s0).0 matches Some((op, t)) ==> {
                &&& (s.len() >= 2 && s[0] == '=' && s[1] == '=') ==> op.style == EdgeStyle::Thick
                &&& (s.len() >= 2 && s[0] == '-' && s[1] == '-') ==> op.style == EdgeStyle::Solid
                &&& (s.len() >= 3 && s[0] == '-' && s[1] == '.' && s[2] == '-') ==> op.style
                    == EdgeStyle::Dashed
                &&& (s.len() >= 4 && s[0] == '-' && s[1] == '.' && s[2] == '.' && s[3] == '-')
                    ==> op.style == EdgeStyle::Dotted
                &&& (s.len() >= 3 && s[0] == '~' && s[1] == '~' && s[2] == '~') ==> op.style
                    == EdgeStyle::Invisible
                &&& (s.len() >= 3 && ((s[0] == '-' && s[1] == '-') || (s[0] == '=' && s[1] == '='))
                    && s[2] == '>') ==> op.kind == (if s0[0] == '<' {
                    EdgeKind::Bidirectional
                } else {
                    EdgeKind::Arrow
                })
                &&& (s.len() >= 4 && s[0] == '-' && s[1] == '.' && s[2] == '-' && s[3] == '>')
                    ==> op.kind == (if s0[0] == '<' {
                    EdgeKind::Bidirectional
                } else {
                    EdgeKind::Arrow
                })
                &&& (s.len() >= 3 && ((s[0] == '-' && s[1] == '-' && s[2] == '-') || (s[0] == '='
                    && s[1] == '=' && s[2] == '='))) ==> op.kind == EdgeKind::Open
            }
            &&& !(s.len() >= 2 && ((s[0] == '=' && s[1] == '=') || (s[0] == '-' && (s[1] == '-'
                || s[1] == '.')) || (s[0] == '~' && s[1] == '~'))) ==> spec_edge_op(s0).0 is None
        }),
{
    reveal_strlit("<");
    reveal_strlit("~~~");
    reveal_strlit("-..-");
    reveal_strlit("-.");
    reveal_strlit("-");
    reveal_strlit("==");
    reveal_strlit("--");
    reveal_strlit(">");
    reveal_strlit("=");
    reveal_strlit("|");
    reveal_strlit("-->");
    let kp = starts_with(s0, "<"@);
    assert(kp <==> (s0.len() > 0 && s0[0] == '<')) by {
        if s0.len() > 0 {
            assert(s0.take(1)[0] == s0[0]);
            if s0[0] == '<' {
                assert(s0.take(1) =~= "<"@);
            }
        }
    }
    let s = if kp {
        s0.skip(1)
    } else {
        s0
    };
    assert(starts_with(s, "=="@) <==> (s.len() >= 2 && s[0] == '=' && s[1] == '=')) by {
        if s.len() >= 2 {
            assert(s.take(2)[0] == s[0] && s.take(2)[1] == s[1]);
            if s[0] == '=' && s[1] == '=' {
                assert(s.take(2) =~= "=="@);
            }
        }
    }
    assert(starts_with(s, "--"@) <==> (s.len() >= 2 && s[0] == '-' && s[1] == '-')) by {
        if s.len() >= 2 {
            assert(s.take(2)[0] == s[0] && s.take(2)[1] == s[1]);
            if s[0] == '-' && s[1] == '-' {
                assert(s.take(2) =~= "--"@);
            }
        }
    }
    assert(starts_with(s, "-."@) <==> (s.len() >= 2 && s[0] == '-' && s[1] == '.')) by {
        if s.len() >= 2 {
            assert(s.take(2)[0] == s[0] && s.take(2)[1] == s[1]);
            if s[0] == '-' && s[1] == '.' {
                assert(s.take(2) =~= "-."@);
            }
        }
    }
    assert(starts_with(s, "~~~"@) <==> (s.len() >= 3 && s[0] == '~' && s[1] == '~' && s[2] == '~'))
        by {
        if s.len() >= 3 {
            assert(s.take(3)[0] == s[0] && s.take(3)[1] == s[1] && s.take(3)[2] == s[2]);
            if s[0] == '~' && s[1] == '~' && s[2] == '~' {
                assert(s.take(3) =~= "~~~"@);
            }
        }
    }
    assert(starts_with(s, "-..-"@) <==> (s.len() >= 4 && s[0] == '-' && s[1] == '.' && s[2] == '.'
        && s[3] == '-')) by {
        if s.len() >= 4 {
            assert(s.take(4)[0] == s[0] && s.take(4)[1] == s[1] && s.take(4)[2] == s[2] && s.take(
                4,
            )[3] == s[3]);
            if s[0] == '-' && s[1] == '.' && s[2] == '.' && s[3] == '-' {
                assert(s.take(4) =~= "-..-"@);
            }
        }
    }
    if s.len() >= 3 && s[0] == '-' && s[1] == '.' {
        let r = s.skip(2);
        assert(starts_with(r, "-"@) <==> s[2] == '-') by {
            assert(r.take(1)[0] == r[0]);
            if s[2] == '-' {
                assert(r.take(1) =~= "-"@);
            }
        }
        if s.len() >= 4 && s[2] == '-' {
            let a = s.skip(3);
            assert(r.skip(1) =~= a);
            assert(a.take(1)[0] == a[0]);
            if s[3] == '>' {
                assert(a.take(1) =~= ">"@);
            }
        }
    }
    if s.len() >= 3 {
        let a = s.skip(2);
        assert(a.take(1)[0] == a[0] && a[0] == s[2]);
        if s[2] == '>' {
            assert(a.take(1) =~= ">"@);
        }
        if s[2] == '-' {
            assert(a.take(1) =~= "-"@);
        }
        if s[2] == '=' {
            assert(a.take(1) =~= "="@);
        }
    }
}

pub fn edge_op_of(s0: &[char]) -> (r: (Option<(EdgeOp, Vec<char>)>, bool))
    ensures
        spec_edge_op(s0@) == (
            match r.0 {
                Some((op, tail)) => Some((op@, tail@)),
                None => None,
            },
            r.1,
        ),
{
    proof {
        reveal_strlit("<");
        reveal_strlit("~~~");
        reveal_strlit("-..-");
        reveal_strlit("-.");
        reveal_strlit("-");
        reveal_strlit("==");
        reveal_strlit("--");
        reveal_strlit(">");
        reveal_strlit("=");
        reveal_strlit("|");
        reveal_strlit("-->");
    }
    let kind_prefix = starts_with_of(s0, &chars_of("<"));
    let s = if kind_prefix {
        slice_of(s0, 1, s0.len())
    } else {
        slice_of(s0, 0, s0.len())
    };
    assert(s0@.subrange(0, s0@.len() as int) == s0@);
    if starts_with_of(&s, &chars_of("~~~")) {
        let tail = slice_of(&s, 3, s.len());
        return (
            Some((EdgeOp { style: EdgeStyle::Invisible, kind: EdgeKind::Open, label: None }, tail)),
            false,
        );
    }
    let (style, after) = if starts_with_of(&s, &chars_of("-..-")) {
        (EdgeStyle::Dotted, slice_of(&s, 4, s.len()))
    } else if starts_with_of(&s, &chars_of("-.")) {
        let r = slice_of(&s, 2, s.len());
        if starts_with_of(&r, &chars_of("-")) {
            (EdgeStyle::Dashed, slice_of(&r, 1, r.len()))
        } else {
            return (None, false);
        }
    } else if starts_with_of(&s, &chars_of("==")) {
        (EdgeStyle::Thick, slice_of(&s, 2, s.len()))
    } else if starts_with_of(&s, &chars_of("--")) {
        (EdgeStyle::Solid, slice_of(&s, 2, s.len()))
    } else {
        return (None, false);
    };
    let arrow_kind = if kind_prefix {
        EdgeKind::Bidirectional
    } else {
        EdgeKind::Arrow
    };
    if style == EdgeStyle::Solid && !starts_with_of(&after, &chars_of(">")) && !starts_with_of(
        &after,
        &chars_of("-"),
    ) {
        proof {
            lemma_find(after@, "-->"@);
        }
        match find_of(&after, &chars_of("-->")) {
            Some(end) => {
                let head = slice_of(&after, 0, end);
                let label = trim_of(&head);
                let tail = slice_of(&after, end + 3, after.len());
                if label.len() > 0 {
                    let (cl, p) = clean_edge_label_of(&label);
                    return (Some((EdgeOp { style, kind: arrow_kind, label: Some(cl) }, tail)), p);
                }
                return (Some((EdgeOp { style, kind: arrow_kind, label: None }, tail)), false);
            },
            None => {},
        }
    }
    let (kind, after2) = if starts_with_of(&after, &chars_of(">")) {
        (arrow_kind, slice_of(&after, 1, after.len()))
    } else if starts_with_of(&after, &chars_of("-")) {
        (EdgeKind::Open, slice_of(&after, 1, after.len()))
    } else if starts_with_of(&after, &chars_of("=")) {
        (EdgeKind::Open, slice_of(&after, 1, after.len()))
    } else {
        (EdgeKind::Arrow, slice_of(&after, 0, after.len()))
    };
    assert(after@.subrange(0, after@.len() as int) == after@);
    let ts = trim_start_of(&after2);
    if starts_with_of(&ts, &chars_of("|")) {
        let rest = slice_of(&ts, 1, ts.len());
        proof {
            lemma_find(rest@, "|"@);
        }
        match find_of(&rest, &chars_of("|")) {
            None => (None, false),
            Some(end) => {
                let inner = slice_of(&rest, 0, end);
                let (cl, p) = clean_edge_label_of(&inner);
                let tail = slice_of(&rest, end + 1, rest.len());
                (Some((EdgeOp { style, kind, label: Some(cl) }, tail)), p)
            },
        }
    } else {
        (Some((EdgeOp { style, kind, label: None }, after2)), false)
    }
}

/// `s` wrapped in `open`/`close`: the inner text, trimmed and unquoted.
pub open spec fn bracket_inner(s: Seq<char>, open: Seq<char>, close: Seq<char>) -> Option<
    Seq<char>,
> {
    match strip_prefix(s, open) {
        Some(r) => match strip_suffix(r, close) {
            Some(inner) => Some(trim_matches(trim(inner), '"')),
            None => None,
        },
        None => None,
    }
}

/// Bracket syntax to shape, plus the inner label (longest delimiters first).
pub open spec fn spec_parse_bracket(s: Seq<char>) -> Option<(NodeShape, Seq<char>)> {
    if bracket_inner(s, "(["@, "])"@) is Some {
        Some((NodeShape::Stadium, bracket_inner(s, "(["@, "])"@)->0))
    } else if bracket_inner(s, "[("@, ")]"@) is Some {
        Some((NodeShape::Cylinder, bracket_inner(s, "[("@, ")]"@)->0))
    } else if bracket_inner(s, "(("@, "))"@) is Some {
        Some((NodeShape::Circle, bracket_inner(s, "(("@, "))"@)->0))
    } else if bracket_inner(s, "{{"@, "}}"@) is Some {
        Some((NodeShape::Hexagon, bracket_inner(s, "{{"@, "}}"@)->0))
    } else if bracket_inner(s, "["@, "]"@) is Some {
        Some((NodeShape::Rect, bracket_inner(s, "["@, "]"@)->0))
    } else if bracket_inner(s, "("@, ")"@) is Some {
        Some((NodeShape::RoundedRect, bracket_inner(s, "("@, ")"@)->0))
    } else if bracket_inner(s, "{"@, "}"@) is Some {
        Some((NodeShape::Diamond, bracket_inner(s, "{"@, "}"@)->0))
    } else {
        None
    }
}

fn bracket_inner_of(s: &[char], open: &[char], close: &[char]) -> (r: Option<Vec<char>>)
    ensures
        bracket_inner(s@, open@, close@) == (match r {
            Some(v) => Some(v@),
            None => None,
        }),
{
    match strip_prefix_of(s, open) {
        Some(r) => match strip_suffix_of(&r, close) {
            Some(inner) => {
                let t = trim_of(&inner);
                Some(trim_matches_of(&t, '"'))
            },
            None => None,
        },
        None => None,
    }
}

pub fn parse_bracket(s: &[char]) -> (r: Option<(NodeShape, Vec<char>)>)
    ensures
        spec_parse_bracket(s@) == (match r {
            Some((sh, v)) => Some((sh, v@)),
            None => None,
        }),
{
    if let Some(l) = bracket_inner_of(s, &chars_of("(["), &chars_of("])")) {
        return Some((NodeShape::Stadium, l));
    }
    if let Some(l) = bracket_inner_of(s, &chars_of("[("), &chars_of(")]")) {
        return Some((NodeShape::Cylinder, l));
    }
    if let Some(l) = bracket_inner_of(s, &chars_of("(("), &chars_of("))")) {
        return Some((NodeShape::Circle, l));
    }
    if let Some(l) = bracket_inner_of(s, &chars_of("{{"), &chars_of("}}")) {
        return Some((NodeShape::Hexagon, l));
    }
    if let Some(l) = bracket_inner_of(s, &chars_of("["), &chars_of("]")) {
        return Some((NodeShape::Rect, l));
    }
    if let Some(l) = bracket_inner_of(s, &chars_of("("), &chars_of(")")) {
        return Some((NodeShape::RoundedRect, l));
    }
    if let Some(l) = bracket_inner_of(s, &chars_of("{"), &chars_of("}")) {
        return Some((NodeShape::Diamond, l));
    }
    None
}


/// A node declaration like `db[("Postgres")]:::database`.
pub struct NodeDecl {
    pub name: Vec<char>,
    pub label: Option<Vec<char>>,
    pub shape: Option<NodeShape>,
    pub role: Option<ComponentRole>,
    pub icon: Option<Vec<char>>,
}

pub struct DeclV {
    pub name: Seq<char>,
    pub label: Option<Seq<char>>,
    pub shape: Option<NodeShape>,
    pub role: Option<ComponentRole>,
    pub icon: Option<Seq<char>>,
}

pub open spec fn ov(o: Option<Vec<char>>) -> Option<Seq<char>> {
    match o {
        Some(v) => Some(v@),
        None => None,
    }
}

impl View for NodeDecl {
    type V = DeclV;

    open spec fn view(&self) -> DeclV {
        DeclV {
            name: self.name@,
            label: ov(self.label),
            shape: self.shape,
            role: self.role,
            icon: ov(self.icon),
        }
    }
}

/// Parse `name<bracket label>:::role`; the second component is whether the
/// label is fatal.
pub open spec fn spec_node_decl(text0: Seq<char>) -> (Option<DeclV>, bool) {
    let text = trim(text0);
    if text.len() == 0 {
        (None, false)
    } else {
        let (body, role) = match split_once(text, ":::"@) {
            Some((b, r)) => (trim(b), Some(spec_parse_role(trim(r)))),
            None => (text, None),
        };
        match find_any(body, seq!['[', '(', '{']) {
            None => {
                let name = trim(body);
                if name.len() == 0 || !spec_is_ident(name) {
                    (None, false)
                } else {
                    (Some(DeclV { name, label: None, shape: None, role, icon: None }), false)
                }
            },
            Some(idx) => {
                let name = trim(body.take(idx));
                if name.len() == 0 || !spec_is_ident(name) {
                    (None, false)
                } else {
                    match spec_parse_bracket(trim(body.skip(idx))) {
                        None => (None, false),
                        Some((shape, raw)) => {
                            let (l1, icon) = extract_icon(raw);
                            let (l2, icon_html, p) = sanitize_html_label(l1);
                            (
                                Some(
                                    DeclV {
                                        name,
                                        label: Some(unescape_newlines(l2)),
                                        shape: Some(shape),
                                        role,
                                        icon: if icon is Some {
                                            icon
                                        } else {
                                            icon_html
                                        },
                                    },
                                ),
                                p,
                            )
                        },
                    }
                }
            },
        }
    }
}

pub fn parse_node_decl(text0: &[char]) -> (r: (Option<NodeDecl>, bool))
    ensures
        spec_node_decl(text0@) == (
            match r.0 {
                Some(d) => Some(d@),
                None => None,
            },
            r.1,
        ),
{
    let text = trim_of(text0);
    if text.len() == 0 {
        return (None, false);
    }
    let (body, role) = match split_once_of(&text, &chars_of(":::")) {
        Some((b, r)) => {
            let rt = trim_of(&r);
            (trim_of(&b), Some(parse_role(&rt)))
        },
        None => (text, None),
    };
    let set = vec!['[', '(', '{'];
    assert(set@ == seq!['[', '(', '{']);
    match find_any_of(&body, &set) {
        None => {
            let name = trim_of(&body);
            if name.len() == 0 || !is_ident(&name) {
                return (None, false);
            }
            (Some(NodeDecl { name, label: None, shape: None, role, icon: None }), false)
        },
        Some(idx) => {
            let head = slice_of(&body, 0, idx);
            let name = trim_of(&head);
            if name.len() == 0 || !is_ident(&name) {
                return (None, false);
            }
            let tail = slice_of(&body, idx, body.len());
            let bracket = trim_of(&tail);
            match parse_bracket(&bracket) {
                None => (None, false),
                Some((shape, raw)) => {
                    let (l1, icon) = extract_icon_of(&raw);
                    let (l2, icon_html, p) = sanitize_html_label_of(&l1);
                    let label = unescape_newlines_of(&l2);
                    let icon = if icon.is_some() {
                        icon
                    } else {
                        icon_html
                    };
                    (Some(NodeDecl { name, label: Some(label), shape: Some(shape), role, icon }), p)
                },
            }
        },
    }
}

/// Heuristic: CSS-ish debris of a mangled `classDef`/`style` line (two or
/// more style tokens).
pub open spec fn spec_is_style_debris(line: Seq<char>) -> bool {
    let l = lower(line);
    count_matches(l, "stroke"@) + count_matches(l, "fill:"@) + count_matches(l, "px;"@)
        + count_matches(l, "px,"@) + count_matches(l, "px "@) + count_matches(l, "color:"@)
        + count_matches(l, "dasharray"@) + count_matches(l, "classdef"@) + count_matches(l, ":1."@)
        + count_matches(l, ":2."@) >= 2
}

pub fn is_style_debris(line: &[char]) -> (r: bool)
    ensures
        r == spec_is_style_debris(line@),
{
    proof {
        reveal_strlit("stroke");
        reveal_strlit("fill:");
        reveal_strlit("px;");
        reveal_strlit("px,");
        reveal_strlit("px ");
        reveal_strlit("color:");
        reveal_strlit("dasharray");
        reveal_strlit("classdef");
        reveal_strlit(":1.");
        reveal_strlit(":2.");
    }
    let l = lower_of(line);
    let a = count_matches_of(&l, &chars_of("stroke")) as u128;
    let b = count_matches_of(&l, &chars_of("fill:")) as u128;
    let c = count_matches_of(&l, &chars_of("px;")) as u128;
    let d = count_matches_of(&l, &chars_of("px,")) as u128;
    let e = count_matches_of(&l, &chars_of("px ")) as u128;
    let f = count_matches_of(&l, &chars_of("color:")) as u128;
    let g = count_matches_of(&l, &chars_of("dasharray")) as u128;
    let h = count_matches_of(&l, &chars_of("classdef")) as u128;
    let i = count_matches_of(&l, &chars_of(":1.")) as u128;
    let j = count_matches_of(&l, &chars_of(":2.")) as u128;
    a + b + c + d + e + f + g + h + i + j >= 2
}


/* ---------------- parser state machine ---------------- */

/// Parser state: the graph built so far, the open-subgraph stack, and
/// whether a fatal line was met.
pub struct PState {
    pub graph: GraphV,
    pub stack: Seq<SubgraphId>,
    pub fatal: bool,
}

/// Every open subgraph exists.
pub open spec fn wf(st: PState) -> bool {
    forall|k: int| 0 <= k < st.stack.len() ==> (#[trigger] st.stack[k]).0 < st.graph.subgraphs.len()
}

/// Record node `id` as a member of the innermost open subgraph.
pub open spec fn sp_claim(st: PState, id: NodeId) -> PState {
    if st.stack.len() > 0 {
        let i = st.stack.last().0 as int;
        if 0 <= i < st.graph.subgraphs.len() {
            let s = st.graph.subgraphs[i];
            if s.nodes.contains(id) {
                st
            } else {
                PState {
                    graph: GraphV {
                        subgraphs: st.graph.subgraphs.update(
                            i,
                            SubgraphV { nodes: s.nodes.push(id), ..s },
                        ),
                        ..st.graph
                    },
                    ..st
                }
            }
        } else {
            st
        }
    } else {
        st
    }
}

/// Get-or-create a node from a declaration; an existing node is enriched
/// with the label/shape/role/icon the declaration gives.
pub open spec fn sp_intern(st0: PState, ln: int, text: Seq<char>) -> (PState, Result<NodeId, ErrV>) {
    let (d, p) = spec_node_decl(text);
    let st = PState { fatal: st0.fatal || p, ..st0 };
    match d {
        None => (st, Err(ErrV { line: ln, message: "cannot parse node '"@ + text + "'"@ })),
        Some(decl) => match index_by_name(st.graph.nodes, decl.name, 0) {
            Some(i) => {
                let id = NodeId(i as u32);
                let k = id.0 as int;
                let n = st.graph.nodes[k];
                let n2 = NodeV {
                    label: match decl.label {
                        Some(l) => l,
                        None => n.label,
                    },
                    shape: match decl.shape {
                        Some(x) => x,
                        None => n.shape,
                    },
                    role: match decl.role {
                        Some(x) => x,
                        None => n.role,
                    },
                    icon: if decl.icon is Some {
                        decl.icon
                    } else {
                        n.icon
                    },
                    ..n
                };
                let g = GraphV { nodes: st.graph.nodes.update(k, n2), ..st.graph };
                (sp_claim(PState { graph: g, ..st }, id), Ok(id))
            },
            None => {
                let shape = match decl.shape {
                    Some(x) => x,
                    None => NodeShape::Rect,
                };
                let node = NodeV {
                    name: decl.name,
                    label: match decl.label {
                        Some(l) => l,
                        None => decl.name,
                    },
                    shape,
                    role: match decl.role {
                        Some(x) => x,
                        None => spec_infer_role(shape),
                    },
                    icon: decl.icon,
                    parent: if st.stack.len() > 0 {
                        Some(st.stack.last())
                    } else {
                        None
                    },
                    sections: seq![],
                };
                let id = NodeId(st.graph.nodes.len() as u32);
                let g = GraphV { nodes: st.graph.nodes.push(node), ..st.graph };
                (sp_claim(PState { graph: g, ..st }, id), Ok(id))
            },
        },
    }
}

/// Intern the first `k` members of an `&` group (each trimmed), stopping at
/// the first error.
pub open spec fn sp_intern_all(st: PState, ln: int, parts: Seq<Seq<char>>, k: int) -> (
    PState,
    Seq<NodeId>,
    Option<ErrV>,
)
    decreases k,
{
    if k <= 0 || k > parts.len() {
        (st, seq![], None)
    } else {
        let (s1, ids, e) = sp_intern_all(st, ln, parts, k - 1);
        if e is Some {
            (s1, ids, e)
        } else {
            let (s2, r) = sp_intern(s1, ln, trim(parts[k - 1]));
            match r {
                Ok(id) => (s2, ids.push(id), None),
                Err(x) => (s2, ids, Some(x)),
            }
        }
    }
}

pub open spec fn flow_edge(src: NodeId, dst: NodeId, op: EdgeOpV) -> EdgeV {
    EdgeV {
        source: src,
        target: dst,
        label: take_animate(op.label).0,
        style: op.style,
        kind: op.kind,
        end_labels: None,
        animated: take_animate(op.label).1,
    }
}

/// An edge label with its `{animate}` directive taken out: the text before
/// and after it joined by one space (no label when nothing is left), and
/// whether the directive was there.
pub open spec fn take_animate(label: Option<Seq<char>>) -> (Option<Seq<char>>, bool) {
    match label {
        None => (None, false),
        Some(l) => match find(l, "{animate}"@) {
            None => (Some(l), false),
            Some(i) => {
                let text = trim_end(l.take(i));
                let after = trim_start(l.skip(i + 9));
                let joined = if text.len() > 0 && after.len() > 0 {
                    text.push(' ') + after
                } else {
                    text + after
                };
                let t = trim(joined);
                (
                    if t.len() > 0 {
                        Some(t)
                    } else {
                        None
                    },
                    true,
                )
            },
        },
    }
}

fn take_animate_of(label: &Option<Vec<char>>) -> (r: (Option<Vec<char>>, bool))
    ensures
        take_animate(
            match label {
                Some(v) => Some(v@),
                None => None,
            },
        ) == (
            match r.0 {
                Some(v) => Some(v@),
                None => None,
            },
            r.1,
        ),
{
    proof {
        reveal_strlit("{animate}");
    }
    let l = match label {
        Some(v) => v,
        None => return (None, false),
    };
    proof {
        lemma_find(l@, "{animate}"@);
    }
    let i = match find_of(l, &chars_of("{animate}")) {
        Some(i) => i,
        None => return (Some(slice_of(l, 0, l.len())), false),
    };
    let n = l.len();
    let before = slice_of(l, 0, i);
    let text = trim_end_of(&before);
    let after_raw = slice_of(l, i + 9, n);
    let after = trim_start_of(&after_raw);
    let joined = if text.len() > 0 && after.len() > 0 {
        let mut t = text;
        t.push(' ');
        concat(&t, &after)
    } else {
        concat(&text, &after)
    };
    let t = trim_of(&joined);
    if t.len() > 0 {
        (Some(t), true)
    } else {
        (None, true)
    }
}

/// Edges from `src` to each of `dsts`, in order.
pub open spec fn edge_row(src: NodeId, dsts: Seq<NodeId>, op: EdgeOpV) -> Seq<EdgeV> {
    dsts.map_values(|d: NodeId| flow_edge(src, d, op))
}

/// The cross product `srcs x dsts`, sources outermost.
pub open spec fn edge_cross(srcs: Seq<NodeId>, dsts: Seq<NodeId>, op: EdgeOpV) -> Seq<EdgeV>
    decreases srcs.len(),
{
    if srcs.len() == 0 {
        seq![]
    } else {
        edge_cross(srcs.drop_last(), dsts, op) + edge_row(srcs.last(), dsts, op)
    }
}

/// A chain `a --> b -.-> c` (with `&` groups) starting at `rest`; `prev`
/// is the group and operator awaiting its targets.
pub open spec fn sp_chain(
    st: PState,
    ln: int,
    rest: Seq<char>,
    prev: Option<(Seq<NodeId>, EdgeOpV)>,
) -> (PState, Option<ErrV>)
    decreases rest.len(),
{
    let (gt, after) = split_node_segment(rest);
    let parts = split_amp(gt);
    let (st1, group, err) = sp_intern_all(st, ln, parts, parts.len() as int);
    if err is Some {
        (st1, err)
    } else {
        let st2 = match prev {
            Some((srcs, op)) => PState {
                graph: GraphV {
                    edges: st1.graph.edges + edge_cross(srcs, group, op),
                    ..st1.graph
                },
                ..st1
            },
            None => st1,
        };
        let a = trim(after);
        if a.len() == 0 {
            (st2, None)
        } else {
            let (eo, p) = spec_edge_op(a);
            let st3 = PState { fatal: st2.fatal || p, ..st2 };
            match eo {
                None => (
                    st3,
                    Some(ErrV { line: ln, message: "expected edge operator near '"@ + a + "'"@ }),
                ),
                Some((op, tail)) => if tail.len() < rest.len() {
                    sp_chain(st3, ln, tail, Some((group, op)))
                } else {
                    (st3, None)
                },
            }
        }
    }
}

/// Open a subgraph: `subgraph name` or `subgraph name["Label"]`.
pub open spec fn sp_open_subgraph(st: PState, rest: Seq<char>) -> PState {
    let (name, label) = match find(rest, "["@) {
        Some(idx) => (
            trim(rest.take(idx)),
            trim_matches(crate::text::trim_end_matches(rest.skip(idx + 1), ']'), '"'),
        ),
        None => (trim_matches(trim(rest), '"'), trim_matches(trim(rest), '"')),
    };
    let parent = if st.stack.len() > 0 {
        Some(st.stack.last())
    } else {
        None
    };
    let id = SubgraphId(st.graph.subgraphs.len() as u32);
    let sg = SubgraphV { name, label, nodes: seq![], parent };
    PState {
        graph: GraphV { subgraphs: st.graph.subgraphs.push(sg), ..st.graph },
        stack: st.stack.push(id),
        ..st
    }
}

/// One flowchart statement.
#[verifier::opaque]
pub open spec fn sp_stmt(st: PState, ln: int, line: Seq<char>) -> (PState, Option<ErrV>) {
    if strip_prefix(line, "subgraph"@) is Some {
        (sp_open_subgraph(st, trim(strip_prefix(line, "subgraph"@)->0)), None)
    } else if line == "end"@ {
        if st.stack.len() == 0 {
            (st, Some(ErrV { line: ln, message: "'end' without matching 'subgraph'"@ }))
        } else {
            (PState { stack: st.stack.drop_last(), ..st }, None)
        }
    } else if starts_with(line, "classDef"@) || starts_with(line, "class "@) || starts_with(
        line,
        "style"@,
    ) {
        (st, None)
    } else if starts_with(line, "direction "@) {
        (st, None)
    } else if starts_with(line, "linkStyle"@) {
        (st, None)
    } else if spec_is_style_debris(line) {
        (st, None)
    } else {
        sp_chain(st, ln, line, None)
    }
}

/// Lenient run over the first `k` statement lines: every error is kept.
pub open spec fn sp_fold(st0: PState, ls: Seq<(int, Seq<char>)>, k: int) -> (PState, Seq<ErrV>)
    decreases k,
{
    if k <= 0 || k > ls.len() {
        (st0, seq![])
    } else {
        let (s, es) = sp_fold(st0, ls, k - 1);
        let (s2, e) = sp_stmt(s, ls[k - 1].0, ls[k - 1].1);
        (
            s2,
            match e {
                Some(x) => es.push(x),
                None => es,
            },
        )
    }
}

/// Strict run over the first `k` statement lines: stops at the first error.
pub open spec fn sp_fold_strict(st0: PState, ls: Seq<(int, Seq<char>)>, k: int) -> (
    PState,
    Option<ErrV>,
)
    decreases k,
{
    if k <= 0 || k > ls.len() {
        (st0, None)
    } else {
        let (s, e) = sp_fold_strict(st0, ls, k - 1);
        if e is Some {
            (s, e)
        } else {
            sp_stmt(s, ls[k - 1].0, ls[k - 1].1)
        }
    }
}

pub open spec fn empty_graph(d: Direction) -> GraphV {
    GraphV { direction: d, nodes: seq![], edges: seq![], subgraphs: seq![] }
}

/// Initial state from the optional `flowchart`/`graph` header, and the
/// statement lines after it.
pub open spec fn flow_start(ls: Seq<(int, Seq<char>)>) -> (PState, Seq<(int, Seq<char>)>) {
    let init = |d: Direction| PState { graph: empty_graph(d), stack: seq![], fatal: false };
    if ls.len() > 0 {
        let first = ls[0].1;
        let hdr = match strip_prefix(first, "flowchart"@) {
            Some(r) => Some(r),
            None => strip_prefix(first, "graph"@),
        };
        match hdr {
            Some(r) => (init(spec_parse_direction(trim(r))), ls.skip(1)),
            None => (init(Direction::TopBottom), ls),
        }
    } else {
        (init(Direction::TopBottom), ls)
    }
}

/// Lenient flowchart parse of numbered lines: graph, warnings, and whether
/// the input is fatal.
pub open spec fn flowchart_lenient(ls: Seq<(int, Seq<char>)>) -> (GraphV, Seq<ErrV>, bool) {
    let (st0, body) = flow_start(ls);
    let (st, es) = sp_fold(st0, body, body.len() as int);
    (st.graph, es, st.fatal)
}

/// Strict flowchart parse of numbered lines: the graph or the first error,
/// and whether a fatal line comes before it stops.
pub open spec fn flowchart_strict(ls: Seq<(int, Seq<char>)>) -> (Result<GraphV, ErrV>, bool) {
    let (st0, body) = flow_start(ls);
    let (st, e) = sp_fold_strict(st0, body, body.len() as int);
    (
        match e {
            Some(x) => Err(x),
            None => Ok(st.graph),
        },
        st.fatal,
    )
}


/* ---------------- graph well-formedness ---------------- */

/// A flowchart graph as the parser builds it: node names are distinct,
/// edges join existing nodes, each subgraph lists existing nodes once each
/// and nests in an earlier subgraph, and a node inside a subgraph is listed
/// by it.
pub open spec fn graph_wf(g: GraphV) -> bool {
    graph_wf_core(g) && parents_listed(g)
}

/// Every node inside a subgraph is listed by it.
pub open spec fn parents_listed(g: GraphV) -> bool {
    forall|i: int|
        0 <= i < g.nodes.len() ==> ((#[trigger] g.nodes[i]).parent matches Some(s) ==> s.0
            < g.subgraphs.len() && g.subgraphs[s.0 as int].nodes.contains(NodeId(i as u32)))
}

/// Distinct names, edges between existing nodes, and subgraphs that list
/// existing nodes once each and nest in earlier subgraphs.
pub open spec fn graph_wf_core(g: GraphV) -> bool {
    &&& forall|i: int, j: int|
        #![trigger g.nodes[i], g.nodes[j]]
        0 <= i < j < g.nodes.len() ==> g.nodes[i].name != g.nodes[j].name
    &&& forall|k: int|
        0 <= k < g.edges.len() ==> (#[trigger] g.edges[k]).source.0 < g.nodes.len()
            && g.edges[k].target.0 < g.nodes.len()
    &&& forall|s: int| 0 <= s < g.subgraphs.len() ==> (#[trigger] g.subgraphs[s]).nodes.no_duplicates()
    &&& forall|s: int, k: int|
        0 <= s < g.subgraphs.len() && 0 <= k < g.subgraphs[s].nodes.len() ==> (
        #[trigger] g.subgraphs[s].nodes[k]).0 < g.nodes.len()
    &&& forall|s: int|
        0 <= s < g.subgraphs.len() ==> ((#[trigger] g.subgraphs[s]).parent matches Some(p) ==> p.0 < s)
}

/// Node and subgraph counts that 32-bit ids can number.
pub open spec fn ids_fit(g: GraphV) -> bool {
    g.nodes.len() <= u32::MAX && g.subgraphs.len() <= u32::MAX
}

spec fn grows(a: GraphV, b: GraphV) -> bool {
    a.nodes.len() <= b.nodes.len() && a.subgraphs.len() <= b.subgraphs.len()
}

spec fn good(st: PState) -> bool {
    wf(st) && graph_wf(st.graph)
}

proof fn lemma_claim_wf(st: PState, id: NodeId)
    ensures
        sp_claim(st, id).graph.nodes == st.graph.nodes,
        sp_claim(st, id).graph.edges == st.graph.edges,
        sp_claim(st, id).graph.subgraphs.len() == st.graph.subgraphs.len(),
        sp_claim(st, id).stack == st.stack,
        forall|s: int, k: int|
            0 <= s < st.graph.subgraphs.len() && 0 <= k < st.graph.subgraphs[s].nodes.len() ==> sp_claim(
                st,
                id,
            ).graph.subgraphs[s].nodes.contains(#[trigger] st.graph.subgraphs[s].nodes[k]),
        st.stack.len() > 0 && st.stack.last().0 < st.graph.subgraphs.len() ==> sp_claim(
            st,
            id,
        ).graph.subgraphs[st.stack.last().0 as int].nodes.contains(id),
        wf(st) && graph_wf_core(st.graph) && id.0 < st.graph.nodes.len() ==> wf(sp_claim(st, id))
            && graph_wf_core(sp_claim(st, id).graph),
{
    let st2 = sp_claim(st, id);
    if st.stack.len() > 0 {
        let i = st.stack.last().0 as int;
        if 0 <= i < st.graph.subgraphs.len() {
            let s = st.graph.subgraphs[i];
            if !s.nodes.contains(id) {
                let ns = s.nodes.push(id);
                assert(ns[s.nodes.len() as int] == id);
                assert forall|t: int, k: int|
                    0 <= t < st.graph.subgraphs.len() && 0 <= k < st.graph.subgraphs[t].nodes.len() implies st2.graph.subgraphs[t].nodes.contains(
                    #[trigger] st.graph.subgraphs[t].nodes[k],
                ) by {
                    if t == i {
                        assert(ns[k] == s.nodes[k]);
                    } else {
                        assert(st2.graph.subgraphs[t] == st.graph.subgraphs[t]);
                    }
                }
                if wf(st) && graph_wf_core(st.graph) && id.0 < st.graph.nodes.len() {
                    let g = st.graph;
                    let g2 = st2.graph;
                    assert forall|t: int| 0 <= t < g2.subgraphs.len() implies (#[trigger] g2.subgraphs[t]).nodes.no_duplicates() by {
                        if t == i {
                            assert(g.subgraphs[i].nodes.no_duplicates());
                            assert forall|a: int, b: int|
                                0 <= a < ns.len() && 0 <= b < ns.len() && a != b implies ns[a] != ns[b] by {
                                if a == s.nodes.len() {
                                    assert(ns[b] == s.nodes[b]);
                                } else if b == s.nodes.len() {
                                    assert(ns[a] == s.nodes[a]);
                                } else {
                                    assert(ns[a] == s.nodes[a]);
                                    assert(ns[b] == s.nodes[b]);
                                }
                            }
                        } else {
                            assert(g2.subgraphs[t] == g.subgraphs[t]);
                        }
                    }
                    assert forall|t: int, k: int|
                        0 <= t < g2.subgraphs.len() && 0 <= k < g2.subgraphs[t].nodes.len() implies (
                        #[trigger] g2.subgraphs[t].nodes[k]).0 < g2.nodes.len() by {
                        if t == i {
                            if k < s.nodes.len() {
                                assert(ns[k] == s.nodes[k]);
                                assert(g.subgraphs[i].nodes[k].0 < g.nodes.len());
                            }
                        } else {
                            assert(g2.subgraphs[t] == g.subgraphs[t]);
                            assert(g.subgraphs[t].nodes[k].0 < g.nodes.len());
                        }
                    }
                    assert forall|t: int| 0 <= t < g2.subgraphs.len() implies ((#[trigger] g2.subgraphs[t]).parent matches Some(p) ==> p.0 < t) by {
                        assert(g.subgraphs[t].parent == g2.subgraphs[t].parent);
                    }
                }
            }
        }
    }
}

/// Lists that only grow keep every node's listing.
proof fn lemma_listed_grows(g: GraphV, g2: GraphV)
    requires
        parents_listed(g),
        g2.nodes.len() >= g.nodes.len(),
        g2.subgraphs.len() >= g.subgraphs.len(),
        forall|i: int| 0 <= i < g.nodes.len() ==> (#[trigger] g2.nodes[i]).parent == g.nodes[i].parent,
        forall|s: int, k: int|
            0 <= s < g.subgraphs.len() && 0 <= k < g.subgraphs[s].nodes.len() ==> g2.subgraphs[s].nodes.contains(
                #[trigger] g.subgraphs[s].nodes[k],
            ),
    ensures
        forall|i: int|
            0 <= i < g.nodes.len() ==> ((#[trigger] g2.nodes[i]).parent matches Some(s) ==> s.0
                < g2.subgraphs.len() && g2.subgraphs[s.0 as int].nodes.contains(NodeId(i as u32))),
{
    assert forall|i: int| 0 <= i < g.nodes.len() implies ((#[trigger] g2.nodes[i]).parent matches Some(s) ==> s.0
        < g2.subgraphs.len() && g2.subgraphs[s.0 as int].nodes.contains(NodeId(i as u32))) by {
        assert(g2.nodes[i].parent == g.nodes[i].parent);
        if let Some(sg) = g.nodes[i].parent {
            let u = sg.0 as int;
            assert(g.subgraphs[u].nodes.contains(NodeId(i as u32)));
            let k = choose|k: int| 0 <= k < g.subgraphs[u].nodes.len() && g.subgraphs[u].nodes[k] == NodeId(i as u32);
            assert(g2.subgraphs[u].nodes.contains(g.subgraphs[u].nodes[k]));
        }
    }
}

proof fn lemma_intern_wf(st: PState, ln: int, text: Seq<char>)
    ensures
        grows(st.graph, sp_intern(st, ln, text).0.graph),
        sp_intern(st, ln, text).0.graph.edges == st.graph.edges,
        sp_intern(st, ln, text).0.stack == st.stack,
        good(st) && ids_fit(sp_intern(st, ln, text).0.graph) ==> good(sp_intern(st, ln, text).0) && (
        sp_intern(st, ln, text).1 matches Ok(id) ==> id.0 < sp_intern(st, ln, text).0.graph.nodes.len()),
{
    let (d, p) = spec_node_decl(text);
    let st1 = PState { fatal: st.fatal || p, ..st };
    let (st2, r) = sp_intern(st, ln, text);
    match d {
        None => {},
        Some(decl) => {
            lemma_index_by_name(st1.graph.nodes, decl.name, 0);
            match index_by_name(st1.graph.nodes, decl.name, 0) {
                Some(i) => {
                    let id = NodeId(i as u32);
                    let k = id.0 as int;
                    let n = st1.graph.nodes[k];
                    let g = GraphV { nodes: st1.graph.nodes.update(k, st2.graph.nodes[k]), ..st1.graph };
                    let mid = PState { graph: g, ..st1 };
                    assert(sp_claim(mid, id) == st2);
                    lemma_claim_wf(mid, id);
                    if good(st) && ids_fit(st2.graph) {
                        assert(k == i);
                        assert(g.nodes[k].name == n.name && g.nodes[k].parent == n.parent);
                        assert forall|a: int, b: int|
                            #![trigger g.nodes[a], g.nodes[b]]
                            0 <= a < b < g.nodes.len() implies g.nodes[a].name != g.nodes[b].name by {
                            assert(st.graph.nodes[a].name == g.nodes[a].name);
                            assert(st.graph.nodes[b].name == g.nodes[b].name);
                        }
                        assert forall|a: int| 0 <= a < g.nodes.len() implies ((#[trigger] g.nodes[a]).parent matches Some(sg) ==> sg.0
                            < g.subgraphs.len() && g.subgraphs[sg.0 as int].nodes.contains(NodeId(a as u32))) by {
                            assert(st.graph.nodes[a].parent == g.nodes[a].parent);
                        }
                        assert(graph_wf_core(g));
                        assert(parents_listed(g));
                        lemma_listed_grows(g, st2.graph);
                    }
                },
                None => {
                    let nn = st1.graph.nodes.len();
                    let id = NodeId(nn as u32);
                    let node = st2.graph.nodes[nn as int];
                    let g = GraphV { nodes: st1.graph.nodes.push(node), ..st1.graph };
                    let mid = PState { graph: g, ..st1 };
                    assert(sp_claim(mid, id) == st2);
                    lemma_claim_wf(mid, id);
                    if good(st) && ids_fit(st2.graph) {
                        assert(id.0 == nn);
                        assert forall|a: int, b: int|
                            #![trigger g.nodes[a], g.nodes[b]]
                            0 <= a < b < g.nodes.len() implies g.nodes[a].name != g.nodes[b].name by {
                            if b == nn {
                                assert(g.nodes[a] == st.graph.nodes[a]);
                            } else {
                                assert(g.nodes[a] == st.graph.nodes[a]);
                                assert(g.nodes[b] == st.graph.nodes[b]);
                            }
                        }
                        assert forall|k: int| 0 <= k < g.edges.len() implies (#[trigger] g.edges[k]).source.0 < g.nodes.len()
                            && g.edges[k].target.0 < g.nodes.len() by {
                            assert(st.graph.edges[k] == g.edges[k]);
                        }
                        assert forall|s: int, k: int|
                            0 <= s < g.subgraphs.len() && 0 <= k < g.subgraphs[s].nodes.len() implies (
                            #[trigger] g.subgraphs[s].nodes[k]).0 < g.nodes.len() by {
                            assert(st.graph.subgraphs[s].nodes[k].0 < st.graph.nodes.len());
                        }
                        assert(graph_wf_core(g));
                        assert(wf(mid));
                        let old_g = st.graph;
                        assert forall|a: int| 0 <= a < old_g.nodes.len() implies (#[trigger] st2.graph.nodes[a]).parent == old_g.nodes[a].parent by {
                            assert(st2.graph.nodes[a] == g.nodes[a]);
                        }
                        lemma_listed_grows(old_g, st2.graph);
                        assert forall|a: int| 0 <= a < st2.graph.nodes.len() implies ((#[trigger] st2.graph.nodes[a]).parent matches Some(sg) ==> sg.0
                            < st2.graph.subgraphs.len() && st2.graph.subgraphs[sg.0 as int].nodes.contains(NodeId(a as u32))) by {
                            if a < nn {
                            } else {
                                assert(a == nn);
                                assert(NodeId(a as u32) == id);
                            }
                        }
                    }
                },
            }
        },
    }
}

proof fn lemma_intern_all_wf(st: PState, ln: int, parts: Seq<Seq<char>>, k: int)
    ensures
        grows(st.graph, sp_intern_all(st, ln, parts, k).0.graph),
        sp_intern_all(st, ln, parts, k).0.graph.edges == st.graph.edges,
        sp_intern_all(st, ln, parts, k).0.stack == st.stack,
        good(st) && ids_fit(sp_intern_all(st, ln, parts, k).0.graph) ==> good(
            sp_intern_all(st, ln, parts, k).0,
        ) && forall|j: int|
            0 <= j < sp_intern_all(st, ln, parts, k).1.len() ==> (#[trigger] sp_intern_all(
                st,
                ln,
                parts,
                k,
            ).1[j]).0 < sp_intern_all(st, ln, parts, k).0.graph.nodes.len(),
    decreases k,
{
    if !(k <= 0 || k > parts.len()) {
        lemma_intern_all_wf(st, ln, parts, k - 1);
        let (s1, ids, e) = sp_intern_all(st, ln, parts, k - 1);
        if e is None {
            lemma_intern_wf(s1, ln, trim(parts[k - 1]));
            let (s2, r) = sp_intern(s1, ln, trim(parts[k - 1]));
            if good(st) && ids_fit(s2.graph) {
                assert(ids_fit(s1.graph));
                match r {
                    Ok(id) => {
                        let ids2 = ids.push(id);
                        assert forall|j: int| 0 <= j < ids2.len() implies (#[trigger] ids2[j]).0 < s2.graph.nodes.len() by {
                            if j < ids.len() {
                                assert(ids2[j] == ids[j]);
                            }
                        }
                    },
                    Err(_) => {},
                }
            }
        }
    }
}

proof fn lemma_cross_in_range(srcs: Seq<NodeId>, dsts: Seq<NodeId>, op: EdgeOpV, n: int)
    requires
        forall|a: int| 0 <= a < srcs.len() ==> (#[trigger] srcs[a]).0 < n,
        forall|b: int| 0 <= b < dsts.len() ==> (#[trigger] dsts[b]).0 < n,
    ensures
        forall|k: int|
            0 <= k < edge_cross(srcs, dsts, op).len() ==> (#[trigger] edge_cross(srcs, dsts, op)[k]).source.0
                < n && edge_cross(srcs, dsts, op)[k].target.0 < n,
    decreases srcs.len(),
{
    if srcs.len() > 0 {
        let p = srcs.drop_last();
        assert forall|a: int| 0 <= a < p.len() implies (#[trigger] p[a]).0 < n by {
            assert(p[a] == srcs[a]);
        }
        lemma_cross_in_range(p, dsts, op, n);
        let c0 = edge_cross(p, dsts, op);
        let row = edge_row(srcs.last(), dsts, op);
        let c = edge_cross(srcs, dsts, op);
        assert(c == c0 + row);
        assert forall|k: int| 0 <= k < c.len() implies (#[trigger] c[k]).source.0 < n && c[k].target.0 < n by {
            if k < c0.len() {
                assert(c[k] == c0[k]);
            } else {
                assert(c[k] == row[k - c0.len()]);
                assert(row[k - c0.len()] == flow_edge(srcs.last(), dsts[k - c0.len()], op));
            }
        }
    }
}

proof fn lemma_chain_wf(st: PState, ln: int, rest: Seq<char>, prev: Option<(Seq<NodeId>, EdgeOpV)>)
    ensures
        grows(st.graph, sp_chain(st, ln, rest, prev).0.graph),
        sp_chain(st, ln, rest, prev).0.stack == st.stack,
        good(st) && ids_fit(sp_chain(st, ln, rest, prev).0.graph) && (prev matches Some((srcs, op))
            ==> forall|a: int| 0 <= a < srcs.len() ==> (#[trigger] srcs[a]).0 < st.graph.nodes.len())
            ==> good(sp_chain(st, ln, rest, prev).0),
    decreases rest.len(),
{
    let (gt, after) = split_node_segment(rest);
    let parts = split_amp(gt);
    lemma_intern_all_wf(st, ln, parts, parts.len() as int);
    let (st1, group, err) = sp_intern_all(st, ln, parts, parts.len() as int);
    if err is None {
        let st2 = match prev {
            Some((srcs, op)) => PState {
                graph: GraphV { edges: st1.graph.edges + edge_cross(srcs, group, op), ..st1.graph },
                ..st1
            },
            None => st1,
        };
        let a = trim(after);
        let res = sp_chain(st, ln, rest, prev).0;
        let (eo, p) = spec_edge_op(a);
        let st3 = PState { fatal: st2.fatal || p, ..st2 };
        if a.len() != 0 {
            match eo {
                Some((op, tail)) => if tail.len() < rest.len() {
                    lemma_chain_wf(st3, ln, tail, Some((group, op)));
                },
                None => {},
            }
        }
        if good(st) && ids_fit(res.graph) && (prev matches Some((srcs, op)) ==> forall|a: int|
            0 <= a < srcs.len() ==> (#[trigger] srcs[a]).0 < st.graph.nodes.len()) {
            assert(ids_fit(st1.graph));
            assert(good(st1));
            match prev {
                Some((srcs, op)) => {
                    let n = st1.graph.nodes.len() as int;
                    assert forall|x: int| 0 <= x < srcs.len() implies (#[trigger] srcs[x]).0 < n by {
                    }
                    lemma_cross_in_range(srcs, group, op, n);
                    let es = st1.graph.edges + edge_cross(srcs, group, op);
                    assert forall|k: int| 0 <= k < es.len() implies (#[trigger] es[k]).source.0 < n
                        && es[k].target.0 < n by {
                        if k < st1.graph.edges.len() {
                            assert(es[k] == st1.graph.edges[k]);
                        } else {
                            assert(es[k] == edge_cross(srcs, group, op)[k - st1.graph.edges.len()]);
                        }
                    }
                    assert(good(st2));
                },
                None => {},
            }
            assert(good(st3));
        }
    }
}

proof fn lemma_open_subgraph_wf(st: PState, rest: Seq<char>)
    ensures
        grows(st.graph, sp_open_subgraph(st, rest).graph),
        good(st) && ids_fit(sp_open_subgraph(st, rest).graph) ==> good(sp_open_subgraph(st, rest)),
{
    let st2 = sp_open_subgraph(st, rest);
    let n = st.graph.subgraphs.len();
    if good(st) && ids_fit(st2.graph) {
        let g = st.graph;
        let g2 = st2.graph;
        assert(g2.subgraphs[n as int].nodes.len() == 0);
        assert forall|s: int| 0 <= s < g2.subgraphs.len() implies (#[trigger] g2.subgraphs[s]).nodes.no_duplicates() by {
            if s < n {
                assert(g2.subgraphs[s] == g.subgraphs[s]);
            }
        }
        assert forall|s: int, k: int|
            0 <= s < g2.subgraphs.len() && 0 <= k < g2.subgraphs[s].nodes.len() implies (
            #[trigger] g2.subgraphs[s].nodes[k]).0 < g2.nodes.len() by {
            assert(g2.subgraphs[s] == g.subgraphs[s]);
        }
        assert forall|s: int| 0 <= s < g2.subgraphs.len() implies ((#[trigger] g2.subgraphs[s]).parent matches Some(p) ==> p.0 < s) by {
            if s < n {
                assert(g2.subgraphs[s] == g.subgraphs[s]);
            } else if st.stack.len() > 0 {
                assert(st.stack[st.stack.len() - 1].0 < n);
            }
        }
        assert forall|k: int| 0 <= k < st2.stack.len() implies (#[trigger] st2.stack[k]).0 < g2.subgraphs.len() by {
            if k < st.stack.len() {
                assert(st2.stack[k] == st.stack[k]);
            }
        }
        assert forall|s: int, k: int|
            0 <= s < g.subgraphs.len() && 0 <= k < g.subgraphs[s].nodes.len() implies g2.subgraphs[s].nodes.contains(
            #[trigger] g.subgraphs[s].nodes[k],
        ) by {
            assert(g2.subgraphs[s] == g.subgraphs[s]);
            assert(g2.subgraphs[s].nodes[k] == g.subgraphs[s].nodes[k]);
        }
        lemma_listed_grows(g, g2);
    }
}

proof fn lemma_stmt_wf(st: PState, ln: int, line: Seq<char>)
    ensures
        grows(st.graph, sp_stmt(st, ln, line).0.graph),
        good(st) && ids_fit(sp_stmt(st, ln, line).0.graph) ==> good(sp_stmt(st, ln, line).0),
{
    reveal(sp_stmt);
    if strip_prefix(line, "subgraph"@) is Some {
        lemma_open_subgraph_wf(st, trim(strip_prefix(line, "subgraph"@)->0));
    } else if line == "end"@ {
        if st.stack.len() > 0 {
            let st2 = PState { stack: st.stack.drop_last(), ..st };
            if good(st) {
                assert forall|k: int| 0 <= k < st2.stack.len() implies (#[trigger] st2.stack[k]).0 < st2.graph.subgraphs.len() by {
                    assert(st2.stack[k] == st.stack[k]);
                }
            }
        }
    } else {
        lemma_chain_wf(st, ln, line, None);
    }
}

proof fn lemma_fold_strict_wf(st0: PState, ls: Seq<(int, Seq<char>)>, k: int)
    ensures
        grows(st0.graph, sp_fold_strict(st0, ls, k).0.graph),
        good(st0) && ids_fit(sp_fold_strict(st0, ls, k).0.graph) ==> good(sp_fold_strict(st0, ls, k).0),
    decreases k,
{
    if !(k <= 0 || k > ls.len()) {
        lemma_fold_strict_wf(st0, ls, k - 1);
        let (s, e) = sp_fold_strict(st0, ls, k - 1);
        if e is None {
            lemma_stmt_wf(s, ls[k - 1].0, ls[k - 1].1);
        }
    }
}

proof fn lemma_fold_wf(st0: PState, ls: Seq<(int, Seq<char>)>, k: int)
    ensures
        grows(st0.graph, sp_fold(st0, ls, k).0.graph),
        good(st0) && ids_fit(sp_fold(st0, ls, k).0.graph) ==> good(sp_fold(st0, ls, k).0),
    decreases k,
{
    if !(k <= 0 || k > ls.len()) {
        lemma_fold_wf(st0, ls, k - 1);
        let (s, es) = sp_fold(st0, ls, k - 1);
        lemma_stmt_wf(s, ls[k - 1].0, ls[k - 1].1);
    }
}

/// A parsed flowchart graph is well formed (see `graph_wf`): node names
/// are distinct, edges join existing nodes, subgraph member lists are
/// duplicate-free and name existing nodes, a subgraph's parent comes before
/// it, and a node inside a subgraph is listed by it. Holds of the lenient
/// and the strict parse alike, while node and subgraph ids fit in 32 bits.
pub proof fn law_flowchart_graph_wf(ls: Seq<(int, Seq<char>)>)
    ensures
        ids_fit(flowchart_lenient(ls).0) ==> graph_wf(flowchart_lenient(ls).0),
        flowchart_strict(ls).0 matches Ok(g) ==> (ids_fit(g) ==> graph_wf(g)),
{
    let (st0, body) = flow_start(ls);
    assert(good(st0));
    lemma_fold_wf(st0, body, body.len() as int);
    lemma_fold_strict_wf(st0, body, body.len() as int);
}

/// The flowchart parser: graph under construction plus the open-subgraph
/// stack (node lookup by name goes through the graph itself).
pub struct Parser {
    pub graph: Graph,
    pub stack: Vec<SubgraphId>,
    /// Set once a fatal line is met.
    pub fatal: bool,
}

impl View for Parser {
    type V = PState;

    open spec fn view(&self) -> PState {
        PState { graph: self.graph@, stack: self.stack@, fatal: self.fatal }
    }
}

pub(crate) fn string_is(s: &String, c: &[char]) -> (r: bool)
    ensures
        r == (s@ == c@),
{
    let v = chars_of(s.as_str());
    eq_of(&v, c)
}

pub(crate) fn contains_id(v: &Vec<NodeId>, id: NodeId) -> (r: bool)
    ensures
        r == v@.contains(id),
{
    let mut i: usize = 0;
    while i < v.len()
        invariant
            i <= v@.len(),
            forall|k: int| 0 <= k < i ==> v@[k] != id,
        decreases v@.len() - i,
    {
        if v[i] == id {
            return true;
        }
        i += 1;
    }
    false
}

impl Parser {
    pub fn new(direction: Direction) -> (r: Parser)
        ensures
            r@ == (PState { graph: empty_graph(direction), stack: seq![], fatal: false }),
    {
        let p = Parser { graph: Graph::new(direction), stack: Vec::new(), fatal: false };
        assert(p@.graph.nodes =~= empty_graph(direction).nodes);
        assert(p@.graph.edges =~= empty_graph(direction).edges);
        assert(p@.graph.subgraphs =~= empty_graph(direction).subgraphs);
        assert(p@.stack =~= Seq::<SubgraphId>::empty());
        p
    }

    fn find_node(&self, name: &[char]) -> (r: Option<usize>)
        ensures
            index_by_name(self@.graph.nodes, name@, 0) == (match r {
                Some(i) => Some(i as int),
                None => None,
            }),
    {
        let mut i: usize = 0;
        while i < self.graph.nodes.len()
            invariant
                i <= self.graph.nodes@.len(),
                index_by_name(self@.graph.nodes, name@, 0) == index_by_name(
                    self@.graph.nodes,
                    name@,
                    i as int,
                ),
            decreases self.graph.nodes@.len() - i,
        {
            assert(self@.graph.nodes[i as int] == self.graph.nodes@[i as int]@);
            if string_is(&self.graph.nodes[i].name, name) {
                return Some(i);
            }
            i += 1;
        }
        None
    }

    fn claim_for_subgraph(&mut self, id: NodeId)
        requires
            wf(old(self)@),
        ensures
            wf(final(self)@),
            final(self)@ == sp_claim(old(self)@, id),
    {
        let n = self.stack.len();
        if n > 0 {
            let sg = self.stack[n - 1];
            assert(self@.stack[n - 1] == sg);
            let s = self.graph.subgraph_mut(sg);
            if !contains_id(&s.nodes, id) {
                s.nodes.push(id);
            }
            assert(self@.graph.subgraphs =~= sp_claim(old(self)@, id).graph.subgraphs);
        }
    }

    /// Get-or-create a node from a declaration like `db[("Postgres")]:::database`.
    fn intern_node(&mut self, ln: usize, text: &[char]) -> (r: Result<NodeId, ParseError>)
        requires
            wf(old(self)@),
        ensures
            wf(final(self)@),
            final(self)@ == sp_intern(old(self)@, ln as int, text@).0,
            sp_intern(old(self)@, ln as int, text@).1 == (match r {
                Ok(id) => Ok::<NodeId, ErrV>(id),
                Err(e) => Err(e@),
            }),
    {
        proof {
            reveal_strlit("cannot parse node '");
            reveal_strlit("'");
        }
        let (decl, p) = parse_node_decl(text);
        self.fatal = self.fatal || p;
        let decl = match decl {
            Some(d) => d,
            None => {
                let a = concat(&chars_of("cannot parse node '"), text);
                let m = concat(&a, &chars_of("'"));
                return Err(ParseError::syntax(ln, &m));
            },
        };
        proof {
            lemma_index_by_name(self@.graph.nodes, decl@.name, 0);
        }
        match self.find_node(&decl.name) {
            Some(i) => {
                let id = NodeId(#[verifier::truncate] (i as u32));
                let node = self.graph.node_mut(id);
                match decl.label {
                    Some(l) => {
                        node.label = string_of(&l);
                    },
                    None => {},
                }
                match decl.shape {
                    Some(x) => {
                        node.shape = x;
                    },
                    None => {},
                }
                match decl.role {
                    Some(x) => {
                        node.role = x;
                    },
                    None => {},
                }
                match decl.icon {
                    Some(ic) => {
                        node.icon = Some(string_of(&ic));
                    },
                    None => {},
                }
                proof {
                    let k = id.0 as int;
                    assert(self@.graph.nodes =~= old(self)@.graph.nodes.update(
                        k,
                        sp_intern(old(self)@, ln as int, text@).0.graph.nodes[k],
                    )) by {
                        assert(self.graph.nodes@[k]@ == sp_intern(old(self)@, ln as int, text@).0.graph.nodes[k]) by {
                            assert(self.graph.nodes@[k]@.sections == old(self).graph.nodes@[k]@.sections);
                        }
                    }
                }
                self.claim_for_subgraph(id);
                Ok(id)
            },
            None => {
                let shape = match decl.shape {
                    Some(x) => x,
                    None => NodeShape::Rect,
                };
                let label = match &decl.label {
                    Some(l) => string_of(l),
                    None => string_of(&decl.name),
                };
                let mut node = Node::new(string_of(&decl.name), label);
                node.shape = shape;
                node.role = match decl.role {
                    Some(x) => x,
                    None => infer_role(shape),
                };
                node.icon = match &decl.icon {
                    Some(ic) => Some(string_of(ic)),
                    None => None,
                };
                let n = self.stack.len();
                node.parent = if n > 0 {
                    Some(self.stack[n - 1])
                } else {
                    None
                };
                let id = self.graph.add_node(node);
                self.claim_for_subgraph(id);
                Ok(id)
            },
        }
    }
}


pub open spec fn prev_view(prev: Option<(Vec<NodeId>, EdgeOp)>) -> Option<(Seq<NodeId>, EdgeOpV)> {
    match prev {
        Some((ids, op)) => Some((ids@, op@)),
        None => None,
    }
}

proof fn lemma_intern_all_sticky(st: PState, ln: int, parts: Seq<Seq<char>>, k: int)
    ensures
        st.fatal ==> sp_intern_all(st, ln, parts, k).0.fatal,
    decreases k,
{
    if 0 < k <= parts.len() {
        lemma_intern_all_sticky(st, ln, parts, k - 1);
    }
}

proof fn lemma_chain_sticky(
    st: PState,
    ln: int,
    rest: Seq<char>,
    prev: Option<(Seq<NodeId>, EdgeOpV)>,
)
    ensures
        st.fatal ==> sp_chain(st, ln, rest, prev).0.fatal,
    decreases rest.len(),
{
    let (gt, after) = split_node_segment(rest);
    let parts = split_amp(gt);
    lemma_intern_all_sticky(st, ln, parts, parts.len() as int);
    let (st1, group, err) = sp_intern_all(st, ln, parts, parts.len() as int);
    if err is None {
        let st2 = match prev {
            Some((srcs, op)) => PState {
                graph: GraphV {
                    edges: st1.graph.edges + edge_cross(srcs, group, op),
                    ..st1.graph
                },
                ..st1
            },
            None => st1,
        };
        let a = trim(after);
        if a.len() > 0 {
            let (eo, p) = spec_edge_op(a);
            let st3 = PState { fatal: st2.fatal || p, ..st2 };
            match eo {
                Some((op, tail)) => if tail.len() < rest.len() {
                    lemma_chain_sticky(st3, ln, tail, Some((group, op)));
                },
                None => {},
            }
        }
    }
}

proof fn lemma_chain_first(
    st: PState,
    ln: int,
    rest: Seq<char>,
    prev: Option<(Seq<NodeId>, EdgeOpV)>,
)
    ensures
        sp_intern_all(
            st,
            ln,
            split_amp(split_node_segment(rest).0),
            split_amp(split_node_segment(rest).0).len() as int,
        ).0.fatal ==> sp_chain(st, ln, rest, prev).0.fatal,
{
    let (gt, after) = split_node_segment(rest);
    let parts = split_amp(gt);
    let (st1, group, err) = sp_intern_all(st, ln, parts, parts.len() as int);
    if err is None {
        let st2 = match prev {
            Some((srcs, op)) => PState {
                graph: GraphV {
                    edges: st1.graph.edges + edge_cross(srcs, group, op),
                    ..st1.graph
                },
                ..st1
            },
            None => st1,
        };
        let a = trim(after);
        if a.len() > 0 {
            let (eo, p) = spec_edge_op(a);
            let st3 = PState { fatal: st2.fatal || p, ..st2 };
            match eo {
                Some((op, tail)) => if tail.len() < rest.len() {
                    lemma_chain_sticky(st3, ln, tail, Some((group, op)));
                },
                None => {},
            }
        }
    }
}

proof fn lemma_stmt_sticky(st: PState, ln: int, line: Seq<char>)
    ensures
        st.fatal ==> sp_stmt(st, ln, line).0.fatal,
{
    reveal(sp_stmt);
    lemma_chain_sticky(st, ln, line, None);
}

proof fn lemma_fold_mono(st0: PState, ls: Seq<(int, Seq<char>)>, k: int, k2: int)
    requires
        0 <= k <= k2 <= ls.len(),
    ensures
        sp_fold(st0, ls, k).0.fatal ==> sp_fold(st0, ls, k2).0.fatal,
    decreases k2 - k,
{
    if k < k2 {
        lemma_fold_mono(st0, ls, k, k2 - 1);
        let (s, es) = sp_fold(st0, ls, k2 - 1);
        lemma_stmt_sticky(s, ls[k2 - 1].0, ls[k2 - 1].1);
    }
}

proof fn lemma_fold_strict_mono(st0: PState, ls: Seq<(int, Seq<char>)>, k: int, k2: int)
    requires
        0 <= k <= k2 <= ls.len(),
    ensures
        sp_fold_strict(st0, ls, k).0.fatal ==> sp_fold_strict(st0, ls, k2).0.fatal,
        sp_fold_strict(st0, ls, k).1 is Some ==> sp_fold_strict(st0, ls, k2) == sp_fold_strict(
            st0,
            ls,
            k,
        ),
    decreases k2 - k,
{
    if k < k2 {
        lemma_fold_strict_mono(st0, ls, k, k2 - 1);
        let (s, e) = sp_fold_strict(st0, ls, k2 - 1);
        lemma_stmt_sticky(s, ls[k2 - 1].0, ls[k2 - 1].1);
    }
}

impl Parser {
    fn intern_all(&mut self, ln: usize, parts: &Vec<Vec<char>>, k: usize) -> (r: Result<
        Vec<NodeId>,
        ParseError,
    >)
        requires
            wf(old(self)@),
            k <= parts@.len(),
        ensures
            wf(final(self)@),
            ({
                let t = sp_intern_all(old(self)@, ln as int, crate::text::views(parts@), k as int);
                final(self)@ == t.0 && match r {
                    Ok(ids) => t.1 == ids@ && t.2 is None,
                    Err(e) => t.2 == Some(e@),
                }
            }),
        decreases k,
    {
        if k == 0 {
            return Ok(Vec::new());
        }
        let ghost ps = crate::text::views(parts@);
        let mut ids = match self.intern_all(ln, parts, k - 1) {
            Ok(ids) => ids,
            Err(e) => return Err(e),
        };
        assert(ps[k - 1] == parts@[k - 1]@);
        let t = trim_of(&parts[k - 1]);
        match self.intern_node(ln, &t) {
            Ok(id) => {
                ids.push(id);
                Ok(ids)
            },
            Err(e) => Err(e),
        }
    }

    fn add_cross(&mut self, srcs: &Vec<NodeId>, dsts: &Vec<NodeId>, op: &EdgeOp)
        ensures
            final(self)@ == (PState {
                graph: GraphV {
                    edges: old(self)@.graph.edges + edge_cross(srcs@, dsts@, op@),
                    ..old(self)@.graph
                },
                ..old(self)@
            }),
    {
        let (alabel, animated) = take_animate_of(&op.label);
        let mut a: usize = 0;
        while a < srcs.len()
            invariant
                a <= srcs@.len(),
                take_animate(op@.label) == (
                    match alabel {
                        Some(v) => Some(v@),
                        None => None,
                    },
                    animated,
                ),
                self@ == (PState {
                    graph: GraphV {
                        edges: old(self)@.graph.edges + edge_cross(srcs@.take(a as int), dsts@, op@),
                        ..old(self)@.graph
                    },
                    ..old(self)@
                }),
            decreases srcs@.len() - a,
        {
            let mut b: usize = 0;
            while b < dsts.len()
                invariant
                    a < srcs@.len(),
                    b <= dsts@.len(),
                    take_animate(op@.label) == (
                        match alabel {
                            Some(v) => Some(v@),
                            None => None,
                        },
                        animated,
                    ),
                    self@ == (PState {
                        graph: GraphV {
                            edges: old(self)@.graph.edges + edge_cross(
                                srcs@.take(a as int),
                                dsts@,
                                op@,
                            ) + edge_row(srcs@[a as int], dsts@.take(b as int), op@),
                            ..old(self)@.graph
                        },
                        ..old(self)@
                    }),
                decreases dsts@.len() - b,
            {
                let label = match &alabel {
                    Some(l) => Some(string_of(l)),
                    None => None,
                };
                let e = Edge {
                    source: srcs[a],
                    target: dsts[b],
                    label,
                    style: op.style,
                    kind: op.kind,
                    end_labels: None,
                    animated,
                };
                assert(e@ == flow_edge(srcs@[a as int], dsts@[b as int], op@));
                self.graph.add_edge(e);
                assert(edge_row(srcs@[a as int], dsts@.take(b + 1), op@) =~= edge_row(
                    srcs@[a as int],
                    dsts@.take(b as int),
                    op@,
                ).push(e@));
                b += 1;
            }
            assert(dsts@.take(dsts@.len() as int) == dsts@);
            assert(srcs@.take(a + 1).drop_last() == srcs@.take(a as int));
            assert(edge_cross(srcs@.take(a + 1), dsts@, op@) == edge_cross(
                srcs@.take(a as int),
                dsts@,
                op@,
            ) + edge_row(srcs@[a as int], dsts@, op@));
            assert(old(self)@.graph.edges + edge_cross(srcs@.take(a as int), dsts@, op@)
                + edge_row(srcs@[a as int], dsts@, op@) =~= old(self)@.graph.edges + edge_cross(
                srcs@.take(a + 1),
                dsts@,
                op@,
            ));
            a += 1;
        }
        assert(srcs@.take(srcs@.len() as int) == srcs@);
    }

    /// Parse a chain such as `a --> b -.-> c` or `a & b --> c`, including
    /// standalone node declarations.
    #[verifier::rlimit(60)]
    fn node_or_edge_chain(
        &mut self,
        ln: usize,
        rest: &[char],
        prev: Option<(Vec<NodeId>, EdgeOp)>,
    ) -> (r: Result<(), ParseError>)
        requires
            wf(old(self)@),
        ensures
            wf(final(self)@),
            ({
                let t = sp_chain(old(self)@, ln as int, rest@, prev_view(prev));
                final(self)@ == t.0 && t.1 == (match r {
                    Ok(()) => None,
                    Err(e) => Some(e@),
                })
            }),
        decreases rest@.len(),
    {
        proof {
            reveal_strlit("expected edge operator near '");
            reveal_strlit("'");
            let (gt, after) = split_node_segment(rest@);
            let parts = split_amp(gt);
            lemma_chain_first(old(self)@, ln as int, rest@, prev_view(prev));
        }
        let (gt, after) = split_node_segment_of(rest);
        let parts = split_amp_of(&gt);
        let group = match self.intern_all(ln, &parts, parts.len()) {
            Ok(g) => g,
            Err(e) => return Err(e),
        };
        match &prev {
            Some((srcs, op)) => {
                self.add_cross(srcs, &group, op);
            },
            None => {},
        }
        let a = trim_of(&after);
        if a.len() == 0 {
            return Ok(());
        }
        proof {
            lemma_edge_op_shrinks(a@);
            crate::text::lemma_trim_bounds(after@);
            lemma_seg_scan(rest@, 0, 0);
        }
        let (eo, p) = edge_op_of(&a);
        self.fatal = self.fatal || p;
        match eo {
            None => {
                let x = concat(&chars_of("expected edge operator near '"), &a);
                let m = concat(&x, &chars_of("'"));
                Err(ParseError::syntax(ln, &m))
            },
            Some((op, tail)) => self.node_or_edge_chain(ln, &tail, Some((group, op))),
        }
    }
}


impl Parser {
    /// Open a subgraph: `subgraph name` or `subgraph name["Label"]`.
    fn open_subgraph(&mut self, rest: &[char])
        requires
            wf(old(self)@),
        ensures
            wf(final(self)@),
            final(self)@ == sp_open_subgraph(old(self)@, rest@),
    {
        proof {
            reveal_strlit("[");
            lemma_find(rest@, "["@);
        }
        let (name, label) = match find_of(rest, &chars_of("[")) {
            Some(idx) => {
                let n = rest.len();
                assert(idx + 1 <= n);
                let head = slice_of(rest, 0, idx);
                let tail = slice_of(rest, idx + 1, n);
                let t = crate::text::trim_end_matches_of(&tail, ']');
                (trim_of(&head), trim_matches_of(&t, '"'))
            },
            None => {
                let t = trim_of(rest);
                let n = trim_matches_of(&t, '"');
                let l = trim_matches_of(&t, '"');
                (n, l)
            },
        };
        let k = self.stack.len();
        let parent = if k > 0 {
            Some(self.stack[k - 1])
        } else {
            None
        };
        let sg = Subgraph {
            name: string_of(&name),
            label: string_of(&label),
            nodes: Vec::new(),
            parent,
        };
        assert(sg@.nodes =~= Seq::<NodeId>::empty());
        let id = self.graph.add_subgraph(sg);
        self.stack.push(id);
    }

    /// One statement line.
    fn statement(&mut self, ln: usize, line: &[char]) -> (r: Result<(), ParseError>)
        requires
            wf(old(self)@),
        ensures
            wf(final(self)@),
            ({
                let t = sp_stmt(old(self)@, ln as int, line@);
                final(self)@ == t.0 && t.1 == (match r {
                    Ok(()) => None,
                    Err(e) => Some(e@),
                })
            }),
    {
        proof {
            reveal(sp_stmt);
        }
        if let Some(rest) = strip_prefix_of(line, &chars_of("subgraph")) {
            let t = trim_of(&rest);
            self.open_subgraph(&t);
            return Ok(());
        }
        if eq_of(line, &chars_of("end")) {
            if self.stack.len() == 0 {
                return Err(ParseError::syntax(ln, &chars_of("'end' without matching 'subgraph'")));
            }
            self.stack.pop();
            assert(self@.stack =~= old(self)@.stack.drop_last());
            return Ok(());
        }
        if starts_with_of(line, &chars_of("classDef")) || starts_with_of(line, &chars_of("class "))
            || starts_with_of(line, &chars_of("style")) {
            return Ok(());
        }
        if starts_with_of(line, &chars_of("direction ")) {
            return Ok(());
        }
        if starts_with_of(line, &chars_of("linkStyle")) {
            return Ok(());
        }
        if is_style_debris(line) {
            return Ok(());
        }
        self.node_or_edge_chain(ln, line, None)
    }

    /// Run statements in order until one fails.
    pub fn run_steps(&mut self, body: &Vec<crate::parser::Line>) -> (r: Result<(), ParseError>)
        requires
            wf(old(self)@),
        ensures
            wf(final(self)@),
            ({
                let t = sp_fold_strict(old(self)@, crate::parser::lines_view(body@), body@.len() as int);
                final(self)@ == t.0 && t.1 == (match r {
                    Ok(()) => None,
                    Err(e) => Some(e@),
                })
            }),
    {
        let ghost st0 = self@;
        let ghost ls = crate::parser::lines_view(body@);
        let mut i: usize = 0;
        while i < body.len()
            invariant
                i <= body@.len(),
                st0 == old(self)@,
                ls == crate::parser::lines_view(body@),
                wf(self@),
                sp_fold_strict(st0, ls, i as int).0 == self@,
                sp_fold_strict(st0, ls, i as int).1 is None,
            decreases body@.len() - i,
        {
            proof {
                lemma_fold_strict_mono(st0, ls, i + 1, body@.len() as int);
            }
            assert(ls[i as int] == (body@[i as int].0 as int, body@[i as int].1@));
            match self.statement(body[i].0, &body[i].1) {
                Ok(()) => {},
                Err(e) => {
                    proof {
                        lemma_fold_strict_mono(st0, ls, i + 1, body@.len() as int);
                    }
                    return Err(e);
                },
            }
            i += 1;
        }
        Ok(())
    }

}

/// Initial parser and statement lines for numbered flowchart lines.
pub fn start(lines: &Vec<crate::parser::Line>) -> (r: (Parser, Vec<crate::parser::Line>))
    ensures
        flow_start(crate::parser::lines_view(lines@)) == (r.0@, crate::parser::lines_view(r.1@)),
        wf(r.0@),
{
    let ghost ls = crate::parser::lines_view(lines@);
    let n = lines.len();
    let mut hdr: Option<Vec<char>> = None;
    if n > 0 {
        assert(ls[0] == (lines@[0].0 as int, lines@[0].1@));
        hdr = match strip_prefix_of(&lines[0].1, &chars_of("flowchart")) {
            Some(r) => Some(r),
            None => strip_prefix_of(&lines[0].1, &chars_of("graph")),
        };
    }
    let from: usize = if hdr.is_some() {
        1
    } else {
        0
    };
    let p = match hdr {
        Some(r) => {
            let t = trim_of(&r);
            Parser::new(parse_direction(&t))
        },
        None => Parser::new(Direction::TopBottom),
    };
    let mut body: Vec<crate::parser::Line> = Vec::new();
    let mut i: usize = from;
    while i < n
        invariant
            from <= i <= n == lines@.len(),
            ls == crate::parser::lines_view(lines@),
            crate::parser::lines_view(body@) == ls.subrange(from as int, i as int),
        decreases n - i,
    {
        let line = (lines[i].0, slice_of(&lines[i].1, 0, lines[i].1.len()));
        assert(lines@[i as int].1@.subrange(0, lines@[i as int].1@.len() as int) == lines@[i as int].1@);
        proof {
            crate::parser::lemma_lines_push(body@, line);
        }
        body.push(line);
        assert(ls.subrange(from as int, i + 1) =~= ls.subrange(from as int, i as int).push(ls[i as int]));
        i += 1;
    }
    assert(ls.subrange(from as int, n as int) =~= ls.skip(from as int));
    assert(ls.skip(0) =~= ls);
    (p, body)
}

/// Strict flowchart parse of numbered lines, or `None` on fatal input.
pub fn parse_lines_checked(lines: &Vec<crate::parser::Line>) -> (r: Option<Result<Graph, ParseError>>)
    ensures
        ({
            let t = flowchart_strict(crate::parser::lines_view(lines@));
            match r {
                None => t.1,
                Some(Ok(g)) => !t.1 && t.0 == Ok::<GraphV, ErrV>(g@),
                Some(Err(e)) => !t.1 && t.0 == Err::<GraphV, ErrV>(e@),
            }
        }),
{
    let (p, body) = start(lines);
    let mut p = p;
    let res = p.run_steps(&body);
    if p.fatal {
        return None;
    }
    match res {
        Ok(()) => Some(Ok(p.graph)),
        Err(e) => Some(Err(e)),
    }
}

/// Lenient flowchart parse of numbered lines: the graph, every per-line
/// error, and whether the input is fatal.
pub fn parse_lines_lenient(lines: &Vec<crate::parser::Line>) -> (r: (Graph, Vec<ParseError>, bool))
    ensures
        flowchart_lenient(crate::parser::lines_view(lines@)) == (r.0@, crate::parser::errs_view(r.1@), r.2),
{
    let (p, body) = start(lines);
    let ghost st0 = p@;
    let ghost ls = crate::parser::lines_view(body@);
    let mut p = p;
    let mut warnings: Vec<ParseError> = Vec::new();
    let mut i: usize = 0;
    while i < body.len()
        invariant
            i <= body@.len(),
            ls == crate::parser::lines_view(body@),
            wf(p@),
            sp_fold(st0, ls, i as int).0 == p@,
            sp_fold(st0, ls, i as int).1 == crate::parser::errs_view(warnings@),
        decreases body@.len() - i,
    {
        assert(ls[i as int] == (body@[i as int].0 as int, body@[i as int].1@));
        match p.statement(body[i].0, &body[i].1) {
            Ok(()) => {},
            Err(e) => {
                proof {
                    crate::parser::lemma_errs_push(warnings@, e);
                }
                warnings.push(e);
            },
        }
        i += 1;
    }
    let fatal = p.fatal;
    (p.graph, warnings, fatal)
}

proof fn lemma_fold_agreement(st0: PState, ls: Seq<(int, Seq<char>)>, k: int)
    requires
        0 <= k <= ls.len(),
    ensures
        ({
            let (s, es) = sp_fold(st0, ls, k);
            let (t, e) = sp_fold_strict(st0, ls, k);
            &&& es.len() == 0 ==> e is None && t == s
            &&& es.len() > 0 ==> e == Some(es[0])
        }),
    decreases k,
{
    if k > 0 {
        lemma_fold_agreement(st0, ls, k - 1);
    }
}

/// The strict flowchart parse stops exactly at the lenient parse's first
/// warning: without warnings both give the same graph (and the same fatal
/// verdict); otherwise the strict parse fails with the first warning.
pub proof fn law_strict_is_first_lenient_warning(ls: Seq<(int, Seq<char>)>)
    ensures
        ({
            let (g, es, p) = flowchart_lenient(ls);
            let (r, ps) = flowchart_strict(ls);
            &&& es.len() == 0 ==> r == Ok::<GraphV, ErrV>(g) && ps == p
            &&& es.len() > 0 ==> r == Err::<GraphV, ErrV>(es[0])
        }),
{
    let (st0, body) = flow_start(ls);
    lemma_fold_agreement(st0, body, body.len() as int);
}

} // verus!
