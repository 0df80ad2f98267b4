//! Parsers for every diagram dialect: source text to IR.
//!
//! Every parser works on the numbered, trimmed, non-blank, non-comment lines
//! of the source. Unparseable lines become [`ParseError`] warnings in the
//! lenient entry points; the strict entry points surface the first one.
//!
//! A *fatal* input is one the byte-level reading of a dialect cannot get
//! through: a string split inside a multi-byte character, or a day count
//! beyond 64-bit arithmetic. Such input has no parse: the parsers report it
//! as a flag, and the checked entry points return `None`.

pub mod flowchart;
pub mod linear;
pub mod git;
pub mod gantt;
pub mod pie;
pub mod sequence;
pub mod mindmap;
pub mod named;
pub mod er;
pub mod class;
pub mod state;
pub mod document;

use vstd::prelude::*;
use crate::ir::graph::Direction;
use crate::text::{
    chars_of, concat, contains, contains_of, dec, dec_of, eq_of, find, find_any, find_any_of,
    find_of, join, join_of, lemma_find, lemma_find_any_from, lemma_views_push, lines, lines_of,
    lower, lower_of, replace, replace_of, slice_of, split_by, split_by_of, split_once,
    split_once_of, split_ws, split_ws_of, starts_with, starts_with_of, string_of, strip_suffix,
    strip_suffix_of, trim, trim_end, trim_end_of, trim_matches, trim_matches_of, trim_of,
    trim_start, trim_start_matches, trim_start_matches_of, trim_start_of, views,
};

verus! {

/// A parse problem, tied to its 1-based source line.
#[derive(Debug)]
pub enum ParseError {
    Syntax { line: usize, message: String },
}

pub struct ErrV {
    pub line: int,
    pub message: Seq<char>,
}

impl View for ParseError {
    type V = ErrV;

    open spec fn view(&self) -> ErrV {
        match self {
            ParseError::Syntax { line, message } => ErrV { line: *line as int, message: message@ },
        }
    }
}

pub open spec fn errs_view(v: Seq<ParseError>) -> Seq<ErrV> {
    v.map_values(|e: ParseError| e@)
}

pub proof fn lemma_errs_push(v: Seq<ParseError>, e: ParseError)
    ensures
        errs_view(v.push(e)) == errs_view(v).push(e@),
{
    assert(errs_view(v.push(e)) =~= errs_view(v).push(e@));
}

/// The displayed form of an error: `line {line}: {message}`.
pub open spec fn error_text(e: ErrV) -> Seq<char> {
    "line "@ + dec(e.line as nat) + ": "@ + e.message
}

impl ParseError {
    /// Build a syntax error from a line number and message characters.
    pub fn syntax(line: usize, message: &[char]) -> (r: ParseError)
        ensures
            r@ == (ErrV { line: line as int, message: message@ }),
    {
        ParseError::Syntax { line, message: string_of(message) }
    }

    /// The 1-based source line the error refers to.
    pub fn line(&self) -> (r: usize)
        ensures
            r == self@.line,
    {
        match self {
            ParseError::Syntax { line, .. } => *line,
        }
    }

    /// The error as shown to users: `line N: message`.
    pub fn to_text(&self) -> (r: String)
        ensures
            r@ == error_text(self@),
    {
        match self {
            ParseError::Syntax { line, message } => {
                let a = concat(&chars_of("line "), &dec_of(*line as u64));
                let b = concat(&a, &chars_of(": "));
                let m = chars_of(message.as_str());
                let c = concat(&b, &m);
                string_of(&c)
            },
        }
    }
}

/// A numbered source line: (1-based line number, trimmed text).
pub type Line = (usize, Vec<char>);

pub open spec fn lines_view(v: Seq<Line>) -> Seq<(int, Seq<char>)> {
    v.map_values(|l: Line| (l.0 as int, l.1@))
}

pub proof fn lemma_lines_push(v: Seq<Line>, l: Line)
    ensures
        lines_view(v.push(l)) == lines_view(v).push((l.0 as int, l.1@)),
{
    assert(lines_view(v.push(l)) =~= lines_view(v).push((l.0 as int, l.1@)));
}

/// Whether a trimmed line carries content (not blank, not a `%%` comment).
pub open spec fn keep_line(t: Seq<char>) -> bool {
    t.len() > 0 && !starts_with(t, "%%"@)
}

/// The kept lines among the first `k` source lines, numbered from 1.
pub open spec fn numbered_upto(ls: Seq<Seq<char>>, k: int) -> Seq<(int, Seq<char>)>
    decreases k,
{
    if k <= 0 || k > ls.len() {
        seq![]
    } else {
        let prev = numbered_upto(ls, k - 1);
        let t = trim(ls[k - 1]);
        if keep_line(t) {
            prev.push((k, t))
        } else {
            prev
        }
    }
}

/// The content lines of a source: each line trimmed, blank and `%%`
/// comment lines dropped, tagged with its 1-based line number.
pub open spec fn numbered(src: Seq<char>) -> Seq<(int, Seq<char>)> {
    numbered_upto(lines(src), lines(src).len() as int)
}

pub fn numbered_of(src: &[char]) -> (r: Vec<Line>)
    ensures
        lines_view(r@) == numbered(src@),
        forall|i: int| 0 <= i < r@.len() ==> 1 <= #[trigger] r@[i].0 <= lines(src@).len(),
{
    let ls = lines_of(src);
    let mut out: Vec<Line> = Vec::new();
    let mut k: usize = 0;
    let pct = chars_of("%%");
    while k < ls.len()
        invariant
            k <= ls@.len(),
            views(ls@) == lines(src@),
            pct@ == "%%"@,
            lines_view(out@) == numbered_upto(lines(src@), k as int),
            forall|i: int| 0 <= i < out@.len() ==> 1 <= #[trigger] out@[i].0 <= k,
        decreases ls@.len() - k,
    {
        let t = trim_of(&ls[k]);
        assert(views(ls@)[k as int] == ls@[k as int]@);
        if t.len() > 0 && !starts_with_of(&t, &pct) {
            let ln: usize = k + 1;
            proof {
                lemma_lines_push(out@, (ln, t));
            }
            out.push((ln, t));
        }
        k += 1;
    }
    out
}

/// Rust's `char::is_alphanumeric` (Unicode `Alphabetic` or `Numeric`).
pub uninterp spec fn char_alnum(c: char) -> bool;

/// Calls std's `char::is_alphanumeric`; the result is named `char_alnum`.
/// Below `U+0080` the Unicode `Alphabetic` and `Numeric` properties hold
/// exactly for the ASCII letters and digits, which the second clause says;
/// above it the Unicode tables decide, and nothing more is claimed.
#[verifier::external_body]
pub(crate) fn is_alnum(c: char) -> (r: bool)
    ensures
        r == char_alnum(c),
        c <= '\u{7f}' ==> (r <==> ('a' <= c <= 'z' || 'A' <= c <= 'Z' || '0' <= c <= '9')),
{
    c.is_alphanumeric()
}

/* ---------------- label cleanup ---------------- */

/// Text up to the first of ` `, `/`, tab (the first piece of a split on them).
pub open spec fn tag_word(s: Seq<char>) -> Seq<char> {
    match find_any(s, seq![' ', '/', '\t']) {
        Some(k) => s.take(k),
        None => s,
    }
}

/// Lower-cased tag name of an HTML tag body.
pub open spec fn tag_name(tag: Seq<char>) -> Seq<char> {
    lower(tag_word(trim_start_matches(tag, '/')))
}

/// `src=".../icons/{pack}-{name}.svg"` inside an `<img>` tag body to the icon
/// `pack:name`. The second component is whether the tag is fatal: read by
/// byte, a non-ASCII character right after `src=` would be split inside.
pub open spec fn img_src_to_icon(tag: Seq<char>) -> (Option<Seq<char>>, bool) {
    match find(tag, "src="@) {
        None => (None, false),
        Some(at) => if at + 4 >= tag.len() {
            (None, false)
        } else if (tag[at + 4] as u32) >= 0x80 {
            (None, true)
        } else {
            let quote = tag[at + 4];
            let after = tag.skip(at + 5);
            match find(after, seq![quote]) {
                None => (None, false),
                Some(end) => {
                    let file_path = after.take(end);
                    let pieces = split_by(file_path, "/"@);
                    match strip_suffix(pieces.last(), ".svg"@) {
                        None => (None, false),
                        Some(file) => match split_once(file, "-"@) {
                            None => (None, false),
                            Some((pack, name)) => (Some(pack + ":"@ + name), false),
                        },
                    }
                },
            }
        },
    }
}

/// The tag-stripping scan of `sanitize_html_label`: text collected so far,
/// icon found so far, and the unscanned rest. Returns the raw text, the icon
/// and whether an `<img>` tag was fatal.
pub open spec fn html_scan(rest: Seq<char>, text: Seq<char>, icon: Option<Seq<char>>) -> (
    Seq<char>,
    Option<Seq<char>>,
    bool,
)
    decreases rest.len(),
{
    match find(rest, "<"@) {
        None => (text + rest, icon, false),
        Some(lt) => if 0 <= lt < rest.len() {
            let t1 = text + rest.take(lt);
            match find(rest.skip(lt), ">"@) {
                None => (t1 + rest.skip(lt), icon, false),
                Some(g) => if 0 < g && lt + g < rest.len() {
                    let tag = rest.subrange(lt + 1, lt + g);
                    let name = tag_name(tag);
                    let (t2, icon2, p) = if name == "br"@ {
                        (t1.push('\n'), icon, false)
                    } else if name == "img"@ && icon is None {
                        let (ic, p) = img_src_to_icon(tag);
                        (t1, ic, p)
                    } else {
                        (t1, icon, false)
                    };
                    let (tf, icf, pf) = html_scan(rest.skip(lt + g + 1), t2, icon2);
                    (tf, icf, p || pf)
                } else {
                    (t1, icon, false)
                },
            }
        } else {
            (text, icon, false)
        },
    }
}

/// The non-empty members of `ls`, in order.
pub open spec fn non_empty(ls: Seq<Seq<char>>) -> Seq<Seq<char>>
    decreases ls.len(),
{
    if ls.len() == 0 {
        seq![]
    } else if ls.last().len() > 0 {
        non_empty(ls.drop_last()).push(ls.last())
    } else {
        non_empty(ls.drop_last())
    }
}

/// Each line's whitespace runs collapsed to one space; empty lines dropped.
pub open spec fn collapse_lines(text: Seq<char>) -> Seq<char> {
    let ls = split_by(text, "\n"@).map_values(|l: Seq<char>| join(split_ws(l), " "@));
    join(non_empty(ls), "\n"@)
}

/// Mermaid-compat label cleanup: `<br>` becomes a newline, the first
/// `<img src=".../{pack}-{name}.svg">` becomes the icon `pack:name`, other
/// tags are dropped with their text kept, whitespace is collapsed per line.
/// The third component is whether the label is fatal (see `img_src_to_icon`).
pub open spec fn sanitize_html_label(label: Seq<char>) -> (Seq<char>, Option<Seq<char>>, bool) {
    if !contains(label, "<"@) {
        (label, None, false)
    } else {
        let (text, icon, p) = html_scan(label, seq![], None);
        (collapse_lines(text), icon, p)
    }
}

/// Edge labels: trimmed, quotes stripped, HTML reduced.
pub open spec fn clean_edge_label(raw: Seq<char>) -> (Seq<char>, bool) {
    let (t, _, p) = sanitize_html_label(trim_matches(trim(raw), '"'));
    (t, p)
}

/// Literal `\n` escapes become real newlines.
pub open spec fn unescape_newlines(label: Seq<char>) -> Seq<char> {
    replace(label, "\\n"@, "\n"@)
}

/// Pull `{icon:pack:name}` out of a label: (remaining text, icon).
pub open spec fn extract_icon(label: Seq<char>) -> (Seq<char>, Option<Seq<char>>) {
    match find(label, "{icon:"@) {
        None => (label, None),
        Some(start) => match find(label.skip(start), "}"@) {
            None => (label, None),
            Some(end_rel) => {
                let end = start + end_rel;
                let icon = trim(label.subrange(start + 6, end));
                let text = trim_end(label.take(start));
                let after = trim_start(label.skip(end + 1));
                let joined = if text.len() > 0 && after.len() > 0 {
                    text.push(' ') + after
                } else {
                    text + after
                };
                (trim(joined), Some(icon))
            },
        },
    }
}

pub fn img_src_to_icon_of(tag: &[char]) -> (r: (Option<Vec<char>>, bool))
    ensures
        img_src_to_icon(tag@) == (
            match r.0 {
                Some(v) => Some(v@),
                None => None,
            },
            r.1,
        ),
{
    proof {
        lemma_find(tag@, "src="@);
        reveal_strlit("src=");
    }
    let src = chars_of("src=");
    let at = match find_of(tag, &src) {
        Some(at) => at,
        None => return (None, false),
    };
    let n = tag.len();
    assert(at + 4 <= n);
    if at + 4 >= n {
        return (None, false);
    }
    let quote = tag[at + 4];
    if (quote as u32) >= 0x80 {
        return (None, true);
    }
    let after = slice_of(tag, at + 5, tag.len());
    let qv = vec![quote];
    assert(qv@ == seq![quote]);
    proof {
        lemma_find(after@, qv@);
    }
    let end = match find_of(&after, &qv) {
        Some(e) => e,
        None => return (None, false),
    };
    assert(qv@ == seq![quote]);
    let file_path = slice_of(&after, 0, end);
    proof {
        reveal_strlit("/");
        crate::text::lemma_split_by_nonempty(file_path@, "/"@);
    }
    let pieces = split_by_of(&file_path, &chars_of("/"));
    let last = &pieces[pieces.len() - 1];
    assert(views(pieces@).last() == last@);
    let file = match strip_suffix_of(last, &chars_of(".svg")) {
        Some(f) => f,
        None => return (None, false),
    };
    match split_once_of(&file, &chars_of("-")) {
        Some((pack, name)) => {
            let a = concat(&pack, &chars_of(":"));
            (Some(concat(&a, &name)), false)
        },
        None => (None, false),
    }
}


pub fn collapse_lines_of(text: &[char]) -> (r: Vec<char>)
    ensures
        r@ == collapse_lines(text@),
{
    proof {
        reveal_strlit("\n");
        reveal_strlit(" ");
    }
    let nl = chars_of("\n");
    let sp = chars_of(" ");
    let pieces = split_by_of(text, &nl);
    let ghost ls = split_by(text@, "\n"@).map_values(|l: Seq<char>| join(split_ws(l), " "@));
    let mut kept: Vec<Vec<char>> = Vec::new();
    let mut i: usize = 0;
    while i < pieces.len()
        invariant
            i <= pieces@.len(),
            views(pieces@) == split_by(text@, "\n"@),
            ls == split_by(text@, "\n"@).map_values(|l: Seq<char>| join(split_ws(l), " "@)),
            sp@ == " "@,
            views(kept@) == non_empty(ls.take(i as int)),
        decreases pieces@.len() - i,
    {
        assert(views(pieces@)[i as int] == pieces@[i as int]@);
        let words = split_ws_of(&pieces[i]);
        let line = join_of(&words, &sp);
        assert(ls[i as int] == line@);
        assert(ls.take(i + 1).drop_last() == ls.take(i as int));
        if line.len() > 0 {
            proof {
                lemma_views_push(kept@, line);
            }
            kept.push(line);
        }
        i += 1;
    }
    assert(ls.take(pieces@.len() as int) == ls);
    join_of(&kept, &nl)
}

fn html_scan_of(rest: &[char], text: Vec<char>, icon: Option<Vec<char>>) -> (r: (
    Vec<char>,
    Option<Vec<char>>,
    bool,
))
    ensures
        ({
            let s = html_scan(
                rest@,
                text@,
                match icon {
                    Some(v) => Some(v@),
                    None => None,
                },
            );
            s.0 == r.0@ && s.1 == (match r.1 {
                Some(v) => Some(v@),
                None => None,
            }) && s.2 == r.2
        }),
    decreases rest@.len(),
{
    proof {
        reveal_strlit("<");
        reveal_strlit(">");
        reveal_strlit("br");
        reveal_strlit("img");
        lemma_find(rest@, "<"@);
    }
    let n = rest.len();
    let lt = match find_of(rest, &chars_of("<")) {
        Some(lt) => lt,
        None => return (concat(&text, rest), icon, false),
    };
    assert(lt < n);
    let head = slice_of(rest, 0, lt);
    let t1 = concat(&text, &head);
    let from_lt = slice_of(rest, lt, n);
    assert(from_lt@ == rest@.skip(lt as int));
    proof {
        lemma_find(from_lt@, ">"@);
    }
    let g = match find_of(&from_lt, &chars_of(">")) {
        Some(g) => g,
        None => return (concat(&t1, &from_lt), icon, false),
    };
    assert(from_lt@.subrange(g as int, g + 1)[0] == from_lt@[g as int]);
    assert(from_lt@[0] == '<');
    assert(g > 0);
    assert(lt + g < n);
    let tag = slice_of(rest, lt + 1, lt + g);
    let stripped = trim_start_matches_of(&tag, '/');
    let seps = vec![' ', '/', '\t'];
    assert(seps@ == seq![' ', '/', '\t']);
    proof {
        crate::text::lemma_find_any_from(stripped@, seq![' ', '/', '\t'], 0);
    }
    let word = match find_any_of(&stripped, &seps) {
        Some(k) => slice_of(&stripped, 0, k),
        None => slice_of(&stripped, 0, stripped.len()),
    };
    assert(stripped@.subrange(0, stripped@.len() as int) == stripped@);
    let name = lower_of(&word);
    assert(name@ == tag_name(tag@));
    let tail = slice_of(rest, lt + g + 1, n);
    assert(tail@ == rest@.skip(lt + g + 1));
    if eq_of(&name, &chars_of("br")) {
        let mut t2 = t1;
        t2.push('\n');
        html_scan_of(&tail, t2, icon)
    } else if eq_of(&name, &chars_of("img")) && icon.is_none() {
        let (ic, p) = img_src_to_icon_of(&tag);
        let (tf, icf, pf) = html_scan_of(&tail, t1, ic);
        (tf, icf, p || pf)
    } else {
        html_scan_of(&tail, t1, icon)
    }
}

pub fn sanitize_html_label_of(label: &[char]) -> (r: (Vec<char>, Option<Vec<char>>, bool))
    ensures
        sanitize_html_label(label@).0 == r.0@,
        sanitize_html_label(label@).1 == (match r.1 {
            Some(v) => Some(v@),
            None => None,
        }),
        sanitize_html_label(label@).2 == r.2,
{
    if !contains_of(label, &chars_of("<")) {
        assert(label@.subrange(0, label@.len() as int) == label@);
        return (slice_of(label, 0, label.len()), None, false);
    }
    let empty: Vec<char> = Vec::new();
    assert(empty@ == Seq::<char>::empty());
    let (text, icon, p) = html_scan_of(label, empty, None);
    let cleaned = collapse_lines_of(&text);
    (cleaned, icon, p)
}

pub fn clean_edge_label_of(raw: &[char]) -> (r: (Vec<char>, bool))
    ensures
        (r.0@, r.1) == clean_edge_label(raw@),
{
    let t = trim_of(raw);
    let q = trim_matches_of(&t, '"');
    let (c, _, p) = sanitize_html_label_of(&q);
    (c, p)
}

pub fn unescape_newlines_of(label: &[char]) -> (r: Vec<char>)
    ensures
        r@ == unescape_newlines(label@),
{
    proof {
        reveal_strlit("\\n");
    }
    replace_of(label, &chars_of("\\n"), &chars_of("\n"))
}

pub fn extract_icon_of(label: &[char]) -> (r: (Vec<char>, Option<Vec<char>>))
    ensures
        extract_icon(label@).0 == r.0@,
        extract_icon(label@).1 == (match r.1 {
            Some(v) => Some(v@),
            None => None,
        }),
{
    proof {
        reveal_strlit("{icon:");
        reveal_strlit("}");
        lemma_find(label@, "{icon:"@);
    }
    let n = label.len();
    let whole = slice_of(label, 0, n);
    assert(label@.subrange(0, n as int) == label@);
    let start = match find_of(label, &chars_of("{icon:")) {
        Some(s) => s,
        None => return (whole, None),
    };
    let from = slice_of(label, start, n);
    proof {
        lemma_find(from@, "}"@);
    }
    let end_rel = match find_of(&from, &chars_of("}")) {
        Some(e) => e,
        None => return (whole, None),
    };
    let end = start + end_rel;
    assert(label@.subrange(start as int, start + 6) == "{icon:"@);
    assert(from@.subrange(end_rel as int, end_rel + 1)[0] == from@[end_rel as int]);
    assert(label@[end as int] == '}');
    assert(end >= start + 6) by {
        if end < start + 6 {
            assert(label@.subrange(start as int, start + 6)[end_rel as int] == label@[end as int]);
        }
    }
    let inner = slice_of(label, start + 6, end);
    let icon = trim_of(&inner);
    let before = slice_of(label, 0, start);
    let text = trim_end_of(&before);
    let after_raw = slice_of(label, end + 1, n);
    let after = trim_start_of(&after_raw);
    let joined = if text.len() > 0 && after.len() > 0 {
        let mut t = text;
        t.push(' ');
        concat(&t, &after)
    } else {
        concat(&text, &after)
    };
    (trim_of(&joined), Some(icon))
}

/* ---------------- entry points ---------------- */

/// Parse flowchart source into a graph, stopping at the first bad line.
pub fn parse(source: &str) -> (r: Result<crate::ir::graph::Graph, ParseError>)
    requires
        !flowchart::flowchart_strict(numbered(source@)).1,
    ensures
        match r {
            Ok(g) => flowchart::flowchart_strict(numbered(source@)).0 == Ok::<crate::ir::graph::GraphV, ErrV>(g@),
            Err(e) => flowchart::flowchart_strict(numbered(source@)).0 == Err::<crate::ir::graph::GraphV, ErrV>(e@),
        },
{
    match parse_checked(source) {
        Some(r) => r,
        None => {
            assert(false);
            Err(ParseError::syntax(0, &[]))
        },
    }
}

/// `parse`, or `None` exactly on the fatal sources
/// (a non-ASCII character right after `src=` in an `<img>` label tag).
pub fn parse_checked(source: &str) -> (r: Option<Result<crate::ir::graph::Graph, ParseError>>)
    ensures
        ({
            let t = flowchart::flowchart_strict(numbered(source@));
            match r {
                None => t.1,
                Some(Ok(g)) => !t.1 && t.0 == Ok::<crate::ir::graph::GraphV, ErrV>(g@),
                Some(Err(e)) => !t.1 && t.0 == Err::<crate::ir::graph::GraphV, ErrV>(e@),
            }
        }),
{
    let src = chars_of(source);
    let lines = numbered_of(&src);
    flowchart::parse_lines_checked(&lines)
}

} // verus!
