//! SVG output for the chart types whose geometry is exact in twentieths of a
//! pixel: the color themes, escaping, number formatting, and the timeline,
//! journey and git-graph renderers.

pub mod fmt;
pub mod theme;
pub mod linear;
pub mod gantt;

use vstd::prelude::*;
use crate::text::{chars_of, string_of};
use crate::render::theme::Theme;
use crate::ir::graph::EdgeKind;
use crate::ir::style::EdgeStyle;

verus! {

/// Appends the characters of `s`.
pub fn append(out: &mut Vec<char>, s: &[char])
    ensures
        final(out)@ == old(out)@ + s@,
{
    let ghost start = out@;
    let mut i: usize = 0;
    while i < s.len()
        invariant
            i <= s@.len(),
            out@ == start + s@.take(i as int),
        decreases s@.len() - i,
    {
        out.push(s[i]);
        assert(s@.take(i + 1) == s@.take(i as int).push(s@[i as int]));
        i += 1;
    }
    assert(s@.take(s@.len() as int) == s@);
}

/// Appends the characters of a string literal.
pub fn put(out: &mut Vec<char>, s: &str)
    ensures
        final(out)@ == old(out)@ + s@,
{
    let v = chars_of(s);
    append(out, &v);
}

/// XML escaping of one character.
pub open spec fn escape_char(c: char) -> Seq<char> {
    if c == '&' {
        "&amp;"@
    } else if c == '<' {
        "&lt;"@
    } else if c == '>' {
        "&gt;"@
    } else if c == '"' {
        "&quot;"@
    } else {
        seq![c]
    }
}

/// `&`, `<`, `>` and `"` replaced by their XML entities.
pub open spec fn escape_spec(s: Seq<char>) -> Seq<char>
    decreases s.len(),
{
    if s.len() == 0 {
        seq![]
    } else {
        escape_spec(s.drop_last()) + escape_char(s.last())
    }
}

pub fn escape_of(s: &[char]) -> (r: Vec<char>)
    ensures
        r@ == escape_spec(s@),
{
    let mut out: Vec<char> = Vec::new();
    let mut i: usize = 0;
    while i < s.len()
        invariant
            i <= s@.len(),
            out@ == escape_spec(s@.take(i as int)),
        decreases s@.len() - i,
    {
        let c = s[i];
        assert(s@.take(i + 1).drop_last() == s@.take(i as int));
        if c == '&' {
            put(&mut out, "&amp;");
        } else if c == '<' {
            put(&mut out, "&lt;");
        } else if c == '>' {
            put(&mut out, "&gt;");
        } else if c == '"' {
            put(&mut out, "&quot;");
        } else {
            out.push(c);
            assert(seq![c] == Seq::<char>::empty().push(c));
        }
        i += 1;
    }
    assert(s@.take(s@.len() as int) == s@);
    out
}

/// XML-escape text for element content and attribute values.
pub fn escape(s: &str) -> (r: String)
    ensures
        r@ == escape_spec(s@),
{
    let v = chars_of(s);
    string_of(&escape_of(&v))
}

/// Entity decoding: `&amp;`, `&lt;`, `&gt;` and `&quot;` back to the
/// characters they stand for, read left to right; anything else is kept.
pub open spec fn unescape_spec(t: Seq<char>) -> Seq<char>
    decreases t.len(),
{
    if t.len() == 0 {
        seq![]
    } else if t.len() >= 5 && t.take(5) == seq!['&', 'a', 'm', 'p', ';'] {
        seq!['&'] + unescape_spec(t.skip(5))
    } else if t.len() >= 4 && t.take(4) == seq!['&', 'l', 't', ';'] {
        seq!['<'] + unescape_spec(t.skip(4))
    } else if t.len() >= 4 && t.take(4) == seq!['&', 'g', 't', ';'] {
        seq!['>'] + unescape_spec(t.skip(4))
    } else if t.len() >= 6 && t.take(6) == seq!['&', 'q', 'u', 'o', 't', ';'] {
        seq!['"'] + unescape_spec(t.skip(6))
    } else {
        seq![t[0]] + unescape_spec(t.skip(1))
    }
}

proof fn lemma_escape_concat(a: Seq<char>, b: Seq<char>)
    ensures
        escape_spec(a + b) == escape_spec(a) + escape_spec(b),
    decreases b.len(),
{
    if b.len() == 0 {
        assert(a + b =~= a);
        assert(escape_spec(a) + escape_spec(b) =~= escape_spec(a));
    } else {
        lemma_escape_concat(a, b.drop_last());
        assert((a + b).drop_last() =~= a + b.drop_last());
        assert((a + b).last() == b.last());
        assert(escape_spec(a) + escape_spec(b) =~= escape_spec(a) + escape_spec(b.drop_last())
            + escape_char(b.last()));
    }
}

proof fn lemma_escape_char_strings(c: char)
    ensures
        c == '&' ==> escape_char(c) == seq!['&', 'a', 'm', 'p', ';'],
        c == '<' ==> escape_char(c) == seq!['&', 'l', 't', ';'],
        c == '>' ==> escape_char(c) == seq!['&', 'g', 't', ';'],
        c == '"' ==> escape_char(c) == seq!['&', 'q', 'u', 'o', 't', ';'],
{
    reveal_strlit("&amp;");
    reveal_strlit("&lt;");
    reveal_strlit("&gt;");
    reveal_strlit("&quot;");
    assert("&amp;"@ =~= seq!['&', 'a', 'm', 'p', ';']);
    assert("&lt;"@ =~= seq!['&', 'l', 't', ';']);
    assert("&gt;"@ =~= seq!['&', 'g', 't', ';']);
    assert("&quot;"@ =~= seq!['&', 'q', 'u', 'o', 't', ';']);
}

proof fn lemma_unescape_escape(s: Seq<char>)
    ensures
        unescape_spec(escape_spec(s)) == s,
    decreases s.len(),
{
    if s.len() > 0 {
        let c = s[0];
        let rest = s.skip(1);
        lemma_unescape_escape(rest);
        assert(s =~= seq![c] + rest);
        lemma_escape_concat(seq![c], rest);
        assert(seq![c].drop_last() =~= Seq::<char>::empty());
        assert(escape_spec(Seq::<char>::empty()) == Seq::<char>::empty());
        assert(escape_spec(seq![c]) == escape_spec(Seq::<char>::empty()) + escape_char(c));
        assert(Seq::<char>::empty() + escape_char(c) =~= escape_char(c));
        let e = escape_spec(rest);
        let t = escape_char(c) + e;
        assert(escape_spec(s) == t);
        lemma_escape_char_strings(c);
        if c == '&' {
            assert(t.take(5) =~= escape_char(c));
            assert(t.skip(5) =~= e);
        } else if c == '<' {
            assert(t.take(4) =~= escape_char(c));
            assert(t.skip(4) =~= e);
            assert(t[1] == 'l');
            assert(!(t.len() >= 5 && t.take(5) == seq!['&', 'a', 'm', 'p', ';'])) by {
                if t.len() >= 5 && t.take(5) == seq!['&', 'a', 'm', 'p', ';'] {
                    assert(t.take(5)[1] == t[1]);
                }
            }
        } else if c == '>' {
            assert(t.take(4) =~= escape_char(c));
            assert(t.skip(4) =~= e);
            assert(t[1] == 'g');
            assert(!(t.len() >= 5 && t.take(5) == seq!['&', 'a', 'm', 'p', ';'])) by {
                if t.len() >= 5 && t.take(5) == seq!['&', 'a', 'm', 'p', ';'] {
                    assert(t.take(5)[1] == t[1]);
                }
            }
            assert(!(t.len() >= 4 && t.take(4) == seq!['&', 'l', 't', ';'])) by {
                if t.len() >= 4 && t.take(4) == seq!['&', 'l', 't', ';'] {
                    assert(t.take(4)[1] == t[1]);
                }
            }
        } else if c == '"' {
            assert(t.take(6) =~= escape_char(c));
            assert(t.skip(6) =~= e);
            assert(t[1] == 'q');
            assert(!(t.len() >= 5 && t.take(5) == seq!['&', 'a', 'm', 'p', ';'])) by {
                if t.len() >= 5 && t.take(5) == seq!['&', 'a', 'm', 'p', ';'] {
                    assert(t.take(5)[1] == t[1]);
                }
            }
            assert(!(t.len() >= 4 && t.take(4) == seq!['&', 'l', 't', ';'])) by {
                if t.len() >= 4 && t.take(4) == seq!['&', 'l', 't', ';'] {
                    assert(t.take(4)[1] == t[1]);
                }
            }
            assert(!(t.len() >= 4 && t.take(4) == seq!['&', 'g', 't', ';'])) by {
                if t.len() >= 4 && t.take(4) == seq!['&', 'g', 't', ';'] {
                    assert(t.take(4)[1] == t[1]);
                }
            }
        } else {
            assert(t[0] == c);
            assert(t.skip(1) =~= e);
            assert(!(t.len() >= 5 && t.take(5) == seq!['&', 'a', 'm', 'p', ';'])) by {
                if t.len() >= 5 && t.take(5) == seq!['&', 'a', 'm', 'p', ';'] {
                    assert(t.take(5)[0] == t[0]);
                }
            }
            assert(!(t.len() >= 4 && t.take(4) == seq!['&', 'l', 't', ';'])) by {
                if t.len() >= 4 && t.take(4) == seq!['&', 'l', 't', ';'] {
                    assert(t.take(4)[0] == t[0]);
                }
            }
            assert(!(t.len() >= 4 && t.take(4) == seq!['&', 'g', 't', ';'])) by {
                if t.len() >= 4 && t.take(4) == seq!['&', 'g', 't', ';'] {
                    assert(t.take(4)[0] == t[0]);
                }
            }
            assert(!(t.len() >= 6 && t.take(6) == seq!['&', 'q', 'u', 'o', 't', ';'])) by {
                if t.len() >= 6 && t.take(6) == seq!['&', 'q', 'u', 'o', 't', ';'] {
                    assert(t.take(6)[0] == t[0]);
                }
            }
        }
    }
}

proof fn lemma_escape_safe(s: Seq<char>)
    ensures
        forall|i: int|
            0 <= i < escape_spec(s).len() ==> #[trigger] escape_spec(s)[i] != '<' && escape_spec(s)[i]
                != '>' && escape_spec(s)[i] != '"',
        (forall|i: int|
            0 <= i < s.len() ==> #[trigger] s[i] != '&' && s[i] != '<' && s[i] != '>' && s[i] != '"')
            ==> escape_spec(s) == s,
    decreases s.len(),
{
    if s.len() > 0 {
        let p = s.drop_last();
        let c = s.last();
        lemma_escape_safe(p);
        lemma_escape_char_strings(c);
        let a = escape_spec(p);
        let b = escape_char(c);
        assert forall|i: int| 0 <= i < (a + b).len() implies #[trigger] (a + b)[i] != '<' && (a + b)[i]
            != '>' && (a + b)[i] != '"' by {
            if i >= a.len() {
                assert((a + b)[i] == b[i - a.len()]);
            } else {
                assert((a + b)[i] == a[i]);
            }
        }
        if forall|i: int| 0 <= i < s.len() ==> #[trigger] s[i] != '&' && s[i] != '<' && s[i] != '>' && s[i] != '"' {
            assert forall|i: int| 0 <= i < p.len() implies #[trigger] p[i] != '&' && p[i] != '<' && p[i]
                != '>' && p[i] != '"' by {
                assert(p[i] == s[i]);
            }
            assert(s[s.len() - 1] == c);
            assert(a + b =~= s);
        }
    }
}

/// `t` with every occurrence of `p` replaced by `r`, scanning from the left
/// without overlap, as `str::replace` does.
pub open spec fn replaced(t: Seq<char>, p: Seq<char>, r: Seq<char>) -> Seq<char>
    decreases t.len(),
{
    if t.len() == 0 {
        seq![]
    } else if p.len() > 0 && p.len() <= t.len() && t.take(p.len() as int) == p {
        r + replaced(t.skip(p.len() as int), p, r)
    } else {
        seq![t[0]] + replaced(t.skip(1), p, r)
    }
}

/// The pieces `f(c)` of the characters of `s`, joined from the left.
spec fn joined(s: Seq<char>, f: spec_fn(char) -> Seq<char>) -> Seq<char>
    decreases s.len(),
{
    if s.len() == 0 {
        seq![]
    } else {
        f(s[0]) + joined(s.skip(1), f)
    }
}

/// A piece that holds `&` at most at its start, and that, where it starts
/// with `&`, is `p` or differs from `p` in its second character.
spec fn piece_ok(x: Seq<char>, p: Seq<char>) -> bool {
    &&& forall|i: int| 1 <= i < x.len() ==> #[trigger] x[i] != '&'
    &&& (x.len() > 0 && x[0] == '&') ==> (x == p || (x.len() >= 2 && x[1] != p[1]))
}

proof fn lemma_replaced_plain(x: Seq<char>, rest: Seq<char>, p: Seq<char>, r: Seq<char>)
    requires
        p.len() >= 2,
        p[0] == '&',
        forall|i: int| 0 <= i < x.len() ==> #[trigger] x[i] != '&',
    ensures
        replaced(x + rest, p, r) == x + replaced(rest, p, r),
    decreases x.len(),
{
    let t = x + rest;
    if x.len() == 0 {
        assert(t =~= rest);
    } else {
        assert(t[0] == x[0]);
        if p.len() <= t.len() {
            assert(t.take(p.len() as int)[0] == t[0]);
        }
        assert(t.skip(1) =~= x.skip(1) + rest);
        lemma_replaced_plain(x.skip(1), rest, p, r);
        assert(seq![x[0]] + (x.skip(1) + replaced(rest, p, r)) =~= x + replaced(rest, p, r));
    }
}

proof fn lemma_replaced_piece(x: Seq<char>, rest: Seq<char>, p: Seq<char>, r: Seq<char>)
    requires
        p.len() >= 2,
        p[0] == '&',
        piece_ok(x, p),
    ensures
        replaced(x + rest, p, r) == (if x == p {
            r
        } else {
            x
        }) + replaced(rest, p, r),
{
    let t = x + rest;
    if x == p {
        assert(t.take(p.len() as int) =~= p);
        assert(t.skip(p.len() as int) =~= rest);
    } else if x.len() > 0 && x[0] == '&' {
        assert(t[1] == x[1]);
        if p.len() <= t.len() {
            assert(t.take(p.len() as int)[1] == t[1]);
        }
        assert(t.skip(1) =~= x.skip(1) + rest);
        assert forall|i: int| 0 <= i < x.skip(1).len() implies #[trigger] x.skip(1)[i] != '&' by {
            assert(x.skip(1)[i] == x[i + 1]);
        }
        lemma_replaced_plain(x.skip(1), rest, p, r);
        assert(seq![t[0]] + (x.skip(1) + replaced(rest, p, r)) =~= x + replaced(rest, p, r));
    } else {
        assert forall|i: int| 0 <= i < x.len() implies #[trigger] x[i] != '&' by {
            if i >= 1 {
                assert(x[i] != '&');
            }
        }
        lemma_replaced_plain(x, rest, p, r);
    }
}

proof fn lemma_replaced_joined(
    s: Seq<char>,
    f: spec_fn(char) -> Seq<char>,
    g: spec_fn(char) -> Seq<char>,
    p: Seq<char>,
    r: Seq<char>,
)
    requires
        p.len() >= 2,
        p[0] == '&',
        forall|c: char| piece_ok(#[trigger] f(c), p),
        forall|c: char|
            #[trigger] g(c) == (if f(c) == p {
                r
            } else {
                f(c)
            }),
    ensures
        replaced(joined(s, f), p, r) == joined(s, g),
    decreases s.len(),
{
    if s.len() > 0 {
        lemma_replaced_joined(s.skip(1), f, g, p, r);
        lemma_replaced_piece(f(s[0]), joined(s.skip(1), f), p, r);
    }
}

proof fn lemma_joined_escape(s: Seq<char>)
    ensures
        joined(s, |c: char| escape_char(c)) == escape_spec(s),
    decreases s.len(),
{
    if s.len() > 0 {
        let c = s[0];
        let rest = s.skip(1);
        lemma_joined_escape(rest);
        assert(s =~= seq![c] + rest);
        lemma_escape_concat(seq![c], rest);
        assert(seq![c].drop_last() =~= Seq::<char>::empty());
        assert(escape_spec(seq![c]) == escape_spec(Seq::<char>::empty()) + escape_char(c));
        assert(Seq::<char>::empty() + escape_char(c) =~= escape_char(c));
    }
}

proof fn lemma_joined_self(s: Seq<char>)
    ensures
        joined(s, |c: char| seq![c]) == s,
    decreases s.len(),
{
    if s.len() > 0 {
        lemma_joined_self(s.skip(1));
        assert(seq![s[0]] + s.skip(1) =~= s);
    }
}

/// Decoding escaped text with `str::replace`, in the order `&lt;`, `&gt;`,
/// `&quot;` and then `&amp;`, gives the text back.
proof fn lemma_escape_replace(s: Seq<char>)
    ensures
        replaced(
            replaced(
                replaced(replaced(escape_spec(s), "&lt;"@, "<"@), "&gt;"@, ">"@),
                "&quot;"@,
                "\""@,
            ),
            "&amp;"@,
            "&"@,
        ) == s,
{
    reveal_strlit("&amp;");
    reveal_strlit("&lt;");
    reveal_strlit("&gt;");
    reveal_strlit("&quot;");
    reveal_strlit("&");
    reveal_strlit("<");
    reveal_strlit(">");
    reveal_strlit("\"");
    let amp = "&amp;"@;
    let lt = "&lt;"@;
    let gt = "&gt;"@;
    let quot = "&quot;"@;
    assert(amp =~= seq!['&', 'a', 'm', 'p', ';']);
    assert(lt =~= seq!['&', 'l', 't', ';']);
    assert(gt =~= seq!['&', 'g', 't', ';']);
    assert(quot =~= seq!['&', 'q', 'u', 'o', 't', ';']);
    assert("<"@ =~= seq!['<']);
    assert(">"@ =~= seq!['>']);
    assert("\""@ =~= seq!['"']);
    assert("&"@ =~= seq!['&']);
    let f0 = |c: char| escape_char(c);
    let f1 = |c: char| if c == '<' { seq![c] } else { escape_char(c) };
    let f2 = |c: char| if c == '<' || c == '>' { seq![c] } else { escape_char(c) };
    let f3 = |c: char| if c != '&' { seq![c] } else { escape_char(c) };
    let f4 = |c: char| seq![c];
    assert forall|c: char| piece_ok(#[trigger] f0(c), lt) && piece_ok(f1(c), gt) && piece_ok(f2(c), quot)
        && piece_ok(f3(c), amp) by {
        lemma_escape_char_strings(c);
    }
    assert forall|c: char| #[trigger] f1(c) == (if f0(c) == lt { "<"@ } else { f0(c) }) by {
        lemma_escape_char_strings(c);
        if c != '<' && f0(c) == lt {
            assert(f0(c)[1] == lt[1]);
        }
    }
    assert forall|c: char| #[trigger] f2(c) == (if f1(c) == gt { ">"@ } else { f1(c) }) by {
        lemma_escape_char_strings(c);
        if c != '>' && f1(c) == gt {
            assert(f1(c)[1] == gt[1]);
        }
    }
    assert forall|c: char| #[trigger] f3(c) == (if f2(c) == quot { "\""@ } else { f2(c) }) by {
        lemma_escape_char_strings(c);
        if c != '"' && f2(c) == quot {
            assert(f2(c)[1] == quot[1]);
        }
    }
    assert forall|c: char| #[trigger] f4(c) == (if f3(c) == amp { "&"@ } else { f3(c) }) by {
        lemma_escape_char_strings(c);
        if c != '&' && f3(c) == amp {
            assert(f3(c)[0] == amp[0]);
        }
    }
    lemma_joined_escape(s);
    lemma_replaced_joined(s, f0, f1, lt, "<"@);
    lemma_replaced_joined(s, f1, f2, gt, ">"@);
    lemma_replaced_joined(s, f2, f3, quot, "\""@);
    lemma_replaced_joined(s, f3, f4, amp, "&"@);
    lemma_joined_self(s);
}

/// Escaped text holds no `<`, `>` or `"`; decoding its entities gives the
/// text back, whether read left to right or replaced as `&lt;`, `&gt;`,
/// `&quot;` and then `&amp;`; and text holding none of `&`, `<`, `>`, `"`
/// is left as it is.
pub proof fn law_escape_roundtrip(s: Seq<char>)
    ensures
        forall|i: int|
            0 <= i < escape_spec(s).len() ==> #[trigger] escape_spec(s)[i] != '<' && escape_spec(s)[i]
                != '>' && escape_spec(s)[i] != '"',
        unescape_spec(escape_spec(s)) == s,
        (forall|i: int|
            0 <= i < s.len() ==> #[trigger] s[i] != '&' && s[i] != '<' && s[i] != '>' && s[i] != '"')
            ==> escape_spec(s) == s,
        replaced(
            replaced(
                replaced(replaced(escape_spec(s), "&lt;"@, "<"@), "&gt;"@, ">"@),
                "&quot;"@,
                "\""@,
            ),
            "&amp;"@,
            "&"@,
        ) == s,
{
    lemma_escape_safe(s);
    lemma_unescape_escape(s);
    lemma_escape_replace(s);
}

/// The dash attribute of an edge path: dashed and dotted edges carry their
/// own pattern; an animated edge without one gets the `8 4` pattern that
/// its animation scrolls; any other edge is drawn solid.
pub open spec fn edge_dash_spec(style: EdgeStyle, animated: bool) -> Seq<char> {
    match style {
        EdgeStyle::Dashed => " stroke-dasharray=\"7 5\""@,
        EdgeStyle::Dotted => " stroke-dasharray=\"2 4\""@,
        _ => if animated {
            " stroke-dasharray=\"8 4\""@
        } else {
            ""@
        },
    }
}

/// The dash attribute of an edge path (see `edge_dash_spec`).
pub fn edge_dash(style: EdgeStyle, animated: bool) -> (r: &'static str)
    ensures
        r@ == edge_dash_spec(style, animated),
{
    match style {
        EdgeStyle::Dashed => " stroke-dasharray=\"7 5\"",
        EdgeStyle::Dotted => " stroke-dasharray=\"2 4\"",
        _ => if animated {
            " stroke-dasharray=\"8 4\""
        } else {
            ""
        },
    }
}

/// The end-marker attributes of an edge path: arrowheads at the target (and
/// the source, for two-way edges); the UML triangle and diamonds at the
/// source; none for an open link.
pub open spec fn edge_markers_spec(kind: EdgeKind) -> Seq<char> {
    match kind {
        EdgeKind::Arrow => " marker-end=\"url(#arrow)\""@,
        EdgeKind::Bidirectional => " marker-end=\"url(#arrow)\" marker-start=\"url(#arrow)\""@,
        EdgeKind::Open => ""@,
        EdgeKind::Triangle => " marker-start=\"url(#triangle)\""@,
        EdgeKind::DiamondFilled => " marker-start=\"url(#diamond-filled)\""@,
        EdgeKind::DiamondOpen => " marker-start=\"url(#diamond-open)\""@,
    }
}

/// The end-marker attributes of an edge path (see `edge_markers_spec`).
pub fn edge_markers(kind: EdgeKind) -> (r: &'static str)
    ensures
        r@ == edge_markers_spec(kind),
{
    match kind {
        EdgeKind::Arrow => " marker-end=\"url(#arrow)\"",
        EdgeKind::Bidirectional => " marker-end=\"url(#arrow)\" marker-start=\"url(#arrow)\"",
        EdgeKind::Open => "",
        EdgeKind::Triangle => " marker-start=\"url(#triangle)\"",
        EdgeKind::DiamondFilled => " marker-start=\"url(#diamond-filled)\"",
        EdgeKind::DiamondOpen => " marker-start=\"url(#diamond-open)\"",
    }
}

/// The font list every diagram declares.
pub open spec fn font_stack() -> Seq<char> {
    "Inter, 'Helvetica Neue', Arial, sans-serif"@
}

/// The eight-color categorical palette, cycled by index.
pub open spec fn palette(i: int) -> Seq<char> {
    let k = i % 8;
    if k == 0 {
        "#3b82f6"@
    } else if k == 1 {
        "#8b5cf6"@
    } else if k == 2 {
        "#f59e0b"@
    } else if k == 3 {
        "#10b981"@
    } else if k == 4 {
        "#ef4444"@
    } else if k == 5 {
        "#06b6d4"@
    } else if k == 6 {
        "#ec4899"@
    } else {
        "#84cc16"@
    }
}

pub fn palette_of(i: usize) -> (r: &'static str)
    ensures
        r@ == palette(i as int),
{
    let k = i % 8;
    if k == 0 {
        "#3b82f6"
    } else if k == 1 {
        "#8b5cf6"
    } else if k == 2 {
        "#f59e0b"
    } else if k == 3 {
        "#10b981"
    } else if k == 4 {
        "#ef4444"
    } else if k == 5 {
        "#06b6d4"
    } else if k == 6 {
        "#ec4899"
    } else {
        "#84cc16"
    }
}

/// Placeholder drawing for a chart with nothing to show.
pub open spec fn empty_svg(message: Seq<char>) -> Seq<char> {
    "<svg xmlns=\"http://www.w3.org/2000/svg\" viewBox=\"0 0 220 60\" width=\"220\" height=\"60\"><text x=\"110\" y=\"30\" text-anchor=\"middle\" font-size=\"13\">"@
        + message + "</text></svg>"@
}

pub fn empty_svg_of(message: &str) -> (r: Vec<char>)
    ensures
        r@ == empty_svg(message@),
{
    let mut out = chars_of(
        "<svg xmlns=\"http://www.w3.org/2000/svg\" viewBox=\"0 0 220 60\" width=\"220\" height=\"60\"><text x=\"110\" y=\"30\" text-anchor=\"middle\" font-size=\"13\">",
    );
    put(&mut out, message);
    put(&mut out, "</text></svg>");
    out
}

/// The shared marker definitions of a graph drawing: the filled arrow, the
/// hollow inheritance triangle and the filled / hollow diamonds, stroked in
/// `edge` and hollowed with `fill`.
pub open spec fn defs_spec(edge: Seq<char>, fill: Seq<char>) -> Seq<char> {
    "<defs><marker id=\"arrow\" viewBox=\"0 0 10 10\" refX=\"9\" refY=\"5\" markerWidth=\"7\" markerHeight=\"7\" orient=\"auto-start-reverse\"><path d=\"M0 0L10 5L0 10z\" fill=\""@
        + edge
        + "\"/></marker><marker id=\"triangle\" viewBox=\"0 0 12 12\" refX=\"11\" refY=\"6\" markerWidth=\"11\" markerHeight=\"11\" orient=\"auto-start-reverse\"><path d=\"M1 1L11 6L1 11z\" fill=\""@
        + fill + "\" stroke=\""@ + edge
        + "\" stroke-width=\"1.2\"/></marker><marker id=\"diamond-filled\" viewBox=\"0 0 14 10\" refX=\"1\" refY=\"5\" markerWidth=\"13\" markerHeight=\"9\" orient=\"auto\"><path d=\"M1 5L7 1L13 5L7 9z\" fill=\""@
        + edge
        + "\"/></marker><marker id=\"diamond-open\" viewBox=\"0 0 14 10\" refX=\"1\" refY=\"5\" markerWidth=\"13\" markerHeight=\"9\" orient=\"auto\"><path d=\"M1 5L7 1L13 5L7 9z\" fill=\""@
        + fill + "\" stroke=\""@ + edge + "\" stroke-width=\"1.2\"/></marker></defs>"@
}

/// Append the marker definitions for `theme` (see `defs_spec`).
pub fn write_defs(svg: &mut Vec<char>, theme: &Theme)
    ensures
        final(svg)@ == old(svg)@ + defs_spec(theme.edge@, theme.node_fill@),
{
    let e = theme.edge;
    let bg = theme.node_fill;
    put(svg, "<defs><marker id=\"arrow\" viewBox=\"0 0 10 10\" refX=\"9\" refY=\"5\" markerWidth=\"7\" markerHeight=\"7\" orient=\"auto-start-reverse\"><path d=\"M0 0L10 5L0 10z\" fill=\"");
    put(svg, e);
    put(svg, "\"/></marker><marker id=\"triangle\" viewBox=\"0 0 12 12\" refX=\"11\" refY=\"6\" markerWidth=\"11\" markerHeight=\"11\" orient=\"auto-start-reverse\"><path d=\"M1 1L11 6L1 11z\" fill=\"");
    put(svg, bg);
    put(svg, "\" stroke=\"");
    put(svg, e);
    put(svg, "\" stroke-width=\"1.2\"/></marker><marker id=\"diamond-filled\" viewBox=\"0 0 14 10\" refX=\"1\" refY=\"5\" markerWidth=\"13\" markerHeight=\"9\" orient=\"auto\"><path d=\"M1 5L7 1L13 5L7 9z\" fill=\"");
    put(svg, e);
    put(svg, "\"/></marker><marker id=\"diamond-open\" viewBox=\"0 0 14 10\" refX=\"1\" refY=\"5\" markerWidth=\"13\" markerHeight=\"9\" orient=\"auto\"><path d=\"M1 5L7 1L13 5L7 9z\" fill=\"");
    put(svg, bg);
    put(svg, "\" stroke=\"");
    put(svg, e);
    put(svg, "\" stroke-width=\"1.2\"/></marker></defs>");
}

/// Fill color of a sequence-diagram background block: the color as written,
/// except on a dark theme, where the light pastel fills such blocks carry
/// give way to the theme's translucent cluster panel.
pub fn css_color(raw: &str, theme: &Theme) -> (r: String)
    ensures
        r@ == if theme.is_dark {
            theme.cluster_fill@
        } else {
            raw@
        },
{
    if theme.is_dark {
        return string_of(chars_of(theme.cluster_fill).as_slice());
    }
    string_of(chars_of(raw).as_slice())
}

/* ---------------- counting circles ---------------- */

/// The opening of a circle element.
pub open spec fn circle_tag() -> Seq<char> {
    seq!['<', 'c', 'i', 'r', 'c', 'l', 'e']
}

/// How many times `<circle` occurs in `t`.
pub open spec fn circles(t: Seq<char>) -> nat
    decreases t.len(),
{
    if t.len() == 0 {
        0
    } else {
        circles(t.drop_last()) + if t.len() >= 7 && t.skip(t.len() - 7) == circle_tag() {
            1nat
        } else {
            0nat
        }
    }
}

/// No `<` in `t`.
pub open spec fn no_lt(t: Seq<char>) -> bool {
    forall|i: int| 0 <= i < t.len() ==> #[trigger] t[i] != '<'
}

/// No `<` in `t` is followed by `c`, and `t` does not end with `<`.
pub open spec fn tagfree(t: Seq<char>) -> bool {
    &&& forall|i: int| 0 <= i < t.len() - 1 && #[trigger] t[i] == '<' ==> t[i + 1] != 'c'
    &&& t.len() > 0 ==> t[t.len() - 1] != '<'
}

pub broadcast proof fn lemma_tagfree_concat(a: Seq<char>, b: Seq<char>)
    requires
        tagfree(a),
        tagfree(b),
    ensures
        #[trigger] tagfree(a + b),
{
    let t = a + b;
    assert forall|i: int| 0 <= i < t.len() - 1 && #[trigger] t[i] == '<' implies t[i + 1] != 'c' by {
        if i < a.len() - 1 {
            assert(t[i] == a[i] && t[i + 1] == a[i + 1]);
        } else if i == a.len() - 1 {
            assert(t[i] == a[a.len() - 1]);
        } else {
            assert(t[i] == b[i - a.len()] && t[i + 1] == b[i + 1 - a.len()]);
        }
    }
    if t.len() > 0 {
        if b.len() > 0 {
            assert(t[t.len() - 1] == b[b.len() - 1]);
        } else {
            assert(t[t.len() - 1] == a[a.len() - 1]);
        }
    }
}

pub broadcast proof fn lemma_no_lt_tagfree(t: Seq<char>)
    requires
        no_lt(t),
    ensures
        #[trigger] tagfree(t),
{
    if t.len() > 0 {
        assert(t[t.len() - 1] != '<');
    }
}

/// Text in which no `<` is followed by `c` counts no circle.
pub proof fn lemma_tagfree_circles(t: Seq<char>)
    requires
        forall|i: int| 0 <= i < t.len() - 1 && #[trigger] t[i] == '<' ==> t[i + 1] != 'c',
    ensures
        circles(t) == 0,
    decreases t.len(),
{
    if t.len() > 0 {
        let p = t.drop_last();
        assert forall|i: int| 0 <= i < p.len() - 1 && #[trigger] p[i] == '<' implies p[i + 1] != 'c' by {
            assert(p[i] == t[i]);
            assert(p[i + 1] == t[i + 1]);
        }
        lemma_tagfree_circles(p);
        if t.len() >= 7 && t.skip(t.len() - 7) == circle_tag() {
            let k = t.len() - 7;
            assert(t.skip(k)[0] == t[k]);
            assert(t.skip(k)[1] == t[k + 1]);
        }
    }
}

/// Text shorter than the tag counts no circle.
proof fn lemma_short_circles(t: Seq<char>)
    requires
        t.len() < 7,
    ensures
        circles(t) == 0,
    decreases t.len(),
{
    if t.len() > 0 {
        lemma_short_circles(t.drop_last());
    }
}

/// Text ending in a character that cannot start or continue the tag.
pub open spec fn clean_end(a: Seq<char>) -> bool {
    a.len() == 0 || {
        let c = a[a.len() - 1];
        c != '<' && c != 'c' && c != 'i' && c != 'r' && c != 'l'
    }
}

/// Counting across a clean boundary adds up.
pub proof fn lemma_circles_concat(a: Seq<char>, b: Seq<char>)
    requires
        clean_end(a),
    ensures
        circles(a + b) == circles(a) + circles(b),
    decreases b.len(),
{
    if b.len() == 0 {
        assert(a + b =~= a);
    } else {
        let t = a + b;
        lemma_circles_concat(a, b.drop_last());
        assert(t.drop_last() =~= a + b.drop_last());
        if b.len() >= 7 {
            assert(t.skip(t.len() - 7) =~= b.skip(b.len() - 7));
        } else if t.len() >= 7 && t.skip(t.len() - 7) == circle_tag() {
            let k = 7 - b.len();
            assert(t.skip(t.len() - 7)[k - 1] == t[a.len() - 1]);
            assert(t[a.len() - 1] == a[a.len() - 1]);
        }
    }
}

/// The tag followed by tag-free text counts one circle.
pub proof fn lemma_one_circle(rest: Seq<char>)
    requires
        tagfree(rest),
    ensures
        circles(circle_tag() + rest) == 1,
{
    let tag = circle_tag();
    lemma_short_circles(tag.drop_last());
    assert(tag.skip(0) =~= tag);
    assert(circles(tag) == 1);
    lemma_tagfree_circles(rest);
    lemma_circles_concat(tag, rest);
}

pub proof fn lemma_escape_no_lt(s: Seq<char>)
    ensures
        no_lt(escape_spec(s)),
{
    lemma_escape_safe(s);
}

pub proof fn lemma_dec_no_lt(n: nat)
    ensures
        no_lt(crate::text::dec(n)),
    decreases n,
{
    let d = crate::text::dec(n);
    if n >= 10 {
        lemma_dec_no_lt(n / 10);
        assert forall|i: int| 0 <= i < d.len() implies #[trigger] d[i] != '<' by {
            if i < d.len() - 1 {
                assert(d[i] == crate::text::dec(n / 10)[i]);
            } else {
                assert(d[i] as u32 == 48 + n % 10);
            }
        }
    } else {
        assert(d[0] as u32 == 48 + n);
    }
}

} // verus!
