//! Pie chart parser: header flags, title, and `"Label" : value` slices. The
//! value text is returned as written; reading it as a number is left to the
//! caller.

use vstd::prelude::*;
use crate::ir::charts::{PieSource, PieSourceV};
use crate::parser::{errs_view, lemma_errs_push, lines_view, ErrV, Line, ParseError};
use crate::text::{
    chars_of, concat, eq_of, lemma_find, lemma_find_from_first, split_once, split_once_of,
    string_of, strip_prefix, strip_prefix_of, trim, trim_of,
};

verus! {

/// The header after `pie`: optional `showData`, then optional `title ...`.
pub open spec fn pie_header(rest0: Seq<char>) -> PieSourceV {
    let rest = trim(rest0);
    let (show, rest2) = match strip_prefix(rest, "showData"@) {
        Some(r) => (true, trim(r)),
        None => (false, rest),
    };
    PieSourceV {
        title: match strip_prefix(rest2, "title "@) {
            Some(t) => Some(trim(t)),
            None => None,
        },
        show_data: show,
        slices: seq![],
    }
}

/// `"Label" : value` to the label and the trimmed value text.
pub open spec fn pie_slice(line: Seq<char>) -> Option<(Seq<char>, Seq<char>)> {
    match strip_prefix(line, "\""@) {
        None => None,
        Some(rest) => match split_once(rest, "\""@) {
            None => None,
            Some((label, after)) => match strip_prefix(trim(after), ":"@) {
                None => None,
                Some(v) => Some((label, trim(v))),
            },
        },
    }
}

/// One body line: `title ...`, `showData`, or a slice.
pub open spec fn pie_line(p: PieSourceV, ln: int, line: Seq<char>) -> (PieSourceV, Option<ErrV>) {
    match strip_prefix(line, "title "@) {
        Some(t) => (PieSourceV { title: Some(trim(t)), ..p }, None),
        None => if line == "showData"@ {
            (PieSourceV { show_data: true, ..p }, None)
        } else {
            match pie_slice(line) {
                Some((label, value)) => (PieSourceV { slices: p.slices.push((label, value, ln)), ..p }, None),
                None => (p, Some(ErrV { line: ln, message: "cannot parse pie slice '"@ + line + "'"@ })),
            }
        },
    }
}

pub open spec fn pie_upto(header: Seq<char>, ls: Seq<(int, Seq<char>)>, k: int) -> (PieSourceV, Seq<ErrV>)
    decreases k,
{
    if k <= 0 || k > ls.len() {
        (pie_header(header), seq![])
    } else {
        let (p, es) = pie_upto(header, ls, k - 1);
        let (p2, e) = pie_line(p, ls[k - 1].0, ls[k - 1].1);
        (
            p2,
            match e {
                Some(x) => es.push(x),
                None => es,
            },
        )
    }
}

/// Lenient pie parse of the header remainder and the body lines.
pub open spec fn pie_spec(header: Seq<char>, ls: Seq<(int, Seq<char>)>) -> (PieSourceV, Seq<ErrV>) {
    pie_upto(header, ls, ls.len() as int)
}

/// Parse a pie chart: `header_rest` is the header line after `pie`.
pub fn parse_pie(header_rest: &str, lines: &Vec<Line>) -> (r: (PieSource, Vec<ParseError>))
    ensures
        pie_spec(header_rest@, lines_view(lines@)) == (r.0@, errs_view(r.1@)),
{
    proof {
        reveal_strlit("showData");
        reveal_strlit("title ");
        reveal_strlit("\"");
        reveal_strlit(":");
        reveal_strlit("cannot parse pie slice '");
        reveal_strlit("'");
    }
    let ghost ls = lines_view(lines@);
    let rest = trim_of(&chars_of(header_rest));
    let (show, rest2) = match strip_prefix_of(&rest, &chars_of("showData")) {
        Some(r) => (true, trim_of(&r)),
        None => (false, rest),
    };
    let title = match strip_prefix_of(&rest2, &chars_of("title ")) {
        Some(t) => Some(string_of(&trim_of(&t))),
        None => None,
    };
    let mut p = PieSource { title, show_data: show, slices: Vec::new() };
    assert(p@ == pie_header(header_rest@)) by {
        assert(p@.slices =~= Seq::<(Seq<char>, Seq<char>, int)>::empty());
    }
    let mut warnings: Vec<ParseError> = Vec::new();
    let mut i: usize = 0;
    while i < lines.len()
        invariant
            i <= lines@.len(),
            ls == lines_view(lines@),
            pie_upto(header_rest@, ls, i as int) == (p@, errs_view(warnings@)),
        decreases lines@.len() - i,
    {
        let ln = lines[i].0;
        let line = &lines[i].1;
        assert(ls[i as int] == (ln as int, line@));
        let ghost step = pie_line(p@, ln as int, line@);
        if let Some(t) = strip_prefix_of(line, &chars_of("title ")) {
            p.title = Some(string_of(&trim_of(&t)));
        } else if eq_of(line, &chars_of("showData")) {
            p.show_data = true;
        } else {
            let mut parsed: Option<(Vec<char>, Vec<char>)> = None;
            if let Some(rest) = strip_prefix_of(line, &chars_of("\"")) {
                if let Some((label, after)) = split_once_of(&rest, &chars_of("\"")) {
                    if let Some(v) = strip_prefix_of(&trim_of(&after), &chars_of(":")) {
                        parsed = Some((label, trim_of(&v)));
                    }
                }
            }
            match parsed {
                Some((label, value)) => {
                    let ghost sv = p@.slices;
                    let e = (string_of(&label), string_of(&value), ln);
                    p.slices.push(e);
                    assert(p@.slices =~= sv.push((label@, value@, ln as int)));
                },
                None => {
                    let a = concat(&chars_of("cannot parse pie slice '"), line);
                    let m = concat(&a, &chars_of("'"));
                    let e = ParseError::syntax(ln, &m);
                    proof {
                        lemma_errs_push(warnings@, e);
                    }
                    warnings.push(e);
                },
            }
        }
        i += 1;
    }
    (p, warnings)
}

/// `label` is what `line` holds between its opening double quote and the
/// next double quote.
pub open spec fn quoted_label(line: Seq<char>, label: Seq<char>) -> bool {
    &&& line.len() >= label.len() + 2
    &&& line[0] == '"'
    &&& line.subrange(1, label.len() as int + 1) == label
    &&& line[label.len() as int + 1] == '"'
    &&& forall|i: int| 0 <= i < label.len() ==> #[trigger] label[i] != '"'
}

proof fn lemma_slice_label(line: Seq<char>)
    ensures
        pie_slice(line) matches Some((label, v)) ==> quoted_label(line, label),
{
    reveal_strlit("\"");
    assert("\""@ =~= seq!['"']);
    if let Some((label, v)) = pie_slice(line) {
        let rest = line.skip(1);
        assert(line.take(1)[0] == line[0]);
        lemma_find(rest, "\""@);
        let k = crate::text::find(rest, "\""@)->0;
        assert(label == rest.take(k));
        assert(rest.subrange(k, k + 1)[0] == rest[k]);
        assert forall|i: int| 0 <= i < label.len() implies #[trigger] label[i] != '"' by {
            lemma_find_from_first(rest, "\""@, 0, i);
            assert(rest.subrange(i, i + 1)[0] == rest[i]);
            if rest[i] == '"' {
                assert(rest.subrange(i, i + 1) =~= "\""@);
            }
        }
        assert(line.subrange(1, label.len() as int + 1) =~= label);
    }
}

/// Every slice of a parsed pie chart comes from a body line, carries that
/// line's number, and is labelled with the text between the line's opening
/// double quote and the next one.
pub proof fn law_pie_slice_labels(header: Seq<char>, ls: Seq<(int, Seq<char>)>)
    ensures
        forall|j: int|
            0 <= j < pie_spec(header, ls).0.slices.len() ==> exists|k: int|
                0 <= k < ls.len() && ls[k].0 == (#[trigger] pie_spec(header, ls).0.slices[j]).2
                    && quoted_label(ls[k].1, pie_spec(header, ls).0.slices[j].0),
{
    lemma_slices_upto(header, ls, ls.len() as int);
}

proof fn lemma_slices_upto(header: Seq<char>, ls: Seq<(int, Seq<char>)>, n: int)
    requires
        0 <= n <= ls.len(),
    ensures
        forall|j: int|
            0 <= j < pie_upto(header, ls, n).0.slices.len() ==> exists|k: int|
                0 <= k < n && ls[k].0 == (#[trigger] pie_upto(header, ls, n).0.slices[j]).2
                    && quoted_label(ls[k].1, pie_upto(header, ls, n).0.slices[j].0),
    decreases n,
{
    if n > 0 {
        lemma_slices_upto(header, ls, n - 1);
        let prev = pie_upto(header, ls, n - 1).0;
        let cur = pie_upto(header, ls, n).0;
        let line = ls[n - 1].1;
        lemma_slice_label(line);
        assert forall|j: int| 0 <= j < cur.slices.len() implies exists|k: int|
            0 <= k < n && ls[k].0 == (#[trigger] cur.slices[j]).2 && quoted_label(
                ls[k].1,
                cur.slices[j].0,
            ) by {
            if j < prev.slices.len() {
                assert(cur.slices[j] == prev.slices[j]);
                let k = choose|k: int|
                    0 <= k < n - 1 && ls[k].0 == prev.slices[j].2 && quoted_label(
                        ls[k].1,
                        prev.slices[j].0,
                    );
                assert(0 <= k < n && ls[k].0 == cur.slices[j].2 && quoted_label(ls[k].1, cur.slices[j].0));
            } else {
                assert(ls[n - 1].0 == cur.slices[j].2 && quoted_label(ls[n - 1].1, cur.slices[j].0));
            }
        }
    } else {
        assert(pie_upto(header, ls, n).0.slices =~= Seq::<(Seq<char>, Seq<char>, int)>::empty());
    }
}

} // verus!
