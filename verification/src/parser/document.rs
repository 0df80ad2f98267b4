//! Dispatch on the header line to the parser for each diagram type.

use vstd::prelude::*;
use crate::ir::document::{DocV, Document};
use crate::ir::graph::Direction;
use crate::parser::flowchart::{empty_graph, flowchart_lenient};
use crate::parser::{errs_view, lines_view, numbered, numbered_of, ErrV, Line, ParseError};
use crate::text::{chars_of, eq_of, starts_with, starts_with_of, strip_prefix, strip_prefix_of, string_of};

verus! {

/// Lenient parse of a whole source: the document, the warnings, and whether
/// the source is fatal. The header (first content line) picks the
/// dialect; anything unrecognized is read as a flowchart.
pub open spec fn document_spec(src: Seq<char>) -> (DocV, Seq<ErrV>, bool) {
    let ls = numbered(src);
    if ls.len() == 0 {
        (DocV::Graph(empty_graph(Direction::TopBottom)), seq![], false)
    } else {
        let header = ls[0].1;
        let body = ls.skip(1);
        if header == "sequenceDiagram"@ {
            let (d, es, p) = crate::parser::sequence::sequence_spec(body);
            (DocV::Sequence(d), es, p)
        } else if starts_with(header, "stateDiagram"@) {
            let (g, es, p) = crate::parser::state::state_spec(body);
            (DocV::Graph(g), es, p)
        } else if starts_with(header, "classDiagram"@) {
            let (g, es, p) = crate::parser::class::class_spec(body);
            (DocV::Graph(g), es, p)
        } else if starts_with(header, "erDiagram"@) {
            let (g, es, p) = crate::parser::er::er_spec(body);
            (DocV::Graph(g), es, p)
        } else if header == "mindmap"@ {
            (DocV::Graph(crate::parser::mindmap::mindmap_spec(src)), seq![], false)
        } else if header == "timeline"@ {
            let (t, es) = crate::parser::linear::timeline_spec(body);
            (DocV::Timeline(t), es, false)
        } else if header == "journey"@ {
            let (j, es) = crate::parser::linear::journey_spec(body);
            (DocV::Journey(j), es, false)
        } else if starts_with(header, "gitGraph"@) {
            let (g, es) = crate::parser::git::git_spec(body);
            (DocV::Git(g), es, false)
        } else if header == "gantt"@ {
            let (c, es, p) = crate::parser::gantt::gantt_spec(body);
            (DocV::Gantt(c), es, p)
        } else if strip_prefix(header, "pie"@) is Some {
            let (c, es) = crate::parser::pie::pie_spec(strip_prefix(header, "pie"@).unwrap(), body);
            (DocV::Pie(c), es, false)
        } else {
            let (g, es, p) = flowchart_lenient(ls);
            (DocV::Graph(g), es, p)
        }
    }
}

fn tail_lines(lines: &Vec<Line>) -> (r: Vec<Line>)
    requires
        lines@.len() > 0,
    ensures
        lines_view(r@) == lines_view(lines@).skip(1),
{
    let mut out: Vec<Line> = Vec::new();
    let mut i: usize = 1;
    while i < lines.len()
        invariant
            1 <= i <= lines@.len(),
            lines_view(out@) == lines_view(lines@).subrange(1, i as int),
        decreases lines@.len() - i,
    {
        let l = (lines[i].0, crate::text::slice_of(&lines[i].1, 0, lines[i].1.len()));
        assert(lines@[i as int].1@.subrange(0, lines@[i as int].1@.len() as int) == lines@[i as int].1@);
        proof {
            crate::parser::lemma_lines_push(out@, l);
        }
        out.push(l);
        assert(lines_view(lines@).subrange(1, i + 1) =~= lines_view(lines@).subrange(1, i as int).push(
            lines_view(lines@)[i as int],
        ));
        i += 1;
    }
    assert(lines_view(lines@).subrange(1, lines@.len() as int) =~= lines_view(lines@).skip(1));
    out
}

/// Lenient parse of a whole source, or `None` exactly where the source is
/// fatal: unparseable lines are skipped and reported as warnings.
pub fn parse_document_lenient_checked(source: &str) -> (r: Option<(Document, Vec<ParseError>)>)
    ensures
        ({
            let t = document_spec(source@);
            match r {
                None => t.2,
                Some((d, es)) => !t.2 && d@ == t.0 && errs_view(es@) == t.1,
            }
        }),
{
    proof {
        reveal_strlit("sequenceDiagram");
        reveal_strlit("stateDiagram");
        reveal_strlit("classDiagram");
        reveal_strlit("erDiagram");
        reveal_strlit("mindmap");
        reveal_strlit("timeline");
        reveal_strlit("journey");
        reveal_strlit("gitGraph");
        reveal_strlit("gantt");
        reveal_strlit("pie");
    }
    let src = chars_of(source);
    let lines = numbered_of(&src);
    if lines.len() == 0 {
        let g = crate::ir::graph::Graph::new(Direction::TopBottom);
        assert(g@ == empty_graph(Direction::TopBottom)) by {
            assert(g@.nodes =~= empty_graph(Direction::TopBottom).nodes);
            assert(g@.edges =~= empty_graph(Direction::TopBottom).edges);
            assert(g@.subgraphs =~= empty_graph(Direction::TopBottom).subgraphs);
        }
        let w: Vec<ParseError> = Vec::new();
        assert(errs_view(w@) =~= Seq::<ErrV>::empty());
        return Some((Document::Graph(g), w));
    }
    let header = &lines[0].1;
    assert(lines_view(lines@)[0].1 == header@);
    let body = tail_lines(&lines);
    if eq_of(header, &chars_of("sequenceDiagram")) {
        let (d, es, p) = crate::parser::sequence::parse_sequence(&body);
        return if p { None } else { Some((Document::Sequence(d), es)) };
    }
    if starts_with_of(header, &chars_of("stateDiagram")) {
        let (g, es, p) = crate::parser::state::parse_state(&body);
        return if p { None } else { Some((Document::Graph(g), es)) };
    }
    if starts_with_of(header, &chars_of("classDiagram")) {
        let (g, es, p) = crate::parser::class::parse_class(&body);
        return if p { None } else { Some((Document::Graph(g), es)) };
    }
    if starts_with_of(header, &chars_of("erDiagram")) {
        let (g, es, p) = crate::parser::er::parse_er(&body);
        return if p { None } else { Some((Document::Graph(g), es)) };
    }
    if eq_of(header, &chars_of("mindmap")) {
        let g = crate::parser::mindmap::parse_mindmap(source);
        let w: Vec<ParseError> = Vec::new();
        assert(errs_view(w@) =~= Seq::<ErrV>::empty());
        return Some((Document::Graph(g), w));
    }
    if eq_of(header, &chars_of("timeline")) {
        let (t, es) = crate::parser::linear::parse_timeline(&body);
        return Some((Document::Timeline(t), es));
    }
    if eq_of(header, &chars_of("journey")) {
        let (j, es) = crate::parser::linear::parse_journey(&body);
        return Some((Document::Journey(j), es));
    }
    if starts_with_of(header, &chars_of("gitGraph")) {
        let (g, es) = crate::parser::git::parse_git(&body);
        return Some((Document::Git(g), es));
    }
    if eq_of(header, &chars_of("gantt")) {
        let (c, es, p) = crate::parser::gantt::parse_gantt(&body);
        return if p { None } else { Some((Document::Gantt(c), es)) };
    }
    if let Some(rest) = strip_prefix_of(header, &chars_of("pie")) {
        let r = string_of(&rest);
        let (c, es) = crate::parser::pie::parse_pie(r.as_str(), &body);
        return Some((Document::Pie(c), es));
    }
    let (g, es, p) = crate::parser::flowchart::parse_lines_lenient(&lines);
    if p { None } else { Some((Document::Graph(g), es)) }
}

/// Lenient parse of a whole source: unparseable lines are skipped and
/// reported as warnings instead of failing the document.
pub fn parse_document_lenient(source: &str) -> (r: (Document, Vec<ParseError>))
    requires
        !document_spec(source@).2,
    ensures
        r.0@ == document_spec(source@).0,
        errs_view(r.1@) == document_spec(source@).1,
{
    match parse_document_lenient_checked(source) {
        Some(r) => r,
        None => {
            assert(false);
            (Document::Graph(crate::ir::graph::Graph::new(Direction::TopBottom)), Vec::new())
        },
    }
}

/// Strict parse of a whole source: the document, or the first warning of
/// the lenient parse as a hard error.
pub fn parse_document(source: &str) -> (r: Result<Document, ParseError>)
    requires
        !document_spec(source@).2,
    ensures
        match r {
            Ok(d) => document_spec(source@).1.len() == 0 && d@ == document_spec(source@).0,
            Err(e) => document_spec(source@).1.len() > 0 && e@ == document_spec(source@).1[0],
        },
{
    let (doc, warnings) = parse_document_lenient(source);
    let mut warnings = warnings;
    if warnings.len() == 0 {
        Ok(doc)
    } else {
        assert(errs_view(warnings@)[0] == warnings@[0]@);
        Err(warnings.swap_remove(0))
    }
}

} // verus!
