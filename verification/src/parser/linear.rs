//! Timeline and user-journey parsers (Mermaid `timeline` / `journey`).

use vstd::prelude::*;
use crate::ir::graph::{opt_view, strings_view};
use crate::ir::linear::{
    Journey, JourneySection, JourneyTask, JourneyV, PeriodV, SectionV, TaskV, Timeline,
    TimelinePeriod, TimelineV,
};
use crate::parser::{errs_view, lemma_errs_push, lines_view, ErrV, Line, ParseError};
use crate::text::{
    chars_of, concat, find, find_of, lemma_find, lemma_split_by_nonempty, parse_unsigned,
    parse_unsigned_of, slice_of, split_by, split_by_of, string_of, strip_prefix,
    strip_prefix_of, trim, trim_of, views,
};

verus! {

/* ---------------- timeline ---------------- */

/// The trimmed pieces of a split on `sep`.
pub open spec fn trimmed_pieces(s: Seq<char>, sep: Seq<char>) -> Seq<Seq<char>> {
    split_by(s, sep).map_values(|p: Seq<char>| trim(p))
}

/// One timeline line against the timeline so far and the current section:
/// `title ...`, `section ...`, a `: event` continuation, or
/// `Period : event : event`.
pub open spec fn timeline_line(tl: TimelineV, section: Option<Seq<char>>, ln: int, line: Seq<char>) -> (
    TimelineV,
    Option<Seq<char>>,
    Option<ErrV>,
) {
    match strip_prefix(line, "title "@) {
        Some(t) => (TimelineV { title: Some(trim(t)), ..tl }, section, None),
        None => match strip_prefix(line, "section "@) {
            Some(s) => (tl, Some(trim(s)), None),
            None => match strip_prefix(line, ":"@) {
                Some(rest) => if tl.periods.len() > 0 {
                    let k = tl.periods.len() - 1;
                    let last = tl.periods[k];
                    (
                        TimelineV {
                            periods: tl.periods.update(
                                k,
                                PeriodV { events: last.events.push(trim(rest)), ..last },
                            ),
                            ..tl
                        },
                        section,
                        None,
                    )
                } else {
                    (
                        tl,
                        section,
                        Some(ErrV { line: ln, message: "event continuation before any period"@ }),
                    )
                },
                None => {
                    let parts = trimmed_pieces(line, " : "@);
                    if parts.len() == 0 || parts[0].len() == 0 {
                        (
                            tl,
                            section,
                            Some(
                                ErrV {
                                    line: ln,
                                    message: "cannot parse timeline line '"@ + line + "'"@,
                                },
                            ),
                        )
                    } else {
                        (
                            TimelineV {
                                periods: tl.periods.push(
                                    PeriodV { label: parts[0], events: parts.skip(1), section },
                                ),
                                ..tl
                            },
                            section,
                            None,
                        )
                    }
                },
            },
        },
    }
}

/// Timeline state after the first `k` lines: timeline, section, warnings.
pub open spec fn timeline_upto(ls: Seq<(int, Seq<char>)>, k: int) -> (
    TimelineV,
    Option<Seq<char>>,
    Seq<ErrV>,
)
    decreases k,
{
    if k <= 0 || k > ls.len() {
        (TimelineV { title: None, periods: seq![] }, None, seq![])
    } else {
        let (tl, sec, es) = timeline_upto(ls, k - 1);
        let (tl2, sec2, e) = timeline_line(tl, sec, ls[k - 1].0, ls[k - 1].1);
        (
            tl2,
            sec2,
            match e {
                Some(x) => es.push(x),
                None => es,
            },
        )
    }
}

/// Lenient timeline parse: the timeline and one warning per bad line.
pub open spec fn timeline_spec(ls: Seq<(int, Seq<char>)>) -> (TimelineV, Seq<ErrV>) {
    let t = timeline_upto(ls, ls.len() as int);
    (t.0, t.2)
}

fn strings_of(v: &Vec<Vec<char>>, from: usize) -> (r: Vec<String>)
    requires
        from <= v@.len(),
    ensures
        strings_view(r@) == views(v@).skip(from as int),
{
    let mut out: Vec<String> = Vec::new();
    let mut i: usize = from;
    while i < v.len()
        invariant
            from <= i <= v@.len(),
            strings_view(out@) == views(v@).subrange(from as int, i as int),
        decreases v@.len() - i,
    {
        let s = string_of(&v[i]);
        assert(strings_view(out@.push(s)) =~= strings_view(out@).push(s@));
        out.push(s);
        assert(views(v@).subrange(from as int, i + 1) =~= views(v@).subrange(from as int, i as int).push(v@[i as int]@));
        i += 1;
    }
    assert(views(v@).subrange(from as int, v@.len() as int) =~= views(v@).skip(from as int));
    out
}

fn trimmed_pieces_of(s: &[char], sep: &[char]) -> (r: Vec<Vec<char>>)
    requires
        sep@.len() > 0,
    ensures
        views(r@) == trimmed_pieces(s@, sep@),
        r@.len() > 0,
{
    let pieces = split_by_of(s, sep);
    proof {
        lemma_split_by_nonempty(s@, sep@);
    }
    let mut out: Vec<Vec<char>> = Vec::new();
    let mut i: usize = 0;
    while i < pieces.len()
        invariant
            i <= pieces@.len(),
            views(pieces@) == split_by(s@, sep@),
            views(out@) == views(pieces@).take(i as int).map_values(|p: Seq<char>| trim(p)),
        decreases pieces@.len() - i,
    {
        let t = trim_of(&pieces[i]);
        proof {
            crate::text::lemma_views_push(out@, t);
        }
        out.push(t);
        assert(views(pieces@).take(i + 1).map_values(|p: Seq<char>| trim(p)) =~= views(pieces@).take(
            i as int,
        ).map_values(|p: Seq<char>| trim(p)).push(trim(pieces@[i as int]@)));
        i += 1;
    }
    assert(views(pieces@).take(pieces@.len() as int) =~= views(pieces@));
    out
}

/// Parse the lines of a `timeline` (after its header).
pub fn parse_timeline(lines: &Vec<Line>) -> (r: (Timeline, Vec<ParseError>))
    ensures
        timeline_spec(lines_view(lines@)) == (r.0@, errs_view(r.1@)),
{
    let ghost ls = lines_view(lines@);
    let mut tl = Timeline { title: None, periods: Vec::new() };
    let mut section: Option<Vec<char>> = None;
    let mut warnings: Vec<ParseError> = Vec::new();
    let mut i: usize = 0;
    assert(tl@.periods =~= Seq::<PeriodV>::empty());
    while i < lines.len()
        invariant
            i <= lines@.len(),
            ls == lines_view(lines@),
            timeline_upto(ls, i as int) == (tl@, crate::parser::flowchart::ov(section), errs_view(warnings@)),
        decreases lines@.len() - i,
    {
        proof {
            reveal_strlit("title ");
            reveal_strlit("section ");
            reveal_strlit(":");
            reveal_strlit(" : ");
            reveal_strlit("event continuation before any period");
            reveal_strlit("cannot parse timeline line '");
            reveal_strlit("'");
        }
        let ln = lines[i].0;
        let line = &lines[i].1;
        assert(ls[i as int] == (ln as int, line@));
        let ghost before = (tl@, crate::parser::flowchart::ov(section));
        let ghost step = timeline_line(before.0, before.1, ln as int, line@);
        let mut err: Option<ParseError> = None;
        if let Some(t) = strip_prefix_of(line, &chars_of("title ")) {
            tl.title = Some(string_of(&trim_of(&t)));
        } else if let Some(s) = strip_prefix_of(line, &chars_of("section ")) {
            section = Some(trim_of(&s));
        } else if let Some(rest) = strip_prefix_of(line, &chars_of(":")) {
            if tl.periods.len() > 0 {
                let mut p = tl.periods.pop().unwrap();
                let ghost pv = p@;
                let ev = string_of(&trim_of(&rest));
                p.events.push(ev);
                assert(p@.events =~= pv.events.push(ev@));
                tl.periods.push(p);
                assert(tl@.periods =~= step.0.periods);
            } else {
                err = Some(
                    ParseError::syntax(ln, &chars_of("event continuation before any period")),
                );
            }
        } else {
            let parts = trimmed_pieces_of(line, &chars_of(" : "));
            assert(views(parts@)[0] == parts@[0]@);
            if parts[0].len() == 0 {
                let a = concat(&chars_of("cannot parse timeline line '"), line);
                let m = concat(&a, &chars_of("'"));
                err = Some(ParseError::syntax(ln, &m));
            } else {
                let sec = match &section {
                    Some(s) => Some(string_of(s)),
                    None => None,
                };
                let p = TimelinePeriod {
                    label: string_of(&parts[0]),
                    events: strings_of(&parts, 1),
                    section: sec,
                };
                tl.periods.push(p);
                assert(tl@.periods =~= step.0.periods);
            }
        }
        match err {
            Some(e) => {
                proof {
                    lemma_errs_push(warnings@, e);
                }
                warnings.push(e);
            },
            None => {},
        }
        i += 1;
    }
    (tl, warnings)
}

/* ---------------- journey ---------------- */

/// `Task: score: actor, actor` (score 1 to 5, actors optional).
pub open spec fn journey_task(line: Seq<char>) -> Option<TaskV> {
    match find(line, ":"@) {
        None => None,
        Some(i) => {
            let label = trim(line.take(i));
            let rest = line.skip(i + 1);
            let (score_text, actors_text) = match find(rest, ":"@) {
                None => (rest, None),
                Some(j) => (rest.take(j), Some(rest.skip(j + 1))),
            };
            match parse_unsigned(trim(score_text), 255) {
                None => None,
                Some(score) => {
                    let actors = match actors_text {
                        Some(a) => trimmed_pieces(a, ","@),
                        None => seq![],
                    };
                    if label.len() > 0 && 1 <= score <= 5 {
                        Some(TaskV { label, score: score as u8, actors })
                    } else {
                        None
                    }
                },
            }
        },
    }
}

/// One journey line: `title ...`, `section ...`, or a task (which opens an
/// unnamed section when none is open yet).
pub open spec fn journey_line(j: JourneyV, ln: int, line: Seq<char>) -> (JourneyV, Option<ErrV>) {
    match strip_prefix(line, "title "@) {
        Some(t) => (JourneyV { title: Some(trim(t)), ..j }, None),
        None => match strip_prefix(line, "section "@) {
            Some(s) => (
                JourneyV { sections: j.sections.push(SectionV { name: trim(s), tasks: seq![] }), ..j },
                None,
            ),
            None => match journey_task(line) {
                None => (
                    j,
                    Some(ErrV { line: ln, message: "cannot parse journey task '"@ + line + "'"@ }),
                ),
                Some(task) => {
                    let secs = if j.sections.len() == 0 {
                        seq![SectionV { name: seq![], tasks: seq![] }]
                    } else {
                        j.sections
                    };
                    let k = secs.len() - 1;
                    (
                        JourneyV {
                            sections: secs.update(
                                k,
                                SectionV { tasks: secs[k].tasks.push(task), ..secs[k] },
                            ),
                            ..j
                        },
                        None,
                    )
                },
            },
        },
    }
}

/// Journey and warnings after the first `k` lines.
pub open spec fn journey_upto(ls: Seq<(int, Seq<char>)>, k: int) -> (JourneyV, Seq<ErrV>)
    decreases k,
{
    if k <= 0 || k > ls.len() {
        (JourneyV { title: None, sections: seq![] }, seq![])
    } else {
        let (j, es) = journey_upto(ls, k - 1);
        let (j2, e) = journey_line(j, ls[k - 1].0, ls[k - 1].1);
        (
            j2,
            match e {
                Some(x) => es.push(x),
                None => es,
            },
        )
    }
}

/// Lenient journey parse: the journey and one warning per bad line.
pub open spec fn journey_spec(ls: Seq<(int, Seq<char>)>) -> (JourneyV, Seq<ErrV>) {
    journey_upto(ls, ls.len() as int)
}

fn journey_task_of(line: &[char]) -> (r: Option<JourneyTask>)
    ensures
        journey_task(line@) == (match r {
            Some(t) => Some(t@),
            None => None,
        }),
{
    proof {
        reveal_strlit(":");
        reveal_strlit(",");
        lemma_find(line@, ":"@);
    }
    let colon = chars_of(":");
    let i = match find_of(line, &colon) {
        Some(i) => i,
        None => return None,
    };
    assert(colon@ == ":"@);
    assert(":"@.len() == 1);
    assert(i + 1 <= line.len());
    let head = slice_of(line, 0, i);
    let label = trim_of(&head);
    let rest = slice_of(line, i + 1, line.len());
    proof {
        lemma_find(rest@, ":"@);
    }
    let (score_text, actors_text) = match find_of(&rest, &colon) {
        None => (slice_of(&rest, 0, rest.len()), None),
        Some(j) => (slice_of(&rest, 0, j), Some(slice_of(&rest, j + 1, rest.len()))),
    };
    assert(rest@.subrange(0, rest@.len() as int) == rest@);
    let st = trim_of(&score_text);
    let score = match parse_unsigned_of(&st, 255) {
        Some(v) => v,
        None => return None,
    };
    let actors: Vec<String> = match &actors_text {
        Some(a) => {
            let pieces = trimmed_pieces_of(a, &chars_of(","));
            assert(views(pieces@).skip(0) =~= views(pieces@));
            strings_of(&pieces, 0)
        },
        None => {
            let v: Vec<String> = Vec::new();
            assert(strings_view(v@) =~= Seq::<Seq<char>>::empty());
            v
        },
    };
    if label.len() > 0 && 1 <= score && score <= 5 {
        Some(JourneyTask { label: string_of(&label), score: score as u8, actors })
    } else {
        None
    }
}

/// Parse the lines of a `journey` (after its header).
pub fn parse_journey(lines: &Vec<Line>) -> (r: (Journey, Vec<ParseError>))
    ensures
        journey_spec(lines_view(lines@)) == (r.0@, errs_view(r.1@)),
{
    let ghost ls = lines_view(lines@);
    let mut j = Journey { title: None, sections: Vec::new() };
    let mut warnings: Vec<ParseError> = Vec::new();
    let mut i: usize = 0;
    assert(j@.sections =~= Seq::<SectionV>::empty());
    while i < lines.len()
        invariant
            i <= lines@.len(),
            ls == lines_view(lines@),
            journey_upto(ls, i as int) == (j@, errs_view(warnings@)),
        decreases lines@.len() - i,
    {
        proof {
            reveal_strlit("title ");
            reveal_strlit("section ");
            reveal_strlit("cannot parse journey task '");
            reveal_strlit("'");
        }
        let ln = lines[i].0;
        let line = &lines[i].1;
        assert(ls[i as int] == (ln as int, line@));
        let ghost step = journey_line(j@, ln as int, line@);
        if let Some(t) = strip_prefix_of(line, &chars_of("title ")) {
            j.title = Some(string_of(&trim_of(&t)));
        } else if let Some(s) = strip_prefix_of(line, &chars_of("section ")) {
            let sec = JourneySection { name: string_of(&trim_of(&s)), tasks: Vec::new() };
            assert(sec@.tasks =~= Seq::<TaskV>::empty());
            j.sections.push(sec);
            assert(j@.sections =~= step.0.sections);
        } else {
            match journey_task_of(line) {
                Some(task) => {
                    if j.sections.len() == 0 {
                        let sec = JourneySection { name: String::new(), tasks: Vec::new() };
                        assert(sec@.tasks =~= Seq::<TaskV>::empty());
                        assert(sec@.name =~= Seq::<char>::empty());
                        j.sections.push(sec);
                    }
                    let mut last = j.sections.pop().unwrap();
                    let ghost lv = last@;
                    let ghost tv = task@;
                    last.tasks.push(task);
                    assert(last@.tasks =~= lv.tasks.push(tv));
                    j.sections.push(last);
                    assert(j@.sections =~= step.0.sections);
                },
                None => {
                    let a = concat(&chars_of("cannot parse journey task '"), line);
                    let m = concat(&a, &chars_of("'"));
                    let e = ParseError::syntax(ln, &m);
                    proof {
                        lemma_errs_push(warnings@, e);
                    }
                    warnings.push(e);
                },
            }
        }
        i += 1;
    }
    (j, warnings)
}

/// Every task in `j` scores between 1 and 5.
pub open spec fn scores_in_range(j: JourneyV) -> bool {
    forall|i: int, k: int|
        0 <= i < j.sections.len() && 0 <= k < j.sections[i].tasks.len() ==> 1 <= (
        #[trigger] j.sections[i].tasks[k]).score <= 5
}

proof fn lemma_journey_scores(ls: Seq<(int, Seq<char>)>, k: int)
    requires
        0 <= k <= ls.len(),
    ensures
        scores_in_range(journey_upto(ls, k).0),
    decreases k,
{
    if k > 0 {
        lemma_journey_scores(ls, k - 1);
        let (j, es) = journey_upto(ls, k - 1);
        let (j2, e) = journey_line(j, ls[k - 1].0, ls[k - 1].1);
        assert(scores_in_range(j2)) by {
            match journey_task(ls[k - 1].1) {
                Some(t) => {
                    assert(1 <= t.score <= 5);
                },
                None => {},
            }
        }
    }
}

/// Every task of a parsed journey scores 1 to 5: out-of-range scores are
/// rejected with a warning. (The journey renderer draws exactly this range.)
pub proof fn law_journey_scores_in_range(ls: Seq<(int, Seq<char>)>)
    ensures
        scores_in_range(journey_spec(ls).0),
{
    lemma_journey_scores(ls, ls.len() as int);
}

/// Every period of a parsed timeline has a non-empty label.
pub proof fn law_timeline_labels_nonempty(ls: Seq<(int, Seq<char>)>)
    ensures
        forall|i: int| 0 <= i < timeline_spec(ls).0.periods.len() ==> (#[trigger] timeline_spec(ls).0.periods[i]).label.len() > 0,
{
    lemma_timeline_labels(ls, ls.len() as int);
}

proof fn lemma_timeline_labels(ls: Seq<(int, Seq<char>)>, k: int)
    requires
        0 <= k <= ls.len(),
    ensures
        forall|i: int| 0 <= i < timeline_upto(ls, k).0.periods.len() ==> (#[trigger] timeline_upto(ls, k).0.periods[i]).label.len() > 0,
    decreases k,
{
    if k > 0 {
        lemma_timeline_labels(ls, k - 1);
    }
}

} // verus!
