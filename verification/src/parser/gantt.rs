//! Gantt chart parser: sections, tasks with dates, durations and `after`
//! dependencies. Dates are civil days since 1970-01-01.

use vstd::prelude::*;
use crate::ir::charts::{GanttChart, GanttChartV, GanttSection, GanttSectionV, GanttTask, GanttTaskV, TaskStatus};
use crate::ir::graph::opt_view;
use crate::parser::{char_alnum, errs_view, is_alnum, lemma_errs_push, lines_view, ErrV, Line, ParseError};
use crate::text::{
    chars_of, concat, lemma_split_by_nonempty, parse_i64, parse_i64_of, parse_unsigned,
    parse_unsigned_of, slice_of, split_by, split_by_of, split_once, split_once_of, split_ws,
    split_ws_of, starts_with, starts_with_of, string_of, strip_prefix, strip_prefix_of, trim,
    trim_of, views,
};

verus! {

/* ---------------- dates ---------------- */

/// Days from 1970-01-01 to the civil date `y`-`m`-`d` (proleptic Gregorian),
/// for `1 <= m <= 12`.
pub open spec fn days_from_civil(y: int, m: int, d: int) -> int {
    let y2 = if m <= 2 {
        y - 1
    } else {
        y
    };
    let era = y2 / 400;
    let yoe = y2 - era * 400;
    let mp = (m + 9) % 12;
    let doy = (153 * mp + 2) / 5 + d - 1;
    let doe = yoe * 365 + yoe / 4 - yoe / 100 + doy;
    era * 146097 + doe - 719468
}

/// `YYYY-MM-DD` with month 1-12 and day 1-31: (year, month, day).
pub open spec fn date_fields(s: Seq<char>) -> Option<(int, int, int)> {
    let ps = split_by(s, "-"@);
    if ps.len() != 3 {
        None
    } else {
        match (parse_i64(ps[0]), parse_unsigned(ps[1], 0xffff_ffff), parse_unsigned(ps[2], 0xffff_ffff)) {
            (Some(y), Some(m), Some(d)) => if 1 <= m <= 12 && 1 <= d <= 31 {
                Some((y, m, d))
            } else {
                None
            },
            _ => None,
        }
    }
}

/// Three `-`-separated numbers: a year, then a month and a day of up to
/// 32 bits each, whatever their range.
pub open spec fn date_shaped(s: Seq<char>) -> bool {
    let ps = split_by(s, "-"@);
    &&& ps.len() == 3
    &&& parse_i64(ps[0]) is Some
    &&& parse_unsigned(ps[1], 0xffff_ffff) is Some
    &&& parse_unsigned(ps[2], 0xffff_ffff) is Some
}

/// A date string to its day number; the second component is whether the
/// date is fatal: its day count overflows 64-bit arithmetic. Such years lie
/// beyond 10^16.
pub open spec fn parse_date_spec(s: Seq<char>) -> (Option<int>, bool) {
    match date_fields(s) {
        None => (None, false),
        Some((y, m, d)) => {
            let days = days_from_civil(y, m, d);
            if days + 719468 > i64::MAX || days < i64::MIN {
                (None, true)
            } else {
                (Some(days), false)
            }
        },
    }
}

/// `YYYY-MM-DD` to civil days since 1970-01-01, or `None` on fatal input
/// (years beyond 10^16).
pub fn parse_date(s: &str) -> (r: Option<i64>)
    ensures
        match r {
            Some(v) => parse_date_spec(s@) == (Some(v as int), false),
            None => parse_date_spec(s@).0 is None,
        },
{
    let c = chars_of(s);
    parse_date_of(&c).0
}

fn parse_date_of(s: &[char]) -> (r: (Option<i64>, bool, bool))
    ensures
        parse_date_spec(s@) == (
            match r.0 {
                Some(v) => Some(v as int),
                None => None,
            },
            r.1,
        ),
        r.2 == date_shaped(s@),
{
    proof {
        reveal_strlit("-");
        lemma_split_by_nonempty(s@, "-"@);
    }
    let ps = split_by_of(s, &chars_of("-"));
    if ps.len() != 3 {
        return (None, false, false);
    }
    assert(views(ps@)[0] == ps@[0]@ && views(ps@)[1] == ps@[1]@ && views(ps@)[2] == ps@[2]@);
    let y = match parse_i64_of(&ps[0]) {
        Some(v) => v,
        None => return (None, false, false),
    };
    let m = match parse_unsigned_of(&ps[1], 0xffff_ffff) {
        Some(v) => v,
        None => return (None, false, false),
    };
    let d = match parse_unsigned_of(&ps[2], 0xffff_ffff) {
        Some(v) => v,
        None => return (None, false, false),
    };
    if !(1 <= m && m <= 12 && 1 <= d && d <= 31) {
        return (None, false, true);
    }
    let y2: i128 = if m <= 2 {
        y as i128 - 1
    } else {
        y as i128
    };
    let era: i128 = if y2 >= 0 {
        y2 / 400
    } else {
        -((-y2 + 399) / 400)
    };
    assert(era == y2 / 400) by (nonlinear_arith)
        requires
            era == (if y2 >= 0 {
                y2 / 400
            } else {
                -((-y2 + 399) / 400)
            }),
    ;
    let yoe = y2 - era * 400;
    let mp = ((m + 9) % 12) as i128;
    let doy = (153 * mp + 2) / 5 + d as i128 - 1;
    let doe = yoe * 365 + yoe / 4 - yoe / 100 + doy;
    let days = era * 146097 + doe - 719468;
    assert(days == days_from_civil(y as int, m as int, d as int));
    if days + 719468 > 0x7fff_ffff_ffff_ffff || days < -0x8000_0000_0000_0000 {
        return (None, true, true);
    }
    (Some(days as i64), false, true)
}

/* ---------------- task metadata ---------------- */

/// `30d` gives 30, `2w` 14, `1m` 30. The second component is whether the
/// duration is fatal: the unit is split off at the last byte, which falls
/// inside a non-ASCII last character, or the 64-bit product overflows.
pub open spec fn parse_duration_spec(s: Seq<char>) -> (Option<int>, bool) {
    if s.len() > 0 && (s.last() as u32) >= 0x80 {
        (None, true)
    } else {
        let (num, unit) = if s.len() == 0 {
            (s, s)
        } else {
            (s.drop_last(), s.skip(s.len() - 1))
        };
        match parse_i64(num) {
            None => (None, false),
            Some(n) => if unit == "d"@ {
                (Some(n), false)
            } else if unit == "w"@ {
                if i64::MIN <= n * 7 <= i64::MAX {
                    (Some(n * 7), false)
                } else {
                    (None, true)
                }
            } else if unit == "m"@ {
                if i64::MIN <= n * 30 <= i64::MAX {
                    (Some(n * 30), false)
                } else {
                    (None, true)
                }
            } else {
                (None, false)
            },
        }
    }
}

/// A task id: an ASCII letter, then letters, digits or `_`.
pub open spec fn is_task_id(s: Seq<char>) -> bool {
    &&& s.len() > 0
    &&& (('a' <= s[0] <= 'z') || ('A' <= s[0] <= 'Z'))
    &&& forall|i: int| 0 <= i < s.len() ==> char_alnum(#[trigger] s[i]) || s[i] == '_'
}

/// The latest end recorded for `key` (later entries shadow earlier ones).
pub open spec fn lookup_end(ids: Seq<(Seq<char>, int)>, key: Seq<char>) -> Option<int>
    decreases ids.len(),
{
    if ids.len() == 0 {
        None
    } else if ids.last().0 == key {
        Some(ids.last().1)
    } else {
        lookup_end(ids.drop_last(), key)
    }
}

/// The latest end among the first `k` referenced ids that are known.
pub open spec fn latest_end(ids: Seq<(Seq<char>, int)>, refs: Seq<Seq<char>>, k: int) -> Option<int>
    decreases k,
{
    if k <= 0 || k > refs.len() {
        None
    } else {
        let l = latest_end(ids, refs, k - 1);
        match lookup_end(ids, refs[k - 1]) {
            Some(e) => Some(
                match l {
                    Some(x) => if x > e {
                        x
                    } else {
                        e
                    },
                    None => e,
                },
            ),
            None => l,
        }
    }
}

/// What the metadata parts read so far say about a task.
pub struct TaskMeta {
    pub status: TaskStatus,
    pub milestone: bool,
    pub id: Option<Seq<char>>,
    pub start: Option<int>,
    pub end: Option<int>,
    pub duration: Option<int>,
    pub fatal: bool,
    /// A part is shaped like a date but names no month 1-12 or no day
    /// 1-31: the task is rejected.
    pub rejected: bool,
}

/// One comma-separated metadata part: a status tag, `milestone`,
/// `after <ids>`, a duration, a date (start, then end), a date out of range
/// (which rejects the task), or the task id.
pub open spec fn meta_step(m: TaskMeta, part: Seq<char>, ids: Seq<(Seq<char>, int)>, cursor: Option<int>) -> TaskMeta {
    if part == "done"@ {
        TaskMeta { status: TaskStatus::Done, ..m }
    } else if part == "active"@ {
        TaskMeta { status: TaskStatus::Active, ..m }
    } else if part == "crit"@ {
        TaskMeta { status: TaskStatus::Critical, ..m }
    } else if part == "milestone"@ {
        TaskMeta { milestone: true, ..m }
    } else if part.len() == 0 {
        m
    } else {
        match strip_prefix(part, "after "@) {
            Some(rest) => {
                let refs = split_ws(rest);
                let latest = latest_end(ids, refs, refs.len() as int);
                TaskMeta {
                    start: if latest is Some {
                        latest
                    } else {
                        cursor
                    },
                    ..m
                }
            },
            None => {
                let (dur, p1) = parse_duration_spec(part);
                if p1 {
                    TaskMeta { fatal: true, ..m }
                } else if dur is Some {
                    TaskMeta { duration: dur, ..m }
                } else {
                    let (date, p2) = parse_date_spec(part);
                    if p2 {
                        TaskMeta { fatal: true, ..m }
                    } else if date is Some {
                        if m.start is None {
                            TaskMeta { start: date, ..m }
                        } else {
                            TaskMeta { end: date, ..m }
                        }
                    } else if date_shaped(part) {
                        TaskMeta { rejected: true, ..m }
                    } else if m.start is None && m.id is None && is_task_id(part) {
                        TaskMeta { id: Some(part), ..m }
                    } else {
                        m
                    }
                }
            },
        }
    }
}

/// Metadata after the first `k` parts (a fatal or rejecting part stops the
/// reading).
pub open spec fn meta_upto(parts: Seq<Seq<char>>, k: int, ids: Seq<(Seq<char>, int)>, cursor: Option<int>) -> TaskMeta
    decreases k,
{
    if k <= 0 || k > parts.len() {
        TaskMeta {
            status: TaskStatus::Planned,
            milestone: false,
            id: None,
            start: None,
            end: None,
            duration: None,
            fatal: false,
            rejected: false,
        }
    } else {
        let m = meta_upto(parts, k - 1, ids, cursor);
        if m.fatal || m.rejected {
            m
        } else {
            meta_step(m, parts[k - 1], ids, cursor)
        }
    }
}

/// A task from its label and `:`-metadata, given the ends recorded so far
/// and the end of the previous task. The flag is whether the metadata is
/// fatal (see `parse_duration_spec`, `parse_date_spec`, and its 64-bit sums
/// for the end day).
pub open spec fn parse_task_spec(label: Seq<char>, meta: Seq<char>, ids: Seq<(Seq<char>, int)>, cursor: Option<int>) -> (GanttTaskV, bool) {
    let parts = split_by(meta, ","@).map_values(|p: Seq<char>| trim(p));
    let m = meta_upto(parts, parts.len() as int, ids, cursor);
    let start = match m.start {
        Some(v) => v,
        None => match cursor {
            Some(c) => c,
            None => 0,
        },
    };
    let inc: int = if m.milestone {
        0
    } else {
        1
    };
    let dur_overflow = match m.duration {
        Some(d) => !(i64::MIN <= start + d <= i64::MAX),
        None => false,
    };
    let end0 = match m.end {
        Some(e) => e,
        None => match m.duration {
            Some(d) => start + d,
            None => start + inc,
        },
    };
    (
        GanttTaskV {
            label,
            id: m.id,
            start,
            end: if end0 > start {
                end0
            } else {
                start
            },
            status: m.status,
            milestone: m.milestone,
        },
        !m.rejected && (m.fatal || dur_overflow || !(start + inc <= i64::MAX)),
    )
}

/// Whether the task's metadata holds a date out of range, which rejects the
/// task with a warning.
pub open spec fn task_rejected(meta: Seq<char>, ids: Seq<(Seq<char>, int)>, cursor: Option<int>) -> bool {
    let parts = split_by(meta, ","@).map_values(|p: Seq<char>| trim(p));
    meta_upto(parts, parts.len() as int, ids, cursor).rejected
}

/* ---------------- chart ---------------- */

/// Parser state: the chart so far, the end day recorded per task id (or
/// label), the end of the previous task, and whether a fatal line was met.
pub struct GanttState {
    pub chart: GanttChartV,
    pub ids: Seq<(Seq<char>, int)>,
    pub cursor: Option<int>,
    pub fatal: bool,
}

/// One gantt line: `title`, ignored directives, `section`, or a task (a
/// rejected task gives a warning instead).
pub open spec fn gantt_line(st: GanttState, ln: int, line: Seq<char>) -> (GanttState, Option<ErrV>) {
    match strip_prefix(line, "title "@) {
        Some(t) => (GanttState { chart: GanttChartV { title: Some(trim(t)), ..st.chart }, ..st }, None),
        None => if starts_with(line, "dateFormat"@) || starts_with(line, "excludes"@) || starts_with(
            line,
            "axisFormat"@,
        ) {
            (st, None)
        } else {
            match strip_prefix(line, "section "@) {
                Some(name) => (
                    GanttState {
                        chart: GanttChartV {
                            sections: st.chart.sections.push(
                                GanttSectionV { name: trim(name), tasks: seq![] },
                            ),
                            ..st.chart
                        },
                        ..st
                    },
                    None,
                ),
                None => match split_once(line, ":"@) {
                    None => (
                        st,
                        Some(
                            ErrV { line: ln, message: "cannot parse gantt statement '"@ + line + "'"@ },
                        ),
                    ),
                    Some((label, meta)) => if task_rejected(trim(meta), st.ids, st.cursor) {
                        (st, Some(ErrV { line: ln, message: "cannot parse gantt task '"@ + line + "'"@ }))
                    } else {
                        let (task, p) = parse_task_spec(trim(label), trim(meta), st.ids, st.cursor);
                        if p {
                            (GanttState { fatal: true, ..st }, None)
                        } else {
                            let key = match task.id {
                                Some(i) => i,
                                None => task.label,
                            };
                            let secs = if st.chart.sections.len() == 0 {
                                seq![GanttSectionV { name: seq![], tasks: seq![] }]
                            } else {
                                st.chart.sections
                            };
                            let k = secs.len() - 1;
                            (
                                GanttState {
                                    chart: GanttChartV {
                                        sections: secs.update(
                                            k,
                                            GanttSectionV { tasks: secs[k].tasks.push(task), ..secs[k] },
                                        ),
                                        ..st.chart
                                    },
                                    ids: st.ids.push((key, task.end)),
                                    cursor: Some(task.end),
                                    fatal: false,
                                },
                                None,
                            )
                        }
                    },
                },
            }
        },
    }
}

/// State and warnings after the first `k` lines; a fatal line stops the parse.
pub open spec fn gantt_upto(ls: Seq<(int, Seq<char>)>, k: int) -> (GanttState, Seq<ErrV>)
    decreases k,
{
    if k <= 0 || k > ls.len() {
        (
            GanttState {
                chart: GanttChartV { title: None, sections: seq![] },
                ids: seq![],
                cursor: None,
                fatal: false,
            },
            seq![],
        )
    } else {
        let (st, es) = gantt_upto(ls, k - 1);
        if st.fatal {
            (st, es)
        } else {
            let (st2, e) = gantt_line(st, ls[k - 1].0, ls[k - 1].1);
            (
                st2,
                match e {
                    Some(x) => es.push(x),
                    None => es,
                },
            )
        }
    }
}

/// Lenient gantt parse: chart, warnings, and whether the input is fatal.
pub open spec fn gantt_spec(ls: Seq<(int, Seq<char>)>) -> (GanttChartV, Seq<ErrV>, bool) {
    let (st, es) = gantt_upto(ls, ls.len() as int);
    (st.chart, es, st.fatal)
}

fn parse_duration_of(s: &[char]) -> (r: (Option<i64>, bool))
    ensures
        parse_duration_spec(s@) == (
            match r.0 {
                Some(v) => Some(v as int),
                None => None,
            },
            r.1,
        ),
{
    proof {
        reveal_strlit("d");
        reveal_strlit("w");
        reveal_strlit("m");
    }
    let n = s.len();
    if n > 0 && (s[n - 1] as u32) >= 0x80 {
        return (None, true);
    }
    let (num, unit) = if n == 0 {
        (Vec::new(), Vec::new())
    } else {
        (slice_of(s, 0, n - 1), slice_of(s, n - 1, n))
    };
    assert(n == 0 ==> num@ == s@ && unit@ == s@);
    assert(n > 0 ==> num@ == s@.drop_last() && unit@ == s@.skip(n - 1));
    let v = match parse_i64_of(&num) {
        Some(v) => v,
        None => return (None, false),
    };
    if unit.len() == 1 && unit[0] == 'd' {
        assert(unit@ == "d"@);
        (Some(v), false)
    } else if unit.len() == 1 && unit[0] == 'w' {
        assert(unit@ == "w"@);
        if v > i64::MAX / 7 || v < i64::MIN / 7 {
            (None, true)
        } else {
            (Some(v * 7), false)
        }
    } else if unit.len() == 1 && unit[0] == 'm' {
        assert(unit@ == "m"@);
        if v > i64::MAX / 30 || v < i64::MIN / 30 {
            (None, true)
        } else {
            (Some(v * 30), false)
        }
    } else {
        assert(unit@ != "d"@ && unit@ != "w"@ && unit@ != "m"@) by {
            if unit@.len() == 1 {
                assert(unit@[0] == unit[0]);
            }
        }
        (None, false)
    }
}

fn is_task_id_of(s: &[char]) -> (r: bool)
    ensures
        r == is_task_id(s@),
{
    if s.len() == 0 {
        return false;
    }
    let c = s[0];
    if !(('a' <= c && c <= 'z') || ('A' <= c && c <= 'Z')) {
        return false;
    }
    let mut i: usize = 0;
    while i < s.len()
        invariant
            i <= s@.len(),
            forall|k: int| 0 <= k < i ==> char_alnum(#[trigger] s@[k]) || s@[k] == '_',
        decreases s@.len() - i,
    {
        if !(is_alnum(s[i]) || s[i] == '_') {
            return false;
        }
        i += 1;
    }
    true
}

spec fn ids_view(v: Seq<(Vec<char>, i64)>) -> Seq<(Seq<char>, int)> {
    v.map_values(|e: (Vec<char>, i64)| (e.0@, e.1 as int))
}

fn lookup_end_of(ids: &Vec<(Vec<char>, i64)>, key: &[char]) -> (r: Option<i64>)
    ensures
        lookup_end(ids_view(ids@), key@) == (match r {
            Some(v) => Some(v as int),
            None => None,
        }),
{
    let ghost iv = ids_view(ids@);
    let mut i: usize = ids.len();
    assert(iv.take(ids@.len() as int) == iv);
    while i > 0
        invariant
            i <= ids@.len(),
            iv == ids_view(ids@),
            lookup_end(iv, key@) == lookup_end(iv.take(i as int), key@),
        decreases i,
    {
        assert(iv.take(i as int).drop_last() == iv.take(i - 1));
        assert(iv.take(i as int).last() == (ids@[i - 1].0@, ids@[i - 1].1 as int));
        if crate::text::eq_of(&ids[i - 1].0, key) {
            return Some(ids[i - 1].1);
        }
        i -= 1;
    }
    None
}

/// Task metadata while reading the parts.
struct MetaE {
    status: TaskStatus,
    milestone: bool,
    id: Option<Vec<char>>,
    start: Option<i64>,
    end: Option<i64>,
    duration: Option<i64>,
}

spec fn oi(o: Option<i64>) -> Option<int> {
    match o {
        Some(v) => Some(v as int),
        None => None,
    }
}

impl View for MetaE {
    type V = TaskMeta;

    closed spec fn view(&self) -> TaskMeta {
        TaskMeta {
            status: self.status,
            milestone: self.milestone,
            id: crate::parser::flowchart::ov(self.id),
            start: oi(self.start),
            end: oi(self.end),
            duration: oi(self.duration),
            fatal: false,
            rejected: false,
        }
    }
}

fn latest_end_of(ids: &Vec<(Vec<char>, i64)>, refs: &Vec<Vec<char>>) -> (r: Option<i64>)
    ensures
        latest_end(ids_view(ids@), views(refs@), refs@.len() as int) == oi(r),
{
    let ghost iv = ids_view(ids@);
    let mut latest: Option<i64> = None;
    let mut k: usize = 0;
    while k < refs.len()
        invariant
            k <= refs@.len(),
            iv == ids_view(ids@),
            latest_end(iv, views(refs@), k as int) == oi(latest),
        decreases refs@.len() - k,
    {
        assert(views(refs@)[k as int] == refs@[k as int]@);
        match lookup_end_of(ids, &refs[k]) {
            Some(e) => {
                latest = Some(
                    match latest {
                        Some(x) => if x > e {
                            x
                        } else {
                            e
                        },
                        None => e,
                    },
                );
            },
            None => {},
        }
        k += 1;
    }
    latest
}

fn meta_step_of(m: &mut MetaE, part: &[char], ids: &Vec<(Vec<char>, i64)>, cursor: Option<i64>) -> (p: (bool, bool))
    ensures
        p.0 == meta_step(old(m)@, part@, ids_view(ids@), oi(cursor)).fatal,
        p.1 == meta_step(old(m)@, part@, ids_view(ids@), oi(cursor)).rejected,
        !p.0 && !p.1 ==> final(m)@ == meta_step(old(m)@, part@, ids_view(ids@), oi(cursor)),
{
    proof {
        reveal_strlit("done");
        reveal_strlit("active");
        reveal_strlit("crit");
        reveal_strlit("milestone");
        reveal_strlit("after ");
    }
    if crate::text::eq_of(part, &chars_of("done")) {
        m.status = TaskStatus::Done;
    } else if crate::text::eq_of(part, &chars_of("active")) {
        m.status = TaskStatus::Active;
    } else if crate::text::eq_of(part, &chars_of("crit")) {
        m.status = TaskStatus::Critical;
    } else if crate::text::eq_of(part, &chars_of("milestone")) {
        m.milestone = true;
    } else if part.len() == 0 {
    } else if let Some(rest) = strip_prefix_of(part, &chars_of("after ")) {
        let refs = split_ws_of(&rest);
        let latest = latest_end_of(ids, &refs);
        m.start = if latest.is_some() {
            latest
        } else {
            cursor
        };
    } else {
        let (dur, p1) = parse_duration_of(part);
        if p1 {
            return (true, false);
        }
        if dur.is_some() {
            m.duration = dur;
        } else {
            let (date, p2, shaped) = parse_date_of(part);
            if p2 {
                return (true, false);
            }
            if date.is_some() {
                if m.start.is_none() {
                    m.start = date;
                } else {
                    m.end = date;
                }
            } else if shaped {
                return (false, true);
            } else if m.start.is_none() && m.id.is_none() && is_task_id_of(part) {
                m.id = Some(slice_of(part, 0, part.len()));
                assert(part@.subrange(0, part@.len() as int) == part@);
            }
        }
    }
    (false, false)
}

/// The task that goes with a fatal input: it keeps the label, has no id,
/// starts and ends at day zero, is planned and is not a milestone.
fn fatal_task(label: &[char]) -> (r: GanttTask)
    ensures
        r@.label == label@,
        r@.id is None,
        r@.start == 0,
        r@.end == 0,
        r@.status == TaskStatus::Planned,
        !r@.milestone,
{
    GanttTask { label: string_of(label), id: None, start: 0, end: 0, status: TaskStatus::Planned, milestone: false }
}

fn parse_task_of(label: &[char], meta: &[char], ids: &Vec<(Vec<char>, i64)>, cursor: Option<i64>) -> (r: (GanttTask, bool, bool))
    ensures
        r.2 == task_rejected(meta@, ids_view(ids@), oi(cursor)),
        !r.2 && !r.1 ==> parse_task_spec(label@, meta@, ids_view(ids@), oi(cursor)) == (r.0@, false),
        !r.2 ==> r.1 == parse_task_spec(label@, meta@, ids_view(ids@), oi(cursor)).1,
{
    proof {
        reveal_strlit(",");
        lemma_split_by_nonempty(meta@, ","@);
    }
    let ghost iv = ids_view(ids@);
    let raw = split_by_of(meta, &chars_of(","));
    let ghost parts = split_by(meta@, ","@).map_values(|p: Seq<char>| trim(p));
    let mut m = MetaE { status: TaskStatus::Planned, milestone: false, id: None, start: None, end: None, duration: None };
    let mut i: usize = 0;
    while i < raw.len()
        invariant
            i <= raw@.len(),
            views(raw@) == split_by(meta@, ","@),
            parts == split_by(meta@, ","@).map_values(|p: Seq<char>| trim(p)),
            iv == ids_view(ids@),
            meta_upto(parts, i as int, iv, oi(cursor)) == m@,
        decreases raw@.len() - i,
    {
        assert(views(raw@)[i as int] == raw@[i as int]@);
        let part = trim_of(&raw[i]);
        assert(parts[i as int] == part@);
        let p = meta_step_of(&mut m, &part, ids, cursor);
        if p.0 || p.1 {
            proof {
                lemma_meta_stop_sticky(parts, i + 1, raw@.len() as int, iv, oi(cursor));
            }
            return (fatal_task(label), p.0, p.1);
        }
        i += 1;
    }
    let s: i64 = match m.start {
        Some(v) => v,
        None => match cursor {
            Some(c) => c,
            None => 0,
        },
    };
    let inc: i64 = if m.milestone {
        0
    } else {
        1
    };
    if s > i64::MAX - inc {
        return (fatal_task(label), true, false);
    }
    match m.duration {
        Some(d) => {
            if (d > 0 && s > i64::MAX - d) || (d < 0 && s < i64::MIN - d) {
                return (fatal_task(label), true, false);
            }
        },
        None => {},
    }
    let e0: i64 = match m.end {
        Some(e) => e,
        None => match m.duration {
            Some(d) => s + d,
            None => s + inc,
        },
    };
    let task = GanttTask {
        label: string_of(label),
        id: match &m.id {
            Some(v) => Some(string_of(v)),
            None => None,
        },
        start: s,
        end: if e0 > s {
            e0
        } else {
            s
        },
        status: m.status,
        milestone: m.milestone,
    };
    (task, false, false)
}

proof fn lemma_meta_stop_sticky(parts: Seq<Seq<char>>, k: int, k2: int, ids: Seq<(Seq<char>, int)>, cursor: Option<int>)
    requires
        0 <= k <= k2 <= parts.len(),
        meta_upto(parts, k, ids, cursor).fatal || meta_upto(parts, k, ids, cursor).rejected,
    ensures
        meta_upto(parts, k2, ids, cursor) == meta_upto(parts, k, ids, cursor),
    decreases k2 - k,
{
    if k < k2 {
        lemma_meta_stop_sticky(parts, k, k2 - 1, ids, cursor);
    }
}

proof fn lemma_gantt_fatal_sticky(ls: Seq<(int, Seq<char>)>, k: int, k2: int)
    requires
        0 <= k <= k2 <= ls.len(),
        gantt_upto(ls, k).0.fatal,
    ensures
        gantt_upto(ls, k2) == gantt_upto(ls, k),
    decreases k2 - k,
{
    if k < k2 {
        lemma_gantt_fatal_sticky(ls, k, k2 - 1);
    }
}

/// Parse the lines of a `gantt` chart (after its header): the chart, one
/// warning per unparseable line, and whether the lines are fatal.
pub fn parse_gantt(lines: &Vec<Line>) -> (r: (GanttChart, Vec<ParseError>, bool))
    ensures
        ({
            let t = gantt_spec(lines_view(lines@));
            &&& r.2 == t.2
            &&& !r.2 ==> (r.0@, errs_view(r.1@)) == (t.0, t.1)
        }),
{
    proof {
        reveal_strlit("title ");
        reveal_strlit("dateFormat");
        reveal_strlit("excludes");
        reveal_strlit("axisFormat");
        reveal_strlit("section ");
        reveal_strlit(":");
        reveal_strlit("cannot parse gantt statement '");
        reveal_strlit("cannot parse gantt task '");
        reveal_strlit("'");
    }
    let ghost ls = lines_view(lines@);
    let mut chart = GanttChart { title: None, sections: Vec::new() };
    let mut ids: Vec<(Vec<char>, i64)> = Vec::new();
    let mut cursor: Option<i64> = None;
    let mut warnings: Vec<ParseError> = Vec::new();
    assert(chart@.sections =~= Seq::<GanttSectionV>::empty());
    assert(ids_view(ids@) =~= Seq::<(Seq<char>, int)>::empty());
    let mut i: usize = 0;
    while i < lines.len()
        invariant
            i <= lines@.len(),
            ls == lines_view(lines@),
            gantt_upto(ls, i as int) == (
                GanttState { chart: chart@, ids: ids_view(ids@), cursor: oi(cursor), fatal: false },
                errs_view(warnings@),
            ),
        decreases lines@.len() - i,
    {
        let ln = lines[i].0;
        let line = &lines[i].1;
        assert(ls[i as int] == (ln as int, line@));
        let ghost st0 = GanttState { chart: chart@, ids: ids_view(ids@), cursor: oi(cursor), fatal: false };
        let ghost step = gantt_line(st0, ln as int, line@);
        if let Some(t) = strip_prefix_of(line, &chars_of("title ")) {
            chart.title = Some(string_of(&trim_of(&t)));
        } else if starts_with_of(line, &chars_of("dateFormat")) || starts_with_of(line, &chars_of("excludes"))
            || starts_with_of(line, &chars_of("axisFormat")) {
        } else if let Some(name) = strip_prefix_of(line, &chars_of("section ")) {
            let sec = GanttSection { name: string_of(&trim_of(&name)), tasks: Vec::new() };
            assert(sec@.tasks =~= Seq::<GanttTaskV>::empty());
            chart.sections.push(sec);
            assert(chart@.sections =~= step.0.chart.sections);
        } else {
            match split_once_of(line, &chars_of(":")) {
                None => {
                    let a = concat(&chars_of("cannot parse gantt statement '"), line);
                    let m = concat(&a, &chars_of("'"));
                    let e = ParseError::syntax(ln, &m);
                    proof {
                        lemma_errs_push(warnings@, e);
                    }
                    warnings.push(e);
                },
                Some((label, meta)) => {
                    let (task, p, rejected) = parse_task_of(&trim_of(&label), &trim_of(&meta), &ids, cursor);
                    if rejected {
                        let a = concat(&chars_of("cannot parse gantt task '"), line);
                        let m = concat(&a, &chars_of("'"));
                        let e = ParseError::syntax(ln, &m);
                        proof {
                            lemma_errs_push(warnings@, e);
                        }
                        warnings.push(e);
                        i += 1;
                        continue;
                    }
                    if p {
                        proof {
                            lemma_gantt_fatal_sticky(ls, i + 1, ls.len() as int);
                        }
                        return (chart, warnings, true);
                    }
                    let key = match &task.id {
                        Some(v) => chars_of(v.as_str()),
                        None => chars_of(task.label.as_str()),
                    };
                    let end = task.end;
                    let ghost ids0 = ids_view(ids@);
                    ids.push((key, end));
                    assert(ids_view(ids@) =~= ids0.push((key@, end as int)));
                    cursor = Some(end);
                    if chart.sections.len() == 0 {
                        let sec = GanttSection { name: String::new(), tasks: Vec::new() };
                        assert(sec@.tasks =~= Seq::<GanttTaskV>::empty());
                        assert(sec@.name =~= Seq::<char>::empty());
                        chart.sections.push(sec);
                    }
                    let mut last = chart.sections.pop().unwrap();
                    let ghost lv = last@;
                    let ghost tv = task@;
                    last.tasks.push(task);
                    assert(last@.tasks =~= lv.tasks.push(tv));
                    chart.sections.push(last);
                    assert(chart@.sections =~= step.0.chart.sections);
                },
            }
        }
        i += 1;
    }
    (chart, warnings, false)
}

/// Every task of every section ends no earlier than it starts.
pub open spec fn tasks_ordered(c: GanttChartV) -> bool {
    forall|i: int, k: int|
        0 <= i < c.sections.len() && 0 <= k < c.sections[i].tasks.len() ==> (
        #[trigger] c.sections[i].tasks[k]).start <= c.sections[i].tasks[k].end
}

proof fn lemma_gantt_ordered(ls: Seq<(int, Seq<char>)>, k: int)
    requires
        0 <= k <= ls.len(),
    ensures
        tasks_ordered(gantt_upto(ls, k).0.chart),
    decreases k,
{
    if k > 0 {
        lemma_gantt_ordered(ls, k - 1);
    }
}

/// Every task of a parsed gantt chart ends no earlier than it starts (an
/// end before the start is clamped to the start).
pub proof fn law_gantt_tasks_ordered(ls: Seq<(int, Seq<char>)>)
    ensures
        tasks_ordered(gantt_spec(ls).0),
{
    lemma_gantt_ordered(ls, ls.len() as int);
}

} // verus!
