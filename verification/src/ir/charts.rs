//! Chart models that need no graph layout: gantt charts and pie sources.

use vstd::prelude::*;
use crate::ir::graph::opt_view;

verus! {

/// Task status; drives the bar color.
#[derive(Debug, Clone, Copy, PartialEq, Eq, Structural)]
pub enum TaskStatus {
    Planned,
    Active,
    Done,
    Critical,
}

/// One gantt bar, in civil days since 1970-01-01.
#[derive(Debug, Clone)]
pub struct GanttTask {
    pub label: String,
    pub id: Option<String>,
    pub start: i64,
    pub end: i64,
    pub status: TaskStatus,
    pub milestone: bool,
}

pub struct GanttTaskV {
    pub label: Seq<char>,
    pub id: Option<Seq<char>>,
    pub start: int,
    pub end: int,
    pub status: TaskStatus,
    pub milestone: bool,
}

impl View for GanttTask {
    type V = GanttTaskV;

    open spec fn view(&self) -> GanttTaskV {
        GanttTaskV {
            label: self.label@,
            id: opt_view(self.id),
            start: self.start as int,
            end: self.end as int,
            status: self.status,
            milestone: self.milestone,
        }
    }
}

#[derive(Debug, Clone)]
pub struct GanttSection {
    pub name: String,
    pub tasks: Vec<GanttTask>,
}

pub struct GanttSectionV {
    pub name: Seq<char>,
    pub tasks: Seq<GanttTaskV>,
}

impl View for GanttSection {
    type V = GanttSectionV;

    open spec fn view(&self) -> GanttSectionV {
        GanttSectionV { name: self.name@, tasks: self.tasks@.map_values(|t: GanttTask| t@) }
    }
}

/// A Mermaid `gantt` chart.
#[derive(Debug, Clone)]
pub struct GanttChart {
    pub title: Option<String>,
    pub sections: Vec<GanttSection>,
}

pub struct GanttChartV {
    pub title: Option<Seq<char>>,
    pub sections: Seq<GanttSectionV>,
}

impl View for GanttChart {
    type V = GanttChartV;

    open spec fn view(&self) -> GanttChartV {
        GanttChartV {
            title: opt_view(self.title),
            sections: self.sections@.map_values(|s: GanttSection| s@),
        }
    }
}

/// Every task, section by section, in order.
pub open spec fn all_tasks(secs: Seq<GanttSectionV>) -> Seq<GanttTaskV>
    decreases secs.len(),
{
    if secs.len() == 0 {
        seq![]
    } else {
        all_tasks(secs.drop_last()) + secs.last().tasks
    }
}

/// (earliest start, latest end) over `ts`, or `None` when empty.
pub open spec fn span_of(ts: Seq<GanttTaskV>) -> Option<(int, int)>
    decreases ts.len(),
{
    if ts.len() == 0 {
        None
    } else {
        let t = ts.last();
        match span_of(ts.drop_last()) {
            None => Some((t.start, t.end)),
            Some((lo, hi)) => Some(
                (
                    if t.start < lo {
                        t.start
                    } else {
                        lo
                    },
                    if t.end > hi {
                        t.end
                    } else {
                        hi
                    },
                ),
            ),
        }
    }
}

impl GanttChart {
    /// Every task of the chart, section by section.
    pub fn tasks(&self) -> (r: Vec<&GanttTask>)
        ensures
            r@.map_values(|t: &GanttTask| t@) == all_tasks(self@.sections),
    {
        let ghost sv = self@.sections;
        let mut out: Vec<&GanttTask> = Vec::new();
        let mut i: usize = 0;
        while i < self.sections.len()
            invariant
                i <= self.sections@.len(),
                sv == self@.sections,
                out@.map_values(|t: &GanttTask| t@) == all_tasks(sv.take(i as int)),
            decreases self.sections@.len() - i,
        {
            let sec = &self.sections[i];
            assert(sv[i as int] == sec@);
            assert(sv.take(i + 1).drop_last() == sv.take(i as int));
            let ghost before = out@.map_values(|t: &GanttTask| t@);
            let mut k: usize = 0;
            while k < sec.tasks.len()
                invariant
                    k <= sec.tasks@.len(),
                    out@.map_values(|t: &GanttTask| t@) == before + sec@.tasks.take(k as int),
                decreases sec.tasks@.len() - k,
            {
                assert(sec@.tasks[k as int] == sec.tasks@[k as int]@);
                let ghost old_out = out@;
                let tk = &sec.tasks[k];
                out.push(tk);
                assert(out@.map_values(|t: &GanttTask| t@) =~= old_out.map_values(|t: &GanttTask| t@).push(tk@));
                assert(sec@.tasks.take(k + 1) =~= sec@.tasks.take(k as int).push(tk@));
                assert(out@.map_values(|t: &GanttTask| t@) =~= before + sec@.tasks.take(k + 1));
                k += 1;
            }
            assert(sec@.tasks.take(sec.tasks@.len() as int) == sec@.tasks);
            i += 1;
        }
        assert(sv.take(self.sections@.len() as int) == sv);
        out
    }

    /// (min start, max end) across all tasks; `None` without tasks.
    pub fn time_range(&self) -> (r: Option<(i64, i64)>)
        ensures
            span_of(all_tasks(self@.sections)) == (match r {
                Some((lo, hi)) => Some((lo as int, hi as int)),
                None => None,
            }),
    {
        let ts = self.tasks();
        let ghost tv = ts@.map_values(|t: &GanttTask| t@);
        let mut range: Option<(i64, i64)> = None;
        let mut i: usize = 0;
        while i < ts.len()
            invariant
                i <= ts@.len(),
                tv == ts@.map_values(|t: &GanttTask| t@),
                span_of(tv.take(i as int)) == (match range {
                    Some((lo, hi)) => Some((lo as int, hi as int)),
                    None => None,
                }),
            decreases ts@.len() - i,
        {
            let t = ts[i];
            assert(tv[i as int] == t@);
            assert(tv.take(i + 1).drop_last() == tv.take(i as int));
            range = match range {
                None => Some((t.start, t.end)),
                Some((lo, hi)) => Some(
                    (
                        if t.start < lo {
                            t.start
                        } else {
                            lo
                        },
                        if t.end > hi {
                            t.end
                        } else {
                            hi
                        },
                    ),
                ),
            };
            i += 1;
        }
        assert(tv.take(ts@.len() as int) == tv);
        range
    }
}

/// A parsed `pie` chart before its values are read as numbers: the title,
/// the `showData` flag, and each slice's label with its value text.
#[derive(Debug, Clone)]
pub struct PieSource {
    pub title: Option<String>,
    pub show_data: bool,
    /// `(label, value text, source line)` per slice line.
    pub slices: Vec<(String, String, usize)>,
}

pub struct PieSourceV {
    pub title: Option<Seq<char>>,
    pub show_data: bool,
    pub slices: Seq<(Seq<char>, Seq<char>, int)>,
}

impl View for PieSource {
    type V = PieSourceV;

    open spec fn view(&self) -> PieSourceV {
        PieSourceV {
            title: opt_view(self.title),
            show_data: self.show_data,
            slices: self.slices@.map_values(|s: (String, String, usize)| (s.0@, s.1@, s.2 as int)),
        }
    }
}

proof fn lemma_span_ordered(ts: Seq<GanttTaskV>)
    requires
        forall|i: int| 0 <= i < ts.len() ==> (#[trigger] ts[i]).start <= ts[i].end,
    ensures
        span_of(ts) matches Some((lo, hi)) ==> lo <= hi,
        forall|i: int| 0 <= i < ts.len() ==> (span_of(ts) matches Some((lo, hi)) && lo <= (#[trigger] ts[i]).start && ts[i].end <= hi),
    decreases ts.len(),
{
    if ts.len() > 0 {
        let init = ts.drop_last();
        assert forall|i: int| 0 <= i < init.len() implies (#[trigger] init[i]).start <= init[i].end by {
            assert(init[i] == ts[i]);
        }
        lemma_span_ordered(init);
        assert forall|i: int| 0 <= i < ts.len() implies (span_of(ts) matches Some((lo, hi)) && lo <= (#[trigger] ts[i]).start && ts[i].end <= hi) by {
            if i < init.len() {
                assert(init[i] == ts[i]);
            }
        }
    }
}

/// When every task ends no earlier than it starts, the chart's time range
/// is ordered and covers every task.
pub proof fn law_time_range_covers_tasks(ts: Seq<GanttTaskV>)
    requires
        forall|i: int| 0 <= i < ts.len() ==> (#[trigger] ts[i]).start <= ts[i].end,
    ensures
        ts.len() > 0 <==> span_of(ts) is Some,
        span_of(ts) matches Some((lo, hi)) ==> lo <= hi,
        forall|i: int| 0 <= i < ts.len() ==> (span_of(ts) matches Some((lo, hi)) && lo <= (#[trigger] ts[i]).start && ts[i].end <= hi),
{
    lemma_span_ordered(ts);
    if ts.len() > 0 {
        assert(span_of(ts) is Some);
    }
}

} // verus!
