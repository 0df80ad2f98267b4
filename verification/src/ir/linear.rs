//! Linear chart models: timelines, user journeys and git graphs.

use vstd::prelude::*;
use crate::ir::graph::{opt_view, strings_view};

verus! {

/// One column of a timeline: a period label with its stacked events.
#[derive(Debug, Clone)]
pub struct TimelinePeriod {
    pub label: String,
    pub events: Vec<String>,
    /// The `section` the period was declared under, if any.
    pub section: Option<String>,
}

pub struct PeriodV {
    pub label: Seq<char>,
    pub events: Seq<Seq<char>>,
    pub section: Option<Seq<char>>,
}

impl View for TimelinePeriod {
    type V = PeriodV;

    open spec fn view(&self) -> PeriodV {
        PeriodV {
            label: self.label@,
            events: strings_view(self.events@),
            section: opt_view(self.section),
        }
    }
}

/// A Mermaid `timeline`.
#[derive(Debug, Clone)]
pub struct Timeline {
    pub title: Option<String>,
    pub periods: Vec<TimelinePeriod>,
}

pub struct TimelineV {
    pub title: Option<Seq<char>>,
    pub periods: Seq<PeriodV>,
}

impl View for Timeline {
    type V = TimelineV;

    open spec fn view(&self) -> TimelineV {
        TimelineV {
            title: opt_view(self.title),
            periods: self.periods@.map_values(|p: TimelinePeriod| p@),
        }
    }
}

/// One journey step: a label, a satisfaction score and the actors involved.
#[derive(Debug, Clone)]
pub struct JourneyTask {
    pub label: String,
    /// 1 (worst) to 5 (best).
    pub score: u8,
    pub actors: Vec<String>,
}

pub struct TaskV {
    pub label: Seq<char>,
    pub score: u8,
    pub actors: Seq<Seq<char>>,
}

impl View for JourneyTask {
    type V = TaskV;

    open spec fn view(&self) -> TaskV {
        TaskV { label: self.label@, score: self.score, actors: strings_view(self.actors@) }
    }
}

#[derive(Debug, Clone)]
pub struct JourneySection {
    pub name: String,
    pub tasks: Vec<JourneyTask>,
}

pub struct SectionV {
    pub name: Seq<char>,
    pub tasks: Seq<TaskV>,
}

impl View for JourneySection {
    type V = SectionV;

    open spec fn view(&self) -> SectionV {
        SectionV { name: self.name@, tasks: self.tasks@.map_values(|t: JourneyTask| t@) }
    }
}

/// A Mermaid user `journey`.
#[derive(Debug, Clone)]
pub struct Journey {
    pub title: Option<String>,
    pub sections: Vec<JourneySection>,
}

pub struct JourneyV {
    pub title: Option<Seq<char>>,
    pub sections: Seq<SectionV>,
}

impl View for Journey {
    type V = JourneyV;

    open spec fn view(&self) -> JourneyV {
        JourneyV {
            title: opt_view(self.title),
            sections: self.sections@.map_values(|s: JourneySection| s@),
        }
    }
}

/// One `gitGraph` statement. Branch references are indices into
/// `GitGraph::branches`.
#[derive(Debug, Clone)]
pub enum GitOp {
    Commit { id: Option<String>, tag: Option<String>, branch: usize },
    /// Create a branch (and check it out).
    Branch { name: String },
    Merge { from_branch: usize, into_branch: usize, tag: Option<String> },
}

pub enum GitOpV {
    Commit { id: Option<Seq<char>>, tag: Option<Seq<char>>, branch: int },
    Branch { name: Seq<char> },
    Merge { from_branch: int, into_branch: int, tag: Option<Seq<char>> },
}

impl View for GitOp {
    type V = GitOpV;

    open spec fn view(&self) -> GitOpV {
        match self {
            GitOp::Commit { id, tag, branch } => GitOpV::Commit {
                id: opt_view(*id),
                tag: opt_view(*tag),
                branch: *branch as int,
            },
            GitOp::Branch { name } => GitOpV::Branch { name: name@ },
            GitOp::Merge { from_branch, into_branch, tag } => GitOpV::Merge {
                from_branch: *from_branch as int,
                into_branch: *into_branch as int,
                tag: opt_view(*tag),
            },
        }
    }
}

/// A Mermaid `gitGraph`: branch names (lane order) and the statements.
#[derive(Debug, Clone)]
pub struct GitGraph {
    pub branches: Vec<String>,
    pub ops: Vec<GitOp>,
}

pub struct GitGraphV {
    pub branches: Seq<Seq<char>>,
    pub ops: Seq<GitOpV>,
}

impl View for GitGraph {
    type V = GitGraphV;

    open spec fn view(&self) -> GitGraphV {
        GitGraphV {
            branches: strings_view(self.branches@),
            ops: self.ops@.map_values(|o: GitOp| o@),
        }
    }
}

} // verus!
