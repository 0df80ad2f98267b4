//! A parsed document: one of the diagram types the parsers understand.

use vstd::prelude::*;
use crate::ir::charts::{GanttChart, GanttChartV, PieSource, PieSourceV};
use crate::ir::graph::{Graph, GraphV};
use crate::ir::linear::{GitGraph, GitGraphV, Journey, JourneyV, Timeline, TimelineV};
use crate::ir::sequence::{SequenceDiagram, SequenceV};

verus! {

#[derive(Debug)]
pub enum Document {
    /// Flowcharts, state, class, ER and mindmap diagrams: anything drawn by
    /// the graph pipeline.
    Graph(Graph),
    Sequence(SequenceDiagram),
    /// A pie chart whose slice values are still text.
    Pie(PieSource),
    Timeline(Timeline),
    Journey(Journey),
    Git(GitGraph),
    Gantt(GanttChart),
}

pub enum DocV {
    Graph(GraphV),
    Sequence(SequenceV),
    Pie(PieSourceV),
    Timeline(TimelineV),
    Journey(JourneyV),
    Git(GitGraphV),
    Gantt(GanttChartV),
}

impl View for Document {
    type V = DocV;

    open spec fn view(&self) -> DocV {
        match self {
            Document::Graph(g) => DocV::Graph(g@),
            Document::Sequence(s) => DocV::Sequence(s@),
            Document::Pie(p) => DocV::Pie(p@),
            Document::Timeline(t) => DocV::Timeline(t@),
            Document::Journey(j) => DocV::Journey(j@),
            Document::Git(g) => DocV::Git(g@),
            Document::Gantt(c) => DocV::Gantt(c@),
        }
    }
}

} // verus!
