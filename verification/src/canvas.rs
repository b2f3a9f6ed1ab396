use vstd::prelude::*;

use crate::graph::{PositionedCommit, PositionedGraph};

verus! {

/// The commit-graph canvas: a graph and the commit selected in it.
pub struct GraphCanvas<'a> {
    graph: &'a PositionedGraph,
    selected_oid: Option<String>,
}

impl<'a> GraphCanvas<'a> {
    pub fn new(graph: &'a PositionedGraph, selected_oid: Option<String>) -> (canvas: Self)
        ensures
            canvas.graph() == graph,
            canvas.selected_oid() == selected_oid,
    {
        GraphCanvas { graph, selected_oid }
    }

    pub closed spec fn graph(&self) -> &'a PositionedGraph {
        self.graph
    }

    pub closed spec fn selected_oid(&self) -> Option<String> {
        self.selected_oid
    }

    /// The object id of the commit drawn in `row`, if there is one: a click on
    /// that row selects it.
    pub fn commit_at_row(&self, row: usize) -> (oid: Option<String>)
        ensures
            row < self.graph().commits@.len() ==> oid == Some(self.graph().commits@[row as int].node.oid),
            row >= self.graph().commits@.len() ==> oid is None,
    {
        if row < self.graph.commits.len() {
            Some(self.graph.commits[row].node.oid.clone())
        } else {
            None
        }
    }

    /// Whether `commit` is the selected commit.
    pub fn is_selected(&self, commit: &PositionedCommit) -> (selected: bool)
        ensures
            selected == (self.selected_oid() matches Some(oid) && oid@ == commit.node.oid@),
    {
        match &self.selected_oid {
            Some(oid) => *oid == commit.node.oid,
            None => false,
        }
    }

    /// The first commit of the graph that is the selected one, whose row is
    /// highlighted; `None` when nothing is selected or the selection is not in
    /// the graph.
    pub fn selected_commit(&self) -> (found: Option<&'a PositionedCommit>)
        ensures
            match found {
                Some(commit) => exists|i: int|
                    0 <= i < self.graph().commits@.len() && self.graph().commits@[i] == *commit
                        && (forall|j: int| 0 <= j < i ==> !(self.selected_oid() matches Some(oid) && oid@
                            == #[trigger] self.graph().commits@[j].node.oid@))
                        && (self.selected_oid() matches Some(oid) && oid@ == commit.node.oid@),
                None => forall|j: int|
                    0 <= j < self.graph().commits@.len() ==> !(self.selected_oid() matches Some(oid)
                        && oid@ == #[trigger] self.graph().commits@[j].node.oid@),
            },
    {
        let graph: &'a PositionedGraph = self.graph;
        let mut i: usize = 0;
        while i < graph.commits.len()
            invariant
                graph == self.graph(),
                i <= graph.commits@.len(),
                forall|j: int| 0 <= j < i ==> !(self.selected_oid() matches Some(oid) && oid@
                    == #[trigger] graph.commits@[j].node.oid@),
            decreases graph.commits@.len() - i,
        {
            let commit: &'a PositionedCommit = &graph.commits[i];
            if self.is_selected(commit) {
                return Some(commit);
            }
            i = i + 1;
        }
        None
    }
}

/// Whether a commit is a merge, which is drawn as a diamond rather than a circle.
pub fn is_merge(commit: &PositionedCommit) -> (merge: bool)
    ensures
        merge == (commit.node.parent_oids@.len() > 1),
{
    commit.node.parent_oids.len() > 1
}

/// The number of colours lanes cycle through.
pub const LANE_PALETTE_SIZE: usize = 9;

/// Which palette colour a lane is drawn in: lanes cycle through the palette.
pub fn lane_palette_index(lane: usize) -> (index: usize)
    ensures
        index == lane % LANE_PALETTE_SIZE,
        index < LANE_PALETTE_SIZE,
{
    lane % LANE_PALETTE_SIZE
}

} // verus!
