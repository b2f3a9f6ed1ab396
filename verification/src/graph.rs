use vstd::prelude::*;

use crate::layout;
use vstd::hash_map::StringHashMap;

verus! {

/// A commit as read from the repository, with the references that point at it.
#[derive(Debug, Clone)]
pub struct CommitNode {
    pub oid: String,
    pub summary: String,
    pub author: String,
    /// Commit time as a unix timestamp.
    pub time: i64,
    pub parent_oids: Vec<String>,
    pub refs: Vec<RefLabel>,
}

/// A reference label shown next to a commit.
#[derive(Debug, Clone)]
pub struct RefLabel {
    pub name: String,
    pub kind: RefKind,
}

/// What kind of reference a label stands for.
#[derive(Debug, Clone, PartialEq, Eq, Structural)]
pub enum RefKind {
    Branch,
    RemoteBranch,
    Tag,
    /// The currently checked-out commit.
    Head,
}

/// A reference label by value.
pub struct RefLabelView {
    pub name: Seq<char>,
    pub kind: RefKind,
}

impl View for RefLabel {
    type V = RefLabelView;

    open spec fn view(&self) -> RefLabelView {
        RefLabelView { name: self.name@, kind: self.kind }
    }
}

/// The labels of a commit, by value.
pub open spec fn labels_view(labels: Seq<RefLabel>) -> Seq<RefLabelView> {
    labels.map_values(|l: RefLabel| l@)
}

/// A commit together with its place in the drawn graph.
#[derive(Debug, Clone)]
pub struct PositionedCommit {
    pub node: CommitNode,
    /// Vertical position; row 0 is the newest commit.
    pub row: usize,
    /// Horizontal position: the column of the graph.
    pub lane: usize,
}

/// A line from a commit down to one of its parents.
#[derive(Debug, Clone)]
pub struct GraphEdge {
    pub from_row: usize,
    pub from_lane: usize,
    pub to_row: usize,
    pub to_lane: usize,
}

/// The laid-out commit graph.
#[derive(Debug, Clone)]
pub struct PositionedGraph {
    pub commits: Vec<PositionedCommit>,
    pub edges: Vec<GraphEdge>,
    pub lane_count: usize,
}

/// Index of the first free lane, or the number of lanes when every lane is in use.
pub fn first_free_lane(lanes: &[Option<String>]) -> (r: usize)
    ensures
        r <= lanes@.len(),
        forall|j: int| 0 <= j < r ==> lanes@[j] is Some,
        r < lanes@.len() ==> lanes@[r as int] is None,
        r == layout::first_slot(layout::lane_view(lanes@), None),
{
    let mut i: usize = 0;
    while i < lanes.len()
        invariant
            i <= lanes@.len(),
            forall|j: int| 0 <= j < i ==> lanes@[j] is Some,
        decreases lanes@.len() - i,
    {
        if lanes[i].is_none() {
            proof { layout::lemma_first_slot_at(layout::lane_view(lanes@), None, i as nat); }
            return i;
        }
        i = i + 1;
    }
    proof { layout::lemma_first_slot_at(layout::lane_view(lanes@), None, i as nat); }
    i
}


/// Index of the first lane heading to `oid`, or the number of lanes if none is.
fn lane_heading_to(lanes: &Vec<Option<String>>, oid: &String) -> (r: usize)
    ensures
        r <= lanes@.len(),
        r == layout::first_slot(layout::lane_view(lanes@), Some(oid@)),
{
    let mut i: usize = 0;
    while i < lanes.len()
        invariant
            i <= lanes@.len(),
            forall|j: int| 0 <= j < i ==> layout::lane_view(lanes@)[j] != Some(oid@),
        decreases lanes@.len() - i,
    {
        let hit = match &lanes[i] {
            Some(s) => *s == *oid,
            None => false,
        };
        if hit {
            proof { layout::lemma_first_slot_at(layout::lane_view(lanes@), Some(oid@), i as nat); }
            return i;
        }
        i = i + 1;
    }
    proof { layout::lemma_first_slot_at(layout::lane_view(lanes@), Some(oid@), i as nat); }
    i
}

/// Takes the first free lane, appending a new one when every lane is in use.
fn claim_free_lane(lanes: &mut Vec<Option<String>>) -> (l: usize)
    ensures
        layout::lane_view(final(lanes)@) == layout::claim_lane(layout::lane_view(old(lanes)@)).0,
        l as nat == layout::claim_lane(layout::lane_view(old(lanes)@)).1,
        l < final(lanes)@.len(),
        final(lanes)@.len() >= old(lanes)@.len(),
{
    let l = first_free_lane(lanes.as_slice());
    if l >= lanes.len() {
        lanes.push(None);
        proof {
            assert(layout::lane_view(lanes@) =~= layout::lane_view(old(lanes)@).push(None));
        }
    }
    l
}

/// Places one commit: picks its lane, ends the lanes that merge into it, and
/// sends lanes on to its parents.
fn place_commit_exec(active: &mut Vec<Option<String>>, max_lane: &mut usize, node: &CommitNode) -> (lane: usize)
    requires
        *old(max_lane) < old(active)@.len() || *old(max_lane) == 0,
    ensures
        layout::lane_state(final(active)@, *final(max_lane))
            == layout::place_commit(layout::lane_state(old(active)@, *old(max_lane)), *node).0,
        lane as nat == layout::place_commit(layout::lane_state(old(active)@, *old(max_lane)), *node).1,
        *final(max_lane) < final(active)@.len(),
{
    let ghost before = layout::lane_view(active@);
    let ghost oid = node.oid@;
    let ghost parents = layout::parent_view(*node);
    let e = lane_heading_to(active, &node.oid);
    let lane = if e < active.len() {
        e
    } else {
        claim_free_lane(active)
    };
    assert(layout::lane_view(active@) == layout::lanes_with_commit(before, oid));
    assert(lane as nat == layout::commit_lane(before, oid));
    if lane > *max_lane {
        *max_lane = lane;
    }
    let ghost taken = active@;
    let ghost closed = layout::close_merged(layout::lane_view(taken), oid, lane as nat);
    let mut k: usize = 0;
    while k < active.len()
        invariant
            active@.len() == taken.len(),
            lane < taken.len(),
            closed == layout::close_merged(layout::lane_view(taken), oid, lane as nat),
            forall|m: int| 0 <= m < k ==> layout::lane_view(active@)[m] == closed[m],
            forall|m: int| k <= m < taken.len() ==> active@[m] == taken[m],
            oid == node.oid@,
        decreases taken.len() - k,
    {
        let merged = match &active[k] {
            Some(s) => k != lane && *s == node.oid,
            None => false,
        };
        if merged {
            active.set(k, None);
        }
        assert(layout::lane_view(active@)[k as int] == closed[k as int]);
        k = k + 1;
    }
    assert(layout::lane_view(active@) =~= closed);
    if node.parent_oids.len() > 0 {
        active.set(lane, Some(node.parent_oids[0].clone()));
    } else {
        active.set(lane, None);
    }
    let ghost continued = layout::continue_lane(closed, lane as nat, parents);
    assert(layout::lane_view(active@) =~= continued);
    let ghost first_max = *max_lane;
    let mut j: usize = 1;
    while j < node.parent_oids.len()
        invariant
            j >= 1,
            parents == layout::parent_view(*node),
            layout::open_parent_lanes(layout::lane_view(active@), parents, j as nat, *max_lane as nat)
                == layout::open_parent_lanes(continued, parents, 1, first_max as nat),
            *max_lane < active@.len(),
        decreases node.parent_oids@.len() - j,
    {
        let ghost cur = layout::lane_view(active@);
        let l = claim_free_lane(active);
        active.set(l, Some(node.parent_oids[j].clone()));
        assert(layout::lane_view(active@) =~= layout::claim_lane(cur).0.update(l as int, Some(parents[j as int])));
        if l > *max_lane {
            *max_lane = l;
        }
        j = j + 1;
    }
    lane
}


/// Lays out the commit graph. The commits come in walk order, newest first;
/// commit `i` goes to row `i`. Lanes follow the lines of history: a commit
/// takes the first lane heading to it (other lanes heading to it end there),
/// or the first free lane when none is; its first parent carries on in its
/// lane and every further parent gets a lane of its own. Each parent that is
/// in the graph is joined to its child by an edge.
pub fn position_commits(nodes: Vec<CommitNode>) -> (graph: PositionedGraph)
    ensures
        graph.commits@.len() == nodes@.len(),
        forall|i: int|
            0 <= i < nodes@.len() ==> #[trigger] graph.commits@[i] == (PositionedCommit {
                node: nodes@[i],
                row: i as usize,
                lane: layout::commit_lanes(nodes@)[i] as usize,
            }),
        graph.edges@ == layout::graph_edges(nodes@),
        graph.lane_count == layout::lane_count(nodes@),
        forall|i: int| 0 <= i < nodes@.len() ==> #[trigger] graph.commits@[i].lane < graph.lane_count,
{
    let ghost all = nodes@;
    let n = nodes.len();
    let mut active: Vec<Option<String>> = Vec::new();
    let mut max_lane: usize = 0;
    let mut lanes: Vec<usize> = Vec::new();
    assert(layout::lane_view(active@) =~= Seq::empty());
    let mut i: usize = 0;
    while i < n
        invariant
            n == all.len(),
            all == nodes@,
            i <= n,
            layout::lane_state(active@, max_lane) == layout::layout(all, i as nat).0,
            lanes@.len() == i,
            forall|j: int| 0 <= j < i ==> lanes@[j] == layout::layout(all, i as nat).1[j],
            layout::layout(all, i as nat).1.len() == i,
            max_lane < active@.len() || max_lane == 0,
        decreases n - i,
    {
        let lane = place_commit_exec(&mut active, &mut max_lane, &nodes[i]);
        lanes.push(lane);
        i = i + 1;
    }
    let ghost placed = layout::commit_lanes(all);
    assert(forall|j: int| 0 <= j < n ==> lanes@[j] == placed[j]);
    let active_len = active.len();
    assert(max_lane < active_len || max_lane == 0);
    let lane_count = max_lane + 1;

    let mut positions: StringHashMap<(usize, usize)> = StringHashMap::new();
    let mut i: usize = 0;
    while i < n
        invariant
            n == all.len(),
            all == nodes@,
            i <= n,
            lanes@.len() == n,
            placed.len() == n,
            forall|j: int| 0 <= j < n ==> lanes@[j] == placed[j],
            positions@ == layout::oid_positions(all, placed, i as nat),
        decreases n - i,
    {
        positions.insert(nodes[i].oid.clone(), (i, lanes[i]));
        i = i + 1;
    }
    let ghost pos = positions@;

    let mut edges: Vec<GraphEdge> = Vec::new();
    let mut i: usize = 0;
    while i < n
        invariant
            n == all.len(),
            all == nodes@,
            i <= n,
            lanes@.len() == n,
            placed.len() == n,
            forall|j: int| 0 <= j < n ==> lanes@[j] == placed[j],
            positions@ == pos,
            edges@ == layout::edges_upto(all, placed, pos, i as nat),
        decreases n - i,
    {
        let parents = &nodes[i].parent_oids;
        let mut k: usize = 0;
        while k < parents.len()
            invariant
                n == all.len(),
                all == nodes@,
                i < n,
                *parents == all[i as int].parent_oids,
                k <= parents@.len(),
                lanes@.len() == n,
                placed.len() == n,
            forall|j: int| 0 <= j < n ==> lanes@[j] == placed[j],
                positions@ == pos,
                edges@ == layout::edges_upto(all, placed, pos, i as nat) + layout::parent_edges(
                    all,
                    placed,
                    pos,
                    i as nat,
                    k as nat,
                ),
            decreases parents@.len() - k,
        {
            match positions.get(parents[k].as_str()) {
                Some(found) => {
                    edges.push(
                        GraphEdge {
                            from_row: i,
                            from_lane: lanes[i],
                            to_row: found.0,
                            to_lane: found.1,
                        },
                    );
                },
                None => {},
            }
            k = k + 1;
        }
        i = i + 1;
    }

    let mut commits: Vec<PositionedCommit> = Vec::new();
    let mut row: usize = 0;
    for node in it: nodes.into_iter()
        invariant
            n == all.len(),
            it.seq() == all,
            row == it.index(),
            commits@.len() == row,
            lanes@.len() == n,
            placed.len() == n,
            forall|j: int| 0 <= j < n ==> lanes@[j] == placed[j],
            forall|j: int|
                0 <= j < row ==> #[trigger] commits@[j] == (PositionedCommit {
                    node: all[j],
                    row: j as usize,
                    lane: placed[j] as usize,
                }),
    {
        commits.push(PositionedCommit { node, row, lane: lanes[row] });
        row = row + 1;
    }
    proof { crate::laws::law_lanes_within_lane_count(all); }
    PositionedGraph { commits, edges, lane_count }
}

} // verus!
