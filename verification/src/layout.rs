use vstd::prelude::*;

use crate::graph::{CommitNode, GraphEdge};

verus! {

/// What a lane slot holds, by value: the object id the lane is heading to, if any.
pub open spec fn slot_view(s: Option<String>) -> Option<Seq<char>> {
    match s {
        Some(x) => Some(x@),
        None => None,
    }
}

pub open spec fn lane_view(lanes: Seq<Option<String>>) -> Seq<Option<Seq<char>>> {
    lanes.map_values(|s: Option<String>| slot_view(s))
}

/// Index of the first lane that holds `target`, or the number of lanes if none does.
pub open spec fn first_slot(lanes: Seq<Option<Seq<char>>>, target: Option<Seq<char>>) -> nat
    decreases lanes.len(),
{
    if lanes.len() == 0 {
        0
    } else if lanes[0] == target {
        0
    } else {
        1 + first_slot(lanes.drop_first(), target)
    }
}

/// `first_slot` is the one index `r` with no earlier match and a match at `r` (unless `r` is the end).
pub proof fn lemma_first_slot_at(lanes: Seq<Option<Seq<char>>>, target: Option<Seq<char>>, r: nat)
    requires
        r <= lanes.len(),
        forall|j: int| 0 <= j < r ==> lanes[j] != target,
        r < lanes.len() ==> lanes[r as int] == target,
    ensures
        first_slot(lanes, target) == r,
    decreases lanes.len(),
{
    if lanes.len() > 0 && r > 0 {
        assert(lanes[0] != target);
        lemma_first_slot_at(lanes.drop_first(), target, (r - 1) as nat);
    }
}

/// The first matching lane is never past the end.
pub proof fn lemma_first_slot_bound(lanes: Seq<Option<Seq<char>>>, target: Option<Seq<char>>)
    ensures
        first_slot(lanes, target) <= lanes.len(),
    decreases lanes.len(),
{
    if lanes.len() > 0 && lanes[0] != target {
        lemma_first_slot_bound(lanes.drop_first(), target);
    }
}


/// The object ids a commit's parents, by value.
pub open spec fn parent_view(node: CommitNode) -> Seq<Seq<char>> {
    node.parent_oids@.map_values(|p: String| p@)
}

pub open spec fn max_nat(a: nat, b: nat) -> nat {
    if a >= b {
        a
    } else {
        b
    }
}

/// Lane state while walking the history from newest to oldest: what each
/// lane is heading to, and the largest lane index used so far.
pub struct LaneState {
    pub lanes: Seq<Option<Seq<char>>>,
    pub max_lane: nat,
}

/// The lane state that a vector of lane slots and a largest lane index stand for.
pub open spec fn lane_state(lanes: Seq<Option<String>>, max_lane: usize) -> LaneState {
    LaneState { lanes: lane_view(lanes), max_lane: max_lane as nat }
}

pub open spec fn initial_lanes() -> LaneState {
    LaneState { lanes: Seq::empty(), max_lane: 0 }
}

/// Takes a lane for a new line of history: the first free lane, or a new lane
/// at the end when none is free.
pub open spec fn claim_lane(lanes: Seq<Option<Seq<char>>>) -> (Seq<Option<Seq<char>>>, nat) {
    let l = first_slot(lanes, None);
    if l < lanes.len() {
        (lanes, l)
    } else {
        (lanes.push(None), l)
    }
}

/// No lane before `first_slot` holds the target, and the lane at `first_slot`
/// (unless it is the end) does.
pub proof fn lemma_first_slot_props(lanes: Seq<Option<Seq<char>>>, target: Option<Seq<char>>)
    ensures
        first_slot(lanes, target) <= lanes.len(),
        forall|j: int| 0 <= j < first_slot(lanes, target) ==> lanes[j] != target,
        first_slot(lanes, target) < lanes.len() ==> lanes[first_slot(lanes, target) as int] == target,
    decreases lanes.len(),
{
    if lanes.len() > 0 && lanes[0] != target {
        let rest = lanes.drop_first();
        lemma_first_slot_props(rest, target);
        assert forall|j: int| 0 <= j < first_slot(lanes, target) implies lanes[j] != target by {
            if j > 0 {
                assert(lanes[j] == rest[j - 1]);
            }
        }
    }
}

/// A claimed lane is a lane of the result; the lanes before it are unchanged
/// and at most one free lane is appended.
pub proof fn lemma_claim_lane(lanes: Seq<Option<Seq<char>>>)
    ensures
        claim_lane(lanes).1 < claim_lane(lanes).0.len(),
        claim_lane(lanes).0.len() == lanes.len() || claim_lane(lanes).0 == lanes.push(None),
        claim_lane(lanes).0.len() > lanes.len() ==> claim_lane(lanes).1 == lanes.len(),
        forall|k: int| 0 <= k < lanes.len() ==> #[trigger] claim_lane(lanes).0[k] == lanes[k],
{
    lemma_first_slot_bound(lanes, None);
}

/// The lane a commit goes to is one of the lanes it leaves behind.
pub proof fn lemma_commit_lane_in_range(lanes: Seq<Option<Seq<char>>>, oid: Seq<char>)
    ensures
        commit_lane(lanes, oid) < lanes_with_commit(lanes, oid).len(),
        lanes_with_commit(lanes, oid).len() >= lanes.len(),
{
    lemma_claim_lane(lanes);
}

/// Whether some lane is heading to `oid`.
pub open spec fn is_expected(lanes: Seq<Option<Seq<char>>>, oid: Seq<char>) -> bool {
    first_slot(lanes, Some(oid)) < lanes.len()
}

/// The lane a commit goes to: the first lane heading to it, or else a freshly claimed lane.
pub open spec fn commit_lane(lanes: Seq<Option<Seq<char>>>, oid: Seq<char>) -> nat {
    if is_expected(lanes, oid) {
        first_slot(lanes, Some(oid))
    } else {
        claim_lane(lanes).1
    }
}

/// The lanes once the commit has its lane (a new lane may have been appended).
pub open spec fn lanes_with_commit(lanes: Seq<Option<Seq<char>>>, oid: Seq<char>) -> Seq<Option<Seq<char>>> {
    if is_expected(lanes, oid) {
        lanes
    } else {
        claim_lane(lanes).0
    }
}

/// Every lane but `keep` that was heading to `oid` merges into the commit and ends.
pub open spec fn close_merged(lanes: Seq<Option<Seq<char>>>, oid: Seq<char>, keep: nat) -> Seq<Option<Seq<char>>> {
    Seq::new(lanes.len(), |k: int| if k != keep && lanes[k] == Some(oid) { None } else { lanes[k] })
}

/// The commit's lane goes on to its first parent, or ends at a root commit.
pub open spec fn continue_lane(lanes: Seq<Option<Seq<char>>>, lane: nat, parents: Seq<Seq<char>>) -> Seq<Option<Seq<char>>> {
    lanes.update(lane as int, if parents.len() > 0 { Some(parents[0]) } else { None })
}

/// Each parent from index `j` on gets a lane of its own.
pub open spec fn open_parent_lanes(
    lanes: Seq<Option<Seq<char>>>,
    parents: Seq<Seq<char>>,
    j: nat,
    max_lane: nat,
) -> (Seq<Option<Seq<char>>>, nat)
    decreases parents.len() - j,
{
    if j >= parents.len() {
        (lanes, max_lane)
    } else {
        let (claimed, lane) = claim_lane(lanes);
        open_parent_lanes(
            claimed.update(lane as int, Some(parents[j as int])),
            parents,
            j + 1,
            max_nat(max_lane, lane),
        )
    }
}

/// One step of the layout: places `node` and returns the new state and the node's lane.
pub open spec fn place_commit(state: LaneState, node: CommitNode) -> (LaneState, nat) {
    let oid = node.oid@;
    let parents = parent_view(node);
    let lane = commit_lane(state.lanes, oid);
    let merged = close_merged(lanes_with_commit(state.lanes, oid), oid, lane);
    let continued = continue_lane(merged, lane, parents);
    let (opened, max_lane) = open_parent_lanes(continued, parents, 1, max_nat(state.max_lane, lane));
    (LaneState { lanes: opened, max_lane }, lane)
}

/// The lane state after the first `n` commits, and the lanes of those commits.
pub open spec fn layout(nodes: Seq<CommitNode>, n: nat) -> (LaneState, Seq<nat>)
    decreases n,
{
    if n == 0 {
        (initial_lanes(), Seq::empty())
    } else {
        let (state, placed) = layout(nodes, (n - 1) as nat);
        let (next, lane) = place_commit(state, nodes[n - 1]);
        (next, placed.push(lane))
    }
}

/// The lane of every commit.
pub open spec fn commit_lanes(nodes: Seq<CommitNode>) -> Seq<nat> {
    layout(nodes, nodes.len()).1
}

/// The number of lanes the graph is drawn with: one more than the largest lane used.
pub open spec fn lane_count(nodes: Seq<CommitNode>) -> nat {
    layout(nodes, nodes.len()).0.max_lane + 1
}

/// Row and lane of the last commit with each object id among the first `n`.
pub open spec fn oid_positions(nodes: Seq<CommitNode>, lanes: Seq<nat>, n: nat) -> Map<Seq<char>, (usize, usize)>
    decreases n,
{
    if n == 0 {
        Map::empty()
    } else {
        oid_positions(nodes, lanes, (n - 1) as nat).insert(
            nodes[n - 1].oid@,
            ((n - 1) as usize, lanes[n - 1] as usize),
        )
    }
}

/// The edges from commit `i` to its first `k` parents, skipping parents that are not in the graph.
pub open spec fn parent_edges(
    nodes: Seq<CommitNode>,
    lanes: Seq<nat>,
    pos: Map<Seq<char>, (usize, usize)>,
    i: nat,
    k: nat,
) -> Seq<GraphEdge>
    decreases k,
{
    if k == 0 {
        Seq::empty()
    } else {
        let rest = parent_edges(nodes, lanes, pos, i, (k - 1) as nat);
        let p = nodes[i as int].parent_oids@[k - 1]@;
        if pos.contains_key(p) {
            rest.push(
                GraphEdge {
                    from_row: i as usize,
                    from_lane: lanes[i as int] as usize,
                    to_row: pos[p].0,
                    to_lane: pos[p].1,
                },
            )
        } else {
            rest
        }
    }
}

/// The edges of the first `n` commits, commit by commit and parent by parent.
pub open spec fn edges_upto(
    nodes: Seq<CommitNode>,
    lanes: Seq<nat>,
    pos: Map<Seq<char>, (usize, usize)>,
    n: nat,
) -> Seq<GraphEdge>
    decreases n,
{
    if n == 0 {
        Seq::empty()
    } else {
        edges_upto(nodes, lanes, pos, (n - 1) as nat) + parent_edges(
            nodes,
            lanes,
            pos,
            (n - 1) as nat,
            nodes[n - 1].parent_oids@.len(),
        )
    }
}

/// All edges of the laid-out graph.
pub open spec fn graph_edges(nodes: Seq<CommitNode>) -> Seq<GraphEdge> {
    let lanes = commit_lanes(nodes);
    edges_upto(nodes, lanes, oid_positions(nodes, lanes, nodes.len()), nodes.len())
}

} // verus!
