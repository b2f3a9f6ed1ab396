use vstd::prelude::*;

use crate::graph::{CommitNode, GraphEdge};
use crate::layout;

verus! {

/// The object ids of a commit's parents, in order.
pub open spec fn parents_of(node: CommitNode) -> Seq<Seq<char>> {
    node.parent_oids@.map_values(|p: String| p@)
}

proof fn lemma_open_parent_lanes_max(
    lanes: Seq<Option<Seq<char>>>,
    parents: Seq<Seq<char>>,
    j: nat,
    max_lane: nat,
)
    ensures
        layout::open_parent_lanes(lanes, parents, j, max_lane).1 >= max_lane,
    decreases parents.len() - j,
{
    if j < parents.len() {
        let (claimed, lane) = layout::claim_lane(lanes);
        lemma_open_parent_lanes_max(
            claimed.update(lane as int, Some(parents[j as int])),
            parents,
            j + 1,
            layout::max_nat(max_lane, lane),
        );
    }
}

proof fn lemma_layout_lanes(nodes: Seq<CommitNode>, n: nat)
    ensures
        layout::layout(nodes, n).1.len() == n,
        forall|i: int| 0 <= i < n ==> layout::layout(nodes, n).1[i] <= layout::layout(nodes, n).0.max_lane,
    decreases n,
{
    if n > 0 {
        lemma_layout_lanes(nodes, (n - 1) as nat);
        let (state, placed) = layout::layout(nodes, (n - 1) as nat);
        let node = nodes[n - 1];
        let oid = node.oid@;
        let parents = parents_of(node);
        let lane = layout::commit_lane(state.lanes, oid);
        let merged = layout::close_merged(layout::lanes_with_commit(state.lanes, oid), oid, lane);
        let continued = layout::continue_lane(merged, lane, parents);
        lemma_open_parent_lanes_max(continued, parents, 1, layout::max_nat(state.max_lane, lane));
    }
}

/// Every commit is drawn in a lane below the lane count, and the graph has at least one lane.
pub proof fn law_lanes_within_lane_count(nodes: Seq<CommitNode>)
    ensures
        layout::commit_lanes(nodes).len() == nodes.len(),
        forall|i: int| 0 <= i < nodes.len() ==> layout::commit_lanes(nodes)[i] < layout::lane_count(nodes),
        layout::lane_count(nodes) >= 1,
{
    lemma_layout_lanes(nodes, nodes.len());
}

/// The commits form one line of history, newest first: the only parent of
/// each commit is the next one, and the last commit is a root.
pub open spec fn is_linear_history(nodes: Seq<CommitNode>) -> bool {
    &&& forall|i: int|
        0 <= i < nodes.len() - 1 ==> #[trigger] parents_of(nodes[i]) == seq![nodes[i + 1].oid@]
    &&& nodes.len() > 0 ==> nodes[nodes.len() - 1].parent_oids@.len() == 0
}

/// The lanes of a linear history after its first `k` commits: nothing, then
/// the single lane heading to commit `k`, and at the end a single free lane.
spec fn linear_lanes(nodes: Seq<CommitNode>, k: nat) -> Seq<Option<Seq<char>>> {
    if k == 0 {
        Seq::empty()
    } else if k < nodes.len() {
        seq![Some(nodes[k as int].oid@)]
    } else {
        seq![None]
    }
}

proof fn lemma_linear_layout(nodes: Seq<CommitNode>, k: nat)
    requires
        is_linear_history(nodes),
        k <= nodes.len(),
    ensures
        layout::layout(nodes, k).0.lanes == linear_lanes(nodes, k),
        layout::layout(nodes, k).0.max_lane == 0,
        layout::layout(nodes, k).1.len() == k,
        forall|i: int| 0 <= i < k ==> layout::layout(nodes, k).1[i] == 0,
    decreases k,
{
    if k > 0 {
        let i = (k - 1) as nat;
        lemma_linear_layout(nodes, i);
        let state = layout::layout(nodes, i).0;
        let node = nodes[i as int];
        let oid = node.oid@;
        let parents = parents_of(node);
        let none: Option<Seq<char>> = None;
        if i == 0 {
            layout::lemma_first_slot_at(state.lanes, Some(oid), 0);
            layout::lemma_first_slot_at(state.lanes, None, 0);
            assert(state.lanes.push(none) =~= seq![none]);
        } else {
            layout::lemma_first_slot_at(state.lanes, Some(oid), 0);
        }
        let lane = layout::commit_lane(state.lanes, oid);
        assert(lane == 0);
        let taken = layout::lanes_with_commit(state.lanes, oid);
        assert(taken.len() == 1);
        let merged = layout::close_merged(taken, oid, lane);
        assert(merged =~= taken);
        let continued = layout::continue_lane(merged, lane, parents);
        if k < nodes.len() {
            assert(parents == seq![nodes[k as int].oid@]);
            assert(continued =~= seq![Some(nodes[k as int].oid@)]);
        } else {
            assert(parents.len() == 0);
            assert(continued =~= seq![none]);
        }
        assert(layout::open_parent_lanes(continued, parents, 1, 0) == (continued, 0nat));
    }
}

/// A linear history is drawn in a single lane: every commit is in lane 0 and
/// the lane count is 1.
pub proof fn law_linear_history_uses_one_lane(nodes: Seq<CommitNode>)
    requires
        is_linear_history(nodes),
    ensures
        forall|i: int| 0 <= i < nodes.len() ==> layout::commit_lanes(nodes)[i] == 0,
        layout::lane_count(nodes) == 1,
{
    lemma_linear_layout(nodes, nodes.len());
}

/// Every lane is heading to one of `parents`.
spec fn all_heading_to(lanes: Seq<Option<Seq<char>>>, parents: Seq<Seq<char>>) -> bool {
    forall|k: int| 0 <= k < lanes.len() ==> #[trigger] lanes[k] is Some && parents.contains(lanes[k]->0)
}

proof fn lemma_open_parent_lanes_all_heading(
    lanes: Seq<Option<Seq<char>>>,
    parents: Seq<Seq<char>>,
    j: nat,
    max_lane: nat,
)
    requires
        all_heading_to(lanes, parents),
        lanes.len() >= 1,
    ensures
        all_heading_to(layout::open_parent_lanes(lanes, parents, j, max_lane).0, parents),
        layout::open_parent_lanes(lanes, parents, j, max_lane).0.len() >= 1,
    decreases parents.len() - j,
{
    if j < parents.len() {
        layout::lemma_first_slot_at(lanes, None, lanes.len());
        let (claimed, lane) = layout::claim_lane(lanes);
        let next = claimed.update(lane as int, Some(parents[j as int]));
        assert(parents.contains(parents[j as int]));
        assert(all_heading_to(next, parents));
        lemma_open_parent_lanes_all_heading(next, parents, j + 1, layout::max_nat(max_lane, lane));
    }
}

/// The lanes of the first `m` commits do not change as further commits are placed.
proof fn lemma_layout_prefix(nodes: Seq<CommitNode>, m: nat, n: nat)
    requires
        m <= n,
    ensures
        forall|i: int| 0 <= i < m ==> layout::layout(nodes, n).1[i] == layout::layout(nodes, m).1[i],
    decreases n,
{
    lemma_layout_lanes(nodes, n);
    lemma_layout_lanes(nodes, m);
    if m < n {
        lemma_layout_prefix(nodes, m, (n - 1) as nat);
        lemma_layout_lanes(nodes, (n - 1) as nat);
    }
}

/// A second branch tip opens a lane of its own: when the newest commit has a
/// parent and the commit after it is not one of its parents, that second
/// commit is not drawn in lane 0 and the graph has at least two lanes.
pub proof fn law_second_branch_tip_opens_a_lane(nodes: Seq<CommitNode>)
    requires
        nodes.len() >= 2,
        nodes[0].parent_oids@.len() > 0,
        !parents_of(nodes[0]).contains(nodes[1].oid@),
    ensures
        layout::commit_lanes(nodes)[1] >= 1,
        layout::lane_count(nodes) >= 2,
{
    let none: Option<Seq<char>> = None;
    let first = nodes[0];
    let parents = parents_of(first);
    let empty = layout::initial_lanes().lanes;
    let oid = first.oid@;
    assert(layout::layout(nodes, 0).0 == layout::initial_lanes());
    layout::lemma_first_slot_at(empty, Some(oid), 0);
    layout::lemma_first_slot_at(empty, None, 0);
    let lane = layout::commit_lane(empty, oid);
    assert(lane == 0);
    let taken = layout::lanes_with_commit(empty, oid);
    assert(taken =~= seq![none]);
    let merged = layout::close_merged(taken, oid, lane);
    assert(merged =~= seq![none]);
    let continued = layout::continue_lane(merged, lane, parents);
    assert(continued =~= seq![Some(parents[0])]);
    assert(parents.contains(parents[0]));
    assert(all_heading_to(continued, parents));
    lemma_open_parent_lanes_all_heading(continued, parents, 1, layout::max_nat(0, lane));
    assert(layout::layout(nodes, 1).0 == layout::place_commit(layout::initial_lanes(), first).0);
    let lanes = layout::layout(nodes, 1).0.lanes;
    assert(all_heading_to(lanes, parents));
    let second = nodes[1].oid@;
    assert forall|k: int| 0 <= k < lanes.len() implies lanes[k] != Some(second) by {
        assert(lanes[k] is Some && parents.contains(lanes[k]->0));
    }
    layout::lemma_first_slot_at(lanes, Some(second), lanes.len());
    layout::lemma_first_slot_at(lanes, None, lanes.len());
    assert(layout::layout(nodes, 2).1 == layout::layout(nodes, 1).1.push(
        layout::place_commit(layout::layout(nodes, 1).0, nodes[1]).1,
    ));
    assert(layout::layout(nodes, 2).1[1] == lanes.len());
    lemma_layout_prefix(nodes, 2, nodes.len());
    law_lanes_within_lane_count(nodes);
}

/// An edge starts at a commit in its lane and ends at one of that commit's
/// parents, in the parent's lane; when the parent's object id comes up more
/// than once, at the last commit with it.
pub open spec fn joins_child_to_parent(nodes: Seq<CommitNode>, lanes: Seq<nat>, e: GraphEdge) -> bool {
    &&& e.from_row < nodes.len()
    &&& e.to_row < nodes.len()
    &&& e.from_lane == lanes[e.from_row as int] as usize
    &&& e.to_lane == lanes[e.to_row as int] as usize
    &&& parents_of(nodes[e.from_row as int]).contains(nodes[e.to_row as int].oid@)
    &&& forall|j: int| e.to_row < j < nodes.len() ==> #[trigger] nodes[j].oid@ != nodes[e.to_row as int].oid@
}

/// Whether some commit among the first `n` has object id `oid`.
pub open spec fn in_graph(nodes: Seq<CommitNode>, oid: Seq<char>) -> bool {
    exists|j: int| 0 <= j < nodes.len() && #[trigger] nodes[j].oid@ == oid
}

/// The number of parent links of the first `n` commits.
pub open spec fn parent_total(nodes: Seq<CommitNode>, n: nat) -> nat
    decreases n,
{
    if n == 0 {
        0
    } else {
        parent_total(nodes, (n - 1) as nat) + nodes[n - 1].parent_oids@.len()
    }
}

proof fn lemma_oid_positions(nodes: Seq<CommitNode>, lanes: Seq<nat>, n: nat)
    requires
        n <= nodes.len(),
        nodes.len() <= usize::MAX,
    ensures
        forall|p: Seq<char>| #[trigger] layout::oid_positions(nodes, lanes, n).contains_key(p) ==> {
            let at = layout::oid_positions(nodes, lanes, n)[p];
            &&& at.0 < n
            &&& nodes[at.0 as int].oid@ == p
            &&& at.1 == lanes[at.0 as int] as usize
            &&& forall|j: int| at.0 < j < n ==> #[trigger] nodes[j].oid@ != p
        },
        forall|j: int| 0 <= j < n ==> layout::oid_positions(nodes, lanes, n).contains_key(#[trigger] nodes[j].oid@),
    decreases n,
{
    if n > 0 {
        let prev = layout::oid_positions(nodes, lanes, (n - 1) as nat);
        let cur = layout::oid_positions(nodes, lanes, n);
        lemma_oid_positions(nodes, lanes, (n - 1) as nat);
        let last = nodes[n - 1].oid@;
        assert(((n - 1) as usize) as int == n - 1);
        assert forall|p: Seq<char>| #[trigger] cur.contains_key(p) implies {
            let at = cur[p];
            &&& at.0 < n
            &&& nodes[at.0 as int].oid@ == p
            &&& at.1 == lanes[at.0 as int] as usize
            &&& forall|j: int| at.0 < j < n ==> #[trigger] nodes[j].oid@ != p
        } by {
            if p != last {
                assert(prev.contains_key(p));
                assert(cur[p] == prev[p]);
            }
        }
    }
}

proof fn lemma_parent_edges(
    nodes: Seq<CommitNode>,
    lanes: Seq<nat>,
    pos: Map<Seq<char>, (usize, usize)>,
    i: nat,
    k: nat,
)
    requires
        nodes.len() <= usize::MAX,
        i < nodes.len(),
        k <= nodes[i as int].parent_oids@.len(),
        pos == layout::oid_positions(nodes, lanes, nodes.len()),
    ensures
        forall|e: int|
            0 <= e < layout::parent_edges(nodes, lanes, pos, i, k).len() ==> {
                let edge = #[trigger] layout::parent_edges(nodes, lanes, pos, i, k)[e];
                &&& edge.from_row == i
                &&& joins_child_to_parent(nodes, lanes, edge)
            },
        (forall|q: int| 0 <= q < k ==> in_graph(nodes, #[trigger] nodes[i as int].parent_oids@[q]@))
            ==> layout::parent_edges(nodes, lanes, pos, i, k).len() == k,
    decreases k,
{
    lemma_oid_positions(nodes, lanes, nodes.len());
    if k > 0 {
        lemma_parent_edges(nodes, lanes, pos, i, (k - 1) as nat);
        let p = nodes[i as int].parent_oids@[k - 1]@;
        assert(parents_of(nodes[i as int])[k - 1] == p);
        let rest = layout::parent_edges(nodes, lanes, pos, i, (k - 1) as nat);
        let cur = layout::parent_edges(nodes, lanes, pos, i, k);
        assert forall|e: int| 0 <= e < cur.len() implies {
            let edge = #[trigger] cur[e];
            &&& edge.from_row == i
            &&& joins_child_to_parent(nodes, lanes, edge)
        } by {
            if e < rest.len() {
                assert(cur[e] == rest[e]);
            } else {
                assert(pos.contains_key(p));
                assert((i as usize) as int == i);
                assert(parents_of(nodes[i as int]).contains(p));
            }
        }
        if (forall|q: int| 0 <= q < k ==> in_graph(nodes, #[trigger] nodes[i as int].parent_oids@[q]@)) {
            assert(in_graph(nodes, nodes[i as int].parent_oids@[k - 1]@));
            let j = choose|j: int| 0 <= j < nodes.len() && #[trigger] nodes[j].oid@ == p;
            assert(pos.contains_key(nodes[j].oid@));
        }
    }
}

proof fn lemma_edges_upto(nodes: Seq<CommitNode>, lanes: Seq<nat>, pos: Map<Seq<char>, (usize, usize)>, n: nat)
    requires
        nodes.len() <= usize::MAX,
        n <= nodes.len(),
        pos == layout::oid_positions(nodes, lanes, nodes.len()),
    ensures
        forall|e: int|
            0 <= e < layout::edges_upto(nodes, lanes, pos, n).len() ==> joins_child_to_parent(
                nodes,
                lanes,
                #[trigger] layout::edges_upto(nodes, lanes, pos, n)[e],
            ),
        forall|e: int|
            0 <= e < layout::edges_upto(nodes, lanes, pos, n).len() ==> (#[trigger] layout::edges_upto(
                nodes,
                lanes,
                pos,
                n,
            )[e]).from_row < n,
        forall|e1: int, e2: int|
            0 <= e1 <= e2 < layout::edges_upto(nodes, lanes, pos, n).len() ==> (#[trigger] layout::edges_upto(
                nodes,
                lanes,
                pos,
                n,
            )[e1]).from_row <= (#[trigger] layout::edges_upto(nodes, lanes, pos, n)[e2]).from_row,
        (forall|i: int, q: int|
            0 <= i < n && 0 <= q < nodes[i].parent_oids@.len() ==> in_graph(
                nodes,
                #[trigger] nodes[i].parent_oids@[q]@,
            )) ==> layout::edges_upto(nodes, lanes, pos, n).len() == parent_total(nodes, n),
    decreases n,
{
    if n > 0 {
        let i = (n - 1) as nat;
        lemma_edges_upto(nodes, lanes, pos, i);
        let k = nodes[i as int].parent_oids@.len();
        lemma_parent_edges(nodes, lanes, pos, i, k);
        let before = layout::edges_upto(nodes, lanes, pos, i);
        let more = layout::parent_edges(nodes, lanes, pos, i, k);
        assert forall|e: int| 0 <= e < (before + more).len() implies joins_child_to_parent(
            nodes,
            lanes,
            #[trigger] (before + more)[e],
        ) by {
            if e >= before.len() {
                assert((before + more)[e] == more[e - before.len()]);
            }
        }
        let all = before + more;
        assert forall|e: int| 0 <= e < all.len() implies (#[trigger] all[e]).from_row < n by {
            if e >= before.len() {
                assert(all[e] == more[e - before.len()]);
                assert((i as usize) as int == i);
            }
        }
        assert forall|e1: int, e2: int| 0 <= e1 <= e2 < all.len() implies (#[trigger] all[e1]).from_row
            <= (#[trigger] all[e2]).from_row by {
            assert((i as usize) as int == i);
            if e2 >= before.len() {
                assert(all[e2] == more[e2 - before.len()]);
                if e1 >= before.len() {
                    assert(all[e1] == more[e1 - before.len()]);
                } else {
                    assert(all[e1] == before[e1]);
                }
            } else {
                assert(all[e1] == before[e1]);
                assert(all[e2] == before[e2]);
            }
        }
    }
}

/// Every edge starts at a commit, in that commit's lane, and ends at a commit
/// that is one of its parents, in that parent's lane. In particular a root
/// commit is the start of no edge.
pub proof fn law_edges_join_children_to_parents(nodes: Seq<CommitNode>)
    requires
        nodes.len() <= usize::MAX,
    ensures
        forall|e: int|
            0 <= e < layout::graph_edges(nodes).len() ==> joins_child_to_parent(
                nodes,
                layout::commit_lanes(nodes),
                #[trigger] layout::graph_edges(nodes)[e],
            ),
{
    let lanes = layout::commit_lanes(nodes);
    lemma_edges_upto(nodes, lanes, layout::oid_positions(nodes, lanes, nodes.len()), nodes.len());
}

/// Edges come commit by commit, in walk order.
pub proof fn law_edges_in_commit_order(nodes: Seq<CommitNode>)
    requires
        nodes.len() <= usize::MAX,
    ensures
        forall|e1: int, e2: int|
            0 <= e1 <= e2 < layout::graph_edges(nodes).len() ==> (#[trigger] layout::graph_edges(nodes)[e1]).from_row
                <= (#[trigger] layout::graph_edges(nodes)[e2]).from_row,
{
    let lanes = layout::commit_lanes(nodes);
    lemma_edges_upto(nodes, lanes, layout::oid_positions(nodes, lanes, nodes.len()), nodes.len());
}

/// When every parent of every commit is itself in the graph, there is one edge
/// per parent link.
pub proof fn law_one_edge_per_parent_link(nodes: Seq<CommitNode>)
    requires
        nodes.len() <= usize::MAX,
        forall|i: int, q: int|
            0 <= i < nodes.len() && 0 <= q < nodes[i].parent_oids@.len() ==> in_graph(
                nodes,
                #[trigger] nodes[i].parent_oids@[q]@,
            ),
    ensures
        layout::graph_edges(nodes).len() == parent_total(nodes, nodes.len()),
{
    let lanes = layout::commit_lanes(nodes);
    lemma_edges_upto(nodes, lanes, layout::oid_positions(nodes, lanes, nodes.len()), nodes.len());
}

/// No lane heads to `oid`.
pub open spec fn no_lane_heads_to(lanes: Seq<Option<Seq<char>>>, oid: Seq<char>) -> bool {
    forall|k: int| 0 <= k < lanes.len() ==> #[trigger] lanes[k] != Some(oid)
}

proof fn lemma_open_parent_lanes_avoid(
    lanes: Seq<Option<Seq<char>>>,
    parents: Seq<Seq<char>>,
    j: nat,
    max_lane: nat,
    oid: Seq<char>,
)
    requires
        no_lane_heads_to(lanes, oid),
        !parents.contains(oid),
    ensures
        no_lane_heads_to(layout::open_parent_lanes(lanes, parents, j, max_lane).0, oid),
    decreases parents.len() - j,
{
    if j < parents.len() {
        let (claimed, lane) = layout::claim_lane(lanes);
        layout::lemma_claim_lane(lanes);
        let next = claimed.update(lane as int, Some(parents[j as int]));
        assert(no_lane_heads_to(next, oid)) by {
            assert forall|k: int| 0 <= k < next.len() implies #[trigger] next[k] != Some(oid) by {
                if k == lane {
                    assert(parents.contains(parents[j as int]));
                } else {
                    assert(next[k] == claimed[k]);
                    assert(claimed[k] == lanes[k]);
                }
            }
        }
        lemma_open_parent_lanes_avoid(next, parents, j + 1, layout::max_nat(max_lane, lane), oid);
    }
}

/// Lines of history meet at their commit: once a commit is placed, no lane
/// is heading to it any more (for a commit that is not its own parent).
pub proof fn law_placed_commit_is_no_longer_awaited(nodes: Seq<CommitNode>, i: int)
    requires
        0 <= i < nodes.len(),
        !parents_of(nodes[i]).contains(nodes[i].oid@),
    ensures
        no_lane_heads_to(layout::layout(nodes, (i + 1) as nat).0.lanes, nodes[i].oid@),
{
    let state = layout::layout(nodes, i as nat).0;
    let node = nodes[i];
    let oid = node.oid@;
    let parents = parents_of(node);
    let lane = layout::commit_lane(state.lanes, oid);
    let taken = layout::lanes_with_commit(state.lanes, oid);
    let merged = layout::close_merged(taken, oid, lane);
    let continued = layout::continue_lane(merged, lane, parents);
    layout::lemma_commit_lane_in_range(state.lanes, oid);
    assert(no_lane_heads_to(continued, oid)) by {
        assert forall|k: int| 0 <= k < continued.len() implies #[trigger] continued[k] != Some(oid) by {
            if k == lane {
                if parents.len() > 0 {
                    assert(parents.contains(parents[0]));
                }
            } else {
                assert(continued[k] == merged[k]);
            }
        }
    }
    lemma_open_parent_lanes_avoid(continued, parents, 1, layout::max_nat(state.max_lane, lane), oid);
    assert(layout::layout(nodes, (i + 1) as nat).0 == layout::place_commit(state, node).0);
}

/// Lane `k` is free or did not exist in `before`.
pub open spec fn opened_in(before: Seq<Option<Seq<char>>>, k: int) -> bool {
    k >= before.len() || before[k] is None
}

/// `after` comes from `mid` by giving lanes to `parents[j..]` as tightly as
/// possible: lanes in use stay, every parent gets a lane, every lane given out
/// lies below every lane left free, and lanes are appended only when none is free.
spec fn packed(mid: Seq<Option<Seq<char>>>, after: Seq<Option<Seq<char>>>, parents: Seq<Seq<char>>, j: nat) -> bool {
    &&& after.len() >= mid.len()
    &&& forall|k: int| 0 <= k < mid.len() && (#[trigger] mid[k]) is Some ==> after[k] == mid[k]
    &&& forall|k: int| mid.len() <= k < after.len() ==> (#[trigger] after[k]) is Some
    &&& after.len() > mid.len() ==> forall|k: int| 0 <= k < after.len() ==> (#[trigger] after[k]) is Some
    &&& forall|k: int, x: int|
        #![trigger after[k], after[x]]
        0 <= k < after.len() && 0 <= x < after.len() && after[k] is None && opened_in(mid, x) && after[x] is Some
            ==> x < k
    &&& forall|q: int| j <= q < parents.len() ==> exists|k: int| 0 <= k < after.len() && after[k] == Some(#[trigger] parents[q])
}

proof fn lemma_open_parent_lanes_packs(
    mid: Seq<Option<Seq<char>>>,
    parents: Seq<Seq<char>>,
    j: nat,
    max_lane: nat,
)
    ensures
        packed(mid, layout::open_parent_lanes(mid, parents, j, max_lane).0, parents, j),
    decreases parents.len() - j,
{
    let after = layout::open_parent_lanes(mid, parents, j, max_lane).0;
    if j >= parents.len() {
        assert(after == mid);
        assert forall|k: int, x: int|
            #![trigger after[k], after[x]]
            0 <= k < after.len() && 0 <= x < after.len() && after[k] is None && opened_in(mid, x) && after[x] is Some
            implies x < k by {}
    } else {
        let (claimed, l) = layout::claim_lane(mid);
        layout::lemma_claim_lane(mid);
        layout::lemma_first_slot_props(mid, None);
        let mid1 = claimed.update(l as int, Some(parents[j as int]));
        lemma_open_parent_lanes_packs(mid1, parents, j + 1, layout::max_nat(max_lane, l));
        assert(after == layout::open_parent_lanes(mid1, parents, j + 1, layout::max_nat(max_lane, l)).0);
        assert(packed(mid1, after, parents, j + 1));
        assert(l < mid.len() ==> mid[l as int] is None);
        assert(l == mid.len() ==> forall|k: int| 0 <= k < mid.len() ==> mid[k] is Some);
        assert forall|k: int| 0 <= k < mid.len() && (#[trigger] mid[k]) is Some implies after[k] == mid[k] by {
            assert(k != l);
            assert(mid1[k] == claimed[k]);
        }
        assert forall|k: int| mid.len() <= k < after.len() implies (#[trigger] after[k]) is Some by {
            if k < mid1.len() {
                assert(k == l);
                assert(mid1[k] is Some);
            }
        }
        if after.len() > mid.len() && after.len() == mid1.len() {
            assert forall|k: int| 0 <= k < after.len() implies (#[trigger] after[k]) is Some by {
                if k < mid.len() {
                    assert(mid[k] is Some);
                } else {
                    assert(mid1[k] is Some);
                }
            }
        }
        assert forall|k: int, x: int|
            #![trigger after[k], after[x]]
            0 <= k < after.len() && 0 <= x < after.len() && after[k] is None && opened_in(mid, x) && after[x] is Some
            implies x < k by {
            assert(k < mid1.len());
            assert(mid1[k] is None);
            assert(k != l);
            assert(k < mid.len());
            assert(mid[k] == mid1[k]);
            if x != l {
                if x < mid.len() {
                    assert(mid1[x] == mid[x]);
                }
                assert(opened_in(mid1, x));
            }
        }
        assert forall|q: int| j <= q < parents.len() implies exists|k: int|
            0 <= k < after.len() && after[k] == Some(#[trigger] parents[q]) by {
            if q == j {
                assert(mid1[l as int] is Some);
                assert(after[l as int] == Some(parents[q]));
            }
        }
    }
}

/// Placing commit `i`, from the lanes before it to the lanes after it:
/// - its lane is the lowest lane heading to it; when none is, the lowest free
///   lane, or a new lane when every lane is in use;
/// - its lane goes on to its first parent, or is freed at a root commit;
/// - the lanes heading to other commits go on unchanged;
/// - every further parent gets a lane, taken as low as possible: every lane
///   that was free or merged here and is now in use lies below every lane
///   left free;
/// - lanes are only appended when no lane but the commit's own is left free.
pub proof fn law_placing_a_commit(nodes: Seq<CommitNode>, i: int)
    requires
        0 <= i < nodes.len(),
    ensures
        ({
            let before = layout::layout(nodes, i as nat).0.lanes;
            let after = layout::layout(nodes, (i + 1) as nat).0.lanes;
            let lane = layout::commit_lanes(nodes)[i] as int;
            let oid = nodes[i].oid@;
            let parents = parents_of(nodes[i]);
            &&& (exists|k: int| 0 <= k < before.len() && before[k] == Some(oid)) ==> {
                &&& lane < before.len()
                &&& before[lane] == Some(oid)
                &&& forall|k: int| 0 <= k < lane ==> before[k] != Some(oid)
            }
            &&& !(exists|k: int| 0 <= k < before.len() && before[k] == Some(oid)) ==> {
                &&& lane <= before.len()
                &&& lane < before.len() ==> before[lane] is None
                &&& forall|k: int| 0 <= k < lane ==> before[k] is Some
            }
            &&& after.len() >= before.len()
            &&& lane < after.len()
            &&& after[lane] == if parents.len() > 0 { Some(parents[0]) } else { None }
            &&& forall|k: int|
                0 <= k < before.len() && k != lane && before[k] is Some && before[k] != Some(oid) ==> after[k]
                    == before[k]
            &&& forall|q: int|
                1 <= q < parents.len() ==> exists|k: int| 0 <= k < after.len() && after[k] == Some(#[trigger] parents[q])
            &&& forall|k: int, x: int|
                #![trigger after[k], after[x]]
                0 <= k < after.len() && 0 <= x < after.len() && x != lane && after[k] is None && after[x] is Some && (x
                    >= before.len() || before[x] is None || before[x] == Some(oid)) ==> x < k
            &&& after.len() > before.len() ==> forall|k: int| 0 <= k < after.len() && k != lane ==> after[k] is Some
        }),
{
    let state = layout::layout(nodes, i as nat).0;
    let before = state.lanes;
    let node = nodes[i];
    let oid = node.oid@;
    let parents = parents_of(node);
    let lane = layout::commit_lane(before, oid);
    let taken = layout::lanes_with_commit(before, oid);
    let merged = layout::close_merged(taken, oid, lane);
    let mid = layout::continue_lane(merged, lane, parents);
    let top = layout::max_nat(state.max_lane, lane);
    let after = layout::open_parent_lanes(mid, parents, 1, top).0;
    assert(layout::layout(nodes, (i + 1) as nat).0 == layout::place_commit(state, node).0);
    assert(layout::layout(nodes, (i + 1) as nat).1 == layout::layout(nodes, i as nat).1.push(lane));
    lemma_layout_lanes(nodes, i as nat);
    lemma_layout_prefix(nodes, (i + 1) as nat, nodes.len());
    assert(layout::commit_lanes(nodes)[i] == lane);
    layout::lemma_first_slot_props(before, Some(oid));
    layout::lemma_first_slot_props(before, None);
    layout::lemma_claim_lane(before);
    layout::lemma_commit_lane_in_range(before, oid);
    lemma_open_parent_lanes_packs(mid, parents, 1, top);
    let expected = exists|k: int| 0 <= k < before.len() && before[k] == Some(oid);
    if expected {
        let k = choose|k: int| 0 <= k < before.len() && before[k] == Some(oid);
        assert(layout::is_expected(before, oid));
        assert(taken == before);
    } else {
        if layout::is_expected(before, oid) {
            assert(before[layout::first_slot(before, Some(oid)) as int] == Some(oid));
        }
    }
    assert(mid.len() == taken.len());
    assert forall|k: int| 0 <= k < before.len() && k != lane implies #[trigger] mid[k] == (if before[k] == Some(
        oid,
    ) {
        None
    } else {
        before[k]
    }) by {
        assert(mid[k] == merged[k]);
        assert(taken[k] == before[k]);
    }
    if parents.len() == 0 {
        assert(after == mid);
    }
    assert(mid[lane as int] is Some ==> after[lane as int] == mid[lane as int]);
    assert forall|k: int|
        0 <= k < before.len() && k != lane && before[k] is Some && before[k] != Some(oid) implies after[k]
        == before[k] by {
        assert(mid[k] == before[k]);
    }
    assert forall|k: int, x: int|
        #![trigger after[k], after[x]]
        0 <= k < after.len() && 0 <= x < after.len() && x != lane && after[k] is None && after[x] is Some && (x
            >= before.len() || before[x] is None || before[x] == Some(oid)) implies x < k by {
        if x < before.len() {
            assert(mid[x] is None);
        } else {
            assert(x >= mid.len());
        }
        assert(opened_in(mid, x));
    }
    if after.len() > before.len() && after.len() == mid.len() {
        assert(lane == before.len());
        assert forall|k: int| 0 <= k < after.len() && k != lane implies after[k] is Some by {
            assert(before[k] is Some);
            assert(mid[k] == before[k]);
        }
    }
    assert forall|q: int| 1 <= q < parents.len() implies exists|k: int|
        0 <= k < after.len() && after[k] == Some(#[trigger] parents[q]) by {}
}

/// The largest lane used is the last lane opened.
spec fn max_is_last_lane(state: layout::LaneState) -> bool {
    if state.lanes.len() == 0 {
        state.max_lane == 0
    } else {
        state.max_lane + 1 == state.lanes.len()
    }
}

proof fn lemma_open_parent_lanes_last(lanes: Seq<Option<Seq<char>>>, parents: Seq<Seq<char>>, j: nat, max_lane: nat)
    requires
        lanes.len() > 0,
        max_lane + 1 == lanes.len(),
    ensures
        layout::open_parent_lanes(lanes, parents, j, max_lane).1 + 1 == layout::open_parent_lanes(
            lanes,
            parents,
            j,
            max_lane,
        ).0.len(),
    decreases parents.len() - j,
{
    if j < parents.len() {
        let (claimed, l) = layout::claim_lane(lanes);
        layout::lemma_claim_lane(lanes);
        lemma_open_parent_lanes_last(
            claimed.update(l as int, Some(parents[j as int])),
            parents,
            j + 1,
            layout::max_nat(max_lane, l),
        );
    }
}

proof fn lemma_layout_last_lane(nodes: Seq<CommitNode>, n: nat)
    ensures
        max_is_last_lane(layout::layout(nodes, n).0),
        n > 0 ==> layout::layout(nodes, n).0.lanes.len() > 0,
    decreases n,
{
    if n > 0 {
        lemma_layout_last_lane(nodes, (n - 1) as nat);
        let state = layout::layout(nodes, (n - 1) as nat).0;
        let node = nodes[n - 1];
        let oid = node.oid@;
        let parents = parents_of(node);
        let lane = layout::commit_lane(state.lanes, oid);
        let taken = layout::lanes_with_commit(state.lanes, oid);
        let mid = layout::continue_lane(layout::close_merged(taken, oid, lane), lane, parents);
        layout::lemma_claim_lane(state.lanes);
        layout::lemma_commit_lane_in_range(state.lanes, oid);
        layout::lemma_first_slot_props(state.lanes, Some(oid));
        if taken.len() > state.lanes.len() {
            assert(!layout::is_expected(state.lanes, oid));
            assert(lane == state.lanes.len());
        }
        assert(layout::max_nat(state.max_lane, lane) + 1 == mid.len());
        lemma_open_parent_lanes_last(mid, parents, 1, layout::max_nat(state.max_lane, lane));
        assert(layout::layout(nodes, n).0 == layout::place_commit(state, node).0);
    }
}

/// The lane count is the number of lanes the layout opened, and 1 for an
/// empty history: the highest lane ever given out, to a commit or to a
/// parent, is the last lane.
pub proof fn law_lane_count_is_lanes_opened(nodes: Seq<CommitNode>)
    ensures
        layout::lane_count(nodes) == if nodes.len() == 0 {
            1
        } else {
            layout::layout(nodes, nodes.len()).0.lanes.len()
        },
{
    lemma_layout_last_lane(nodes, nodes.len());
}

} // verus!
