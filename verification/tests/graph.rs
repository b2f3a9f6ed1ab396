use gitv::graph::{first_free_lane, position_commits, GraphEdge, PositionedCommit, PositionedGraph, RefKind};
use gitv::walk::{build_commit_nodes, RawCommit, RawRef};

// --- Helpers ---

/// A 40-digit object id for commit number `n`.
fn oid(n: u32) -> String {
    format!("{:040x}", 0xc0ffee00u64 + n as u64)
}

/// A commit in walk order, with the given parents.
fn commit(n: u32, message: &str, parents: &[u32]) -> RawCommit {
    RawCommit {
        oid: oid(n),
        summary: Some(message.to_string()),
        author: Some("Test User".to_string()),
        time: 1000,
        parent_oids: parents.iter().map(|p| oid(*p)).collect(),
    }
}

/// A local branch pointing at commit `n`.
fn branch(name: &str, n: u32) -> RawRef {
    RawRef {
        name: Some(format!("refs/heads/{}", name)),
        shorthand: Some(name.to_string()),
        commit: Some(oid(n)),
    }
}

/// A lightweight tag pointing at commit `n`.
fn tag(name: &str, n: u32) -> RawRef {
    RawRef {
        name: Some(format!("refs/tags/{}", name)),
        shorthand: Some(name.to_string()),
        commit: Some(oid(n)),
    }
}

/// Labels the walked commits and lays out the graph.
fn graph_from_walk(refs: Vec<RawRef>, head: Option<String>, walk: Vec<RawCommit>) -> PositionedGraph {
    let nodes = build_commit_nodes(&refs, head, walk);
    position_commits(nodes)
}

fn commit_by_summary<'a>(graph: &'a PositionedGraph, summary: &str) -> &'a PositionedCommit {
    graph
        .commits
        .iter()
        .find(|c| c.node.summary == summary)
        .unwrap_or_else(|| panic!("commit '{}' not found in graph", summary))
}

// --- Tests ---

#[test]
fn test_linear_history_rows_are_sequential() {
    // C -> B -> A, main at C; the walk lists the newest commit first.
    let walk = vec![commit(3, "C", &[2]), commit(2, "B", &[1]), commit(1, "A", &[])];
    let graph = graph_from_walk(vec![branch("main", 3)], None, walk);

    assert_eq!(graph.commits.len(), 3);

    // Newest commit should be row 0
    let ca = commit_by_summary(&graph, "C");
    let cb = commit_by_summary(&graph, "B");
    let cc = commit_by_summary(&graph, "A");
    assert!(ca.row < cb.row, "C should be above B");
    assert!(cb.row < cc.row, "B should be above A");
}

#[test]
fn test_linear_history_single_lane() {
    let walk = vec![commit(2, "B", &[1]), commit(1, "A", &[])];
    let graph = graph_from_walk(vec![branch("main", 2)], None, walk);

    assert!(graph.commits.iter().all(|c| c.lane == 0), "linear history should use one lane");
    assert_eq!(graph.lane_count, 1);
}

#[test]
fn test_branch_uses_second_lane() {
    //   B (feature)
    //   |
    // C-+  (main, branches off A)
    //   |
    //   A
    let walk = vec![commit(3, "C", &[1]), commit(2, "B", &[1]), commit(1, "A", &[])];
    let graph = graph_from_walk(vec![branch("main", 3), branch("feature", 2)], None, walk);

    let lanes: Vec<usize> = graph.commits.iter().map(|c| c.lane).collect();
    let max_lane = lanes.iter().max().copied().unwrap();
    assert!(max_lane >= 1, "branching history should use at least 2 lanes");
    assert_eq!(graph.lane_count, max_lane + 1);
}

#[test]
fn test_merge_commit_edges() {
    //   M   (merge commit, main)
    //  / \
    // B   C
    //  \ /
    //   A
    let walk = vec![
        commit(4, "M", &[2, 3]),
        commit(3, "C", &[1]),
        commit(2, "B", &[1]),
        commit(1, "A", &[]),
    ];
    let graph = graph_from_walk(vec![branch("main", 4)], None, walk);

    let merge = commit_by_summary(&graph, "M");
    let edges_from_merge: Vec<&GraphEdge> = graph.edges.iter().filter(|e| e.from_row == merge.row).collect();

    assert_eq!(edges_from_merge.len(), 2, "merge commit should have 2 outgoing edges");
}

#[test]
fn test_root_commit_has_no_edges() {
    let walk = vec![commit(1, "A", &[])];
    let graph = graph_from_walk(vec![branch("main", 1)], None, walk);

    assert_eq!(graph.edges.len(), 0, "root commit should produce no edges");
}

#[test]
fn test_edge_count_equals_parent_count() {
    let walk = vec![
        commit(4, "M", &[2, 3]),
        commit(3, "C", &[1]),
        commit(2, "B", &[1]),
        commit(1, "A", &[]),
    ];
    let graph = graph_from_walk(vec![branch("main", 4)], None, walk);

    // A(0 parents) + B(1) + C(1) + M(2) = 4 edges total
    assert_eq!(graph.edges.len(), 4);
}

#[test]
fn test_tag_ref_label_kind() {
    let walk = vec![commit(1, "A", &[])];
    let graph = graph_from_walk(vec![branch("main", 1), tag("v1.0.0", 1)], None, walk);

    let commit_a = commit_by_summary(&graph, "A");
    let tag = commit_a.node.refs.iter().find(|r| r.kind == RefKind::Tag);
    assert!(tag.is_some(), "commit should have a tag ref label");
    assert_eq!(tag.unwrap().name, "v1.0.0");
}

#[test]
fn test_all_commits_present() {
    let walk = vec![commit(3, "C", &[2]), commit(2, "B", &[1]), commit(1, "A", &[])];
    let graph = graph_from_walk(vec![branch("main", 3)], None, walk);
    assert_eq!(graph.commits.len(), 3);
}

#[test]
fn test_unreachable_commits_excluded() {
    // "Dangling" (child of A) has no ref pointing at it, so the walk from the
    // references reaches only A.
    let walk = vec![commit(1, "A", &[])];
    let graph = graph_from_walk(vec![branch("main", 1)], None, walk);

    // Only A should appear; Dangling has no ref
    assert_eq!(graph.commits.len(), 1);
    assert!(commit_by_summary(&graph, "A").row == 0);
}

// --- Further cases ---

#[test]
fn branch_tip_lanes_and_merging_lane_ends() {
    // C and B both branch off A: C in lane 0, B opens lane 1, and A takes
    // lane 0 where both lines meet.
    let walk = vec![commit(3, "C", &[1]), commit(2, "B", &[1]), commit(1, "A", &[])];
    let graph = graph_from_walk(vec![], None, walk);
    let lanes: Vec<usize> = graph.commits.iter().map(|c| c.lane).collect();
    assert_eq!(lanes, vec![0, 1, 0]);
    assert_eq!(graph.lane_count, 2);
    let edges: Vec<(usize, usize, usize, usize)> =
        graph.edges.iter().map(|e| (e.from_row, e.from_lane, e.to_row, e.to_lane)).collect();
    assert_eq!(edges, vec![(0, 0, 2, 0), (1, 1, 2, 0)]);
}

#[test]
fn merge_opens_a_lane_for_the_second_parent() {
    let walk = vec![
        commit(4, "M", &[2, 3]),
        commit(3, "C", &[1]),
        commit(2, "B", &[1]),
        commit(1, "A", &[]),
    ];
    let graph = graph_from_walk(vec![], None, walk);
    let lanes: Vec<usize> = graph.commits.iter().map(|c| c.lane).collect();
    // M in lane 0 heading to B; C was awaited in lane 1; B continues lane 0.
    assert_eq!(lanes, vec![0, 1, 0, 0]);
    assert_eq!(graph.lane_count, 2);
    let edges: Vec<(usize, usize, usize, usize)> =
        graph.edges.iter().map(|e| (e.from_row, e.from_lane, e.to_row, e.to_lane)).collect();
    assert_eq!(edges, vec![(0, 0, 2, 0), (0, 0, 1, 1), (1, 1, 3, 0), (2, 0, 3, 0)]);
}

#[test]
fn parents_outside_the_walk_get_no_edge() {
    // A shallow walk: B's parent is not among the commits.
    let walk = vec![commit(2, "B", &[1])];
    let graph = graph_from_walk(vec![], None, walk);
    assert_eq!(graph.edges.len(), 0);
    assert_eq!(graph.commits[0].lane, 0);
    assert_eq!(graph.lane_count, 1);
}

#[test]
fn empty_history_has_one_lane_and_nothing_else() {
    let graph = position_commits(Vec::new());
    assert!(graph.commits.is_empty());
    assert!(graph.edges.is_empty());
    assert_eq!(graph.lane_count, 1);
}

#[test]
fn a_lane_that_merged_is_free_again() {
    // B's lane ends where it meets C's line at A; the unrelated tip S then
    // takes that lane rather than opening a third.
    let walk = vec![
        commit(3, "C", &[1]),
        commit(2, "B", &[1]),
        commit(1, "A", &[5]),
        commit(4, "S", &[]),
        commit(5, "R", &[]),
    ];
    let graph = graph_from_walk(vec![], None, walk);
    let lanes: Vec<usize> = graph.commits.iter().map(|c| c.lane).collect();
    assert_eq!(lanes, vec![0, 1, 0, 1, 0]);
    assert_eq!(graph.lane_count, 2);
}

#[test]
fn a_freed_lane_is_reused() {
    // Two unrelated roots: the first root frees lane 0, which the second takes.
    let walk = vec![commit(2, "B", &[]), commit(1, "A", &[])];
    let graph = graph_from_walk(vec![], None, walk);
    let lanes: Vec<usize> = graph.commits.iter().map(|c| c.lane).collect();
    assert_eq!(lanes, vec![0, 0]);
    assert_eq!(graph.lane_count, 1);
}

#[test]
fn first_free_lane_finds_the_first_gap() {
    let some = |s: &str| Some(s.to_string());
    assert_eq!(first_free_lane(&[]), 0);
    assert_eq!(first_free_lane(&[some("a"), None, None]), 1);
    assert_eq!(first_free_lane(&[None, some("a")]), 0);
    assert_eq!(first_free_lane(&[some("a"), some("b")]), 2);
}

#[test]
fn commits_keep_their_data_and_rows() {
    let walk = vec![commit(2, "B", &[1]), commit(1, "A", &[])];
    let graph = graph_from_walk(vec![], None, walk);
    assert_eq!(graph.commits[0].node.oid, oid(2));
    assert_eq!(graph.commits[0].node.parent_oids, vec![oid(1)]);
    assert_eq!(graph.commits[0].node.author, "Test User");
    assert_eq!(graph.commits[0].node.time, 1000);
    assert_eq!(graph.commits[1].row, 1);
}
