use gitv::canvas::{is_merge, lane_palette_index, GraphCanvas};
use gitv::graph::{position_commits, CommitNode};
use gitv::ui::{format_timestamp, Gitv, Message};

fn node(oid: &str, parents: &[&str]) -> CommitNode {
    CommitNode {
        oid: oid.to_string(),
        summary: oid.to_uppercase(),
        author: "a".to_string(),
        time: 0,
        parent_oids: parents.iter().map(|p| p.to_string()).collect(),
        refs: vec![],
    }
}

#[test]
fn timestamps_show_whole_days_since_the_epoch() {
    assert_eq!(format_timestamp(0), "t=0");
    assert_eq!(format_timestamp(86399), "t=0");
    assert_eq!(format_timestamp(86400), "t=1");
    assert_eq!(format_timestamp(1_700_000_000), "t=19675");
    assert_eq!(format_timestamp(-1), "t=0");
    assert_eq!(format_timestamp(-86400), "t=-1");
    assert_eq!(format_timestamp(-86401), "t=-1");
    assert_eq!(format_timestamp(-172800), "t=-2");
    assert_eq!(format_timestamp(i64::MAX), "t=106751991167300");
    assert_eq!(format_timestamp(i64::MIN), "t=-106751991167300");
}

#[test]
fn timestamps_match_integer_division() {
    for secs in [1i64, 999, 123_456_789, -123_456_789, 10 * 86400, -10 * 86400 + 1] {
        assert_eq!(format_timestamp(secs), format!("t={}", secs / 86400));
    }
}

#[test]
fn update_records_the_loaded_graph_or_the_error() {
    let mut view = Gitv::new();
    assert!(view.graph.is_none() && view.error.is_none());

    view.update(Message::GraphLoaded(Err("not a repository".to_string())));
    assert_eq!(view.error.as_deref(), Some("not a repository"));
    assert!(view.graph.is_none());

    let graph = position_commits(vec![node("b", &["a"]), node("a", &[])]);
    view.update(Message::GraphLoaded(Ok(graph)));
    assert_eq!(view.graph.as_ref().map(|g| g.commits.len()), Some(2));
    assert_eq!(view.error.as_deref(), Some("not a repository"));
}

#[test]
fn canvas_clicks_select_the_commit_in_the_row() {
    let graph = position_commits(vec![node("b", &["a"]), node("a", &[])]);
    let canvas = GraphCanvas::new(&graph, None);
    assert_eq!(canvas.commit_at_row(0), Some("b".to_string()));
    assert_eq!(canvas.commit_at_row(1), Some("a".to_string()));
    assert_eq!(canvas.commit_at_row(2), None);
    assert!(canvas.selected_commit().is_none());
}

#[test]
fn canvas_highlights_the_selected_commit() {
    let graph = position_commits(vec![node("m", &["b", "c"]), node("c", &["a"]), node("b", &["a"]), node("a", &[])]);
    let canvas = GraphCanvas::new(&graph, Some("c".to_string()));
    assert_eq!(canvas.selected_commit().map(|c| c.row), Some(1));
    assert!(canvas.is_selected(&graph.commits[1]));
    assert!(!canvas.is_selected(&graph.commits[0]));
    assert!(is_merge(&graph.commits[0]));
    assert!(!is_merge(&graph.commits[1]));
    let missing = GraphCanvas::new(&graph, Some("zz".to_string()));
    assert!(missing.selected_commit().is_none());
}

#[test]
fn lanes_cycle_through_the_palette() {
    assert_eq!(lane_palette_index(0), 0);
    assert_eq!(lane_palette_index(8), 8);
    assert_eq!(lane_palette_index(9), 0);
    assert_eq!(lane_palette_index(20), 2);
}
