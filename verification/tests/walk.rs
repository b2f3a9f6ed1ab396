use gitv::graph::RefKind;
use gitv::walk::{build_commit_nodes, classify_ref, ref_label, RawCommit, RawRef};

fn raw(oid: &str, parents: &[&str]) -> RawCommit {
    RawCommit {
        oid: oid.to_string(),
        summary: Some(format!("commit {}", oid)),
        author: Some("someone".to_string()),
        time: 42,
        parent_oids: parents.iter().map(|p| p.to_string()).collect(),
    }
}

fn reference(name: &str, short: Option<&str>, commit: &str) -> RawRef {
    RawRef { name: Some(name.to_string()), shorthand: short.map(|s| s.to_string()), commit: Some(commit.to_string()) }
}

#[test]
fn references_are_classified_by_their_full_name() {
    assert_eq!(classify_ref("refs/heads/main"), Some(RefKind::Branch));
    assert_eq!(classify_ref("refs/tags/v1.0.0"), Some(RefKind::Tag));
    assert_eq!(classify_ref("refs/remotes/origin/main"), Some(RefKind::RemoteBranch));
    assert_eq!(classify_ref("HEAD"), None);
    assert_eq!(classify_ref("refs/tags"), Some(RefKind::Branch));
    assert_eq!(classify_ref("HEADS"), Some(RefKind::Branch));
    assert_eq!(classify_ref("refs/notes/commits"), Some(RefKind::Branch));
}

#[test]
fn a_label_takes_the_short_name_or_else_the_full_name() {
    let (commit, label) = ref_label(&reference("refs/remotes/origin/dev", Some("origin/dev"), "c1")).unwrap();
    assert_eq!(commit, "c1");
    assert_eq!(label.name, "origin/dev");
    assert_eq!(label.kind, RefKind::RemoteBranch);

    let (_, label) = ref_label(&reference("refs/heads/odd", None, "c1")).unwrap();
    assert_eq!(label.name, "refs/heads/odd");
}

#[test]
fn references_without_name_or_commit_and_head_label_nothing() {
    assert!(ref_label(&reference("HEAD", Some("HEAD"), "c1")).is_none());
    assert!(ref_label(&RawRef { name: None, shorthand: Some("x".to_string()), commit: Some("c1".to_string()) }).is_none());
    assert!(ref_label(&RawRef { name: Some("refs/heads/x".to_string()), shorthand: None, commit: None }).is_none());
}

#[test]
fn head_is_labelled_last_and_labels_follow_reference_order() {
    let refs = vec![
        reference("refs/tags/v2", Some("v2"), "c2"),
        reference("HEAD", Some("HEAD"), "c2"),
        reference("refs/heads/main", Some("main"), "c2"),
        reference("refs/heads/old", Some("old"), "c1"),
    ];
    let nodes = build_commit_nodes(&refs, Some("c2".to_string()), vec![raw("c2", &["c1"]), raw("c1", &[])]);
    let names: Vec<(&str, RefKind)> = nodes[0].refs.iter().map(|r| (r.name.as_str(), r.kind.clone())).collect();
    assert_eq!(names, vec![("v2", RefKind::Tag), ("main", RefKind::Branch), ("HEAD", RefKind::Head)]);
    assert_eq!(nodes[1].refs.len(), 1);
    assert_eq!(nodes[1].refs[0].name, "old");
}

#[test]
fn missing_text_becomes_empty_and_data_is_kept() {
    let c = RawCommit { oid: "c9".to_string(), summary: None, author: None, time: -5, parent_oids: vec!["c8".to_string()] };
    let nodes = build_commit_nodes(&vec![], None, vec![c]);
    assert_eq!(nodes[0].oid, "c9");
    assert_eq!(nodes[0].summary, "");
    assert_eq!(nodes[0].author, "");
    assert_eq!(nodes[0].time, -5);
    assert_eq!(nodes[0].parent_oids, vec!["c8".to_string()]);
    assert!(nodes[0].refs.is_empty());
}

#[test]
fn labels_go_to_the_first_commit_with_that_id_only() {
    let refs = vec![reference("refs/heads/main", Some("main"), "c1")];
    let nodes = build_commit_nodes(&refs, Some("c1".to_string()), vec![raw("c1", &[]), raw("c1", &[])]);
    assert_eq!(nodes[0].refs.len(), 2);
    assert!(nodes[1].refs.is_empty());
}
