use vstd::prelude::*;
use vstd::string::*;
use vstd::hash_map::StringHashMap;

use crate::graph::{CommitNode, RefKind, RefLabel, RefLabelView};
use crate::graph;

verus! {

/// A reference as read from the repository.
pub struct RawRef {
    /// The full name, when it is valid UTF-8, such as `refs/heads/main`.
    pub name: Option<String>,
    /// The short name, when it is valid UTF-8, such as `main`.
    pub shorthand: Option<String>,
    /// The object id of the commit the reference peels to, if it peels to one.
    pub commit: Option<String>,
}

/// A commit as read from the repository, in walk order.
pub struct RawCommit {
    pub oid: String,
    /// The first line of the message, when it is valid UTF-8.
    pub summary: Option<String>,
    /// The author's name, when it is valid UTF-8.
    pub author: Option<String>,
    pub time: i64,
    pub parent_oids: Vec<String>,
}

pub open spec fn has_prefix(s: Seq<char>, prefix: Seq<char>) -> bool {
    prefix.len() <= s.len() && s.subrange(0, prefix.len() as int) == prefix
}

/// The kind of label a reference name gives, or `None` for `HEAD`, which is
/// labelled on its own.
pub open spec fn ref_kind(name: Seq<char>) -> Option<RefKind> {
    if name == "HEAD"@ {
        None
    } else if has_prefix(name, "refs/tags/"@) {
        Some(RefKind::Tag)
    } else if has_prefix(name, "refs/remotes/"@) {
        Some(RefKind::RemoteBranch)
    } else {
        Some(RefKind::Branch)
    }
}

/// The commit a reference labels and the label it gives, if it labels one.
pub open spec fn ref_entry(r: RawRef) -> Option<(Seq<char>, RefLabelView)> {
    match (r.name, r.commit) {
        (Some(name), Some(commit)) => match ref_kind(name@) {
            Some(kind) => Some(
                (
                    commit@,
                    RefLabelView {
                        name: match r.shorthand {
                            Some(short) => short@,
                            None => name@,
                        },
                        kind,
                    },
                ),
            ),
            None => None,
        },
        _ => None,
    }
}

/// Whether `s` starts with `prefix`.
fn starts_with(s: &str, prefix: &str) -> (b: bool)
    ensures
        b == has_prefix(s@, prefix@),
{
    let s_len = s.unicode_len();
    let p_len = prefix.unicode_len();
    if p_len > s_len {
        return false;
    }
    let mut i: usize = 0;
    while i < p_len
        invariant
            p_len == prefix@.len(),
            s_len == s@.len(),
            p_len <= s_len,
            i <= p_len,
            forall|j: int| 0 <= j < i ==> s@[j] == prefix@[j],
        decreases p_len - i,
    {
        if s.get_char(i) != prefix.get_char(i) {
            assert(s@.subrange(0, p_len as int)[i as int] != prefix@[i as int]);
            return false;
        }
        i = i + 1;
    }
    assert(s@.subrange(0, p_len as int) =~= prefix@);
    true
}

/// Whether two strings hold the same text.
fn same_text(a: &str, b: &str) -> (same: bool)
    ensures
        same == (a@ == b@),
{
    if a.unicode_len() != b.unicode_len() {
        return false;
    }
    let prefix = starts_with(a, b);
    assert(a@.subrange(0, a@.len() as int) =~= a@);
    prefix
}

/// Classifies a reference by its full name: tags, remote branches and local
/// branches; `HEAD` gives `None`, as the checked-out commit is labelled apart.
pub fn classify_ref(name: &str) -> (kind: Option<RefKind>)
    ensures
        kind == ref_kind(name@),
{
    if same_text(name, "HEAD") {
        None
    } else if starts_with(name, "refs/tags/") {
        Some(RefKind::Tag)
    } else if starts_with(name, "refs/remotes/") {
        Some(RefKind::RemoteBranch)
    } else {
        Some(RefKind::Branch)
    }
}

/// The commit a reference labels and the label it gives it, named by the
/// reference's short name (its full name when the short one is missing).
/// References without a name or commit, and `HEAD`, label nothing.
pub fn ref_label(r: &RawRef) -> (entry: Option<(String, RefLabel)>)
    ensures
        match entry {
            Some((commit, label)) => ref_entry(*r) == Some((commit@, label@)),
            None => ref_entry(*r) is None,
        },
{
    match (&r.name, &r.commit) {
        (Some(name), Some(commit)) => match classify_ref(name.as_str()) {
            Some(kind) => {
                let short = match &r.shorthand {
                    Some(s) => s.clone(),
                    None => name.clone(),
                };
                Some((commit.clone(), RefLabel { name: short, kind }))
            },
            None => None,
        },
        _ => None,
    }
}

/// The labels the first `n` references give the commit `oid`, in reference order.
pub open spec fn ref_labels(refs: Seq<RawRef>, n: nat, oid: Seq<char>) -> Seq<RefLabelView>
    decreases n,
{
    if n == 0 {
        Seq::empty()
    } else {
        let before = ref_labels(refs, (n - 1) as nat, oid);
        match ref_entry(refs[n - 1]) {
            Some((commit, label)) => if commit == oid {
                before.push(label)
            } else {
                before
            },
            None => before,
        }
    }
}

/// The label of the checked-out commit.
pub open spec fn head_label() -> RefLabelView {
    RefLabelView { name: "HEAD"@, kind: RefKind::Head }
}

/// All labels of the commit `oid`: those of its references, then `HEAD` when
/// it is the checked-out commit.
pub open spec fn commit_labels(refs: Seq<RawRef>, head: Option<String>, oid: Seq<char>) -> Seq<RefLabelView> {
    let own = ref_labels(refs, refs.len(), oid);
    match head {
        Some(h) => if h@ == oid {
            own.push(head_label())
        } else {
            own
        },
        None => own,
    }
}

pub open spec fn text_or_empty(s: Option<String>) -> Seq<char> {
    match s {
        Some(t) => t@,
        None => Seq::empty(),
    }
}

/// Whether a commit with object id `oid` comes before position `i` of the walk.
pub open spec fn seen_before(commits: Seq<RawCommit>, i: int, oid: Seq<char>) -> bool {
    exists|j: int| 0 <= j < i && #[trigger] commits[j].oid@ == oid
}

/// `node` is the node built from the commit at position `i` of the walk: the
/// same commit data, and the commit's labels the first time its object id
/// comes up in the walk (none after that).
pub open spec fn builds_node(
    node: CommitNode,
    commits: Seq<RawCommit>,
    i: int,
    refs: Seq<RawRef>,
    head: Option<String>,
) -> bool {
    let c = commits[i];
    &&& node.oid == c.oid
    &&& node.summary@ == text_or_empty(c.summary)
    &&& node.author@ == text_or_empty(c.author)
    &&& node.time == c.time
    &&& node.parent_oids == c.parent_oids
    &&& graph::labels_view(node.refs@) == if seen_before(commits, i, c.oid@) {
        Seq::empty()
    } else {
        commit_labels(refs, head, c.oid@)
    }
}

/// The labels kept for `oid` in a grouping of labels by commit.
spec fn grouped_labels(group_of: Map<Seq<char>, usize>, groups: Seq<Vec<RefLabel>>, oid: Seq<char>) -> Seq<RefLabelView> {
    if group_of.contains_key(oid) {
        graph::labels_view(groups[group_of[oid] as int]@)
    } else {
        Seq::empty()
    }
}

/// Each commit has a group of its own.
spec fn groups_well_formed(group_of: Map<Seq<char>, usize>, groups: Seq<Vec<RefLabel>>) -> bool {
    &&& forall|o: Seq<char>| #[trigger] group_of.contains_key(o) ==> group_of[o] < groups.len()
    &&& forall|o1: Seq<char>, o2: Seq<char>|
        #[trigger] group_of.contains_key(o1) && #[trigger] group_of.contains_key(o2) && o1 != o2
            ==> group_of[o1] != group_of[o2]
}

/// Adds `label` to the group of `commit`.
fn add_label(group_of: &mut StringHashMap<usize>, groups: &mut Vec<Vec<RefLabel>>, commit: String, label: RefLabel)
    requires
        groups_well_formed(old(group_of)@, old(groups)@),
    ensures
        groups_well_formed(final(group_of)@, final(groups)@),
        forall|o: Seq<char>|
            #[trigger] grouped_labels(final(group_of)@, final(groups)@, o) == if o == commit@ {
                grouped_labels(old(group_of)@, old(groups)@, o).push(label@)
            } else {
                grouped_labels(old(group_of)@, old(groups)@, o)
            },
{
    let ghost label_view = label@;
    match group_of.get(commit.as_str()) {
        Some(g) => {
            let g = *g;
            let mut group: Vec<RefLabel> = Vec::new();
            groups.set_and_swap(g, &mut group);
            group.push(label);
            groups.set(g, group);
            assert forall|o: Seq<char>|
                #[trigger] grouped_labels(group_of@, groups@, o) == if o == commit@ {
                    grouped_labels(old(group_of)@, old(groups)@, o).push(label_view)
                } else {
                    grouped_labels(old(group_of)@, old(groups)@, o)
                } by {
                if o == commit@ {
                    assert(graph::labels_view(groups@[g as int]@) =~= graph::labels_view(
                        old(groups)@[g as int]@,
                    ).push(label_view));
                }
            }
        },
        None => {
            let g = groups.len();
            let mut group: Vec<RefLabel> = Vec::new();
            group.push(label);
            groups.push(group);
            group_of.insert(commit, g);
            assert forall|o: Seq<char>|
                #[trigger] grouped_labels(group_of@, groups@, o) == if o == commit@ {
                    grouped_labels(old(group_of)@, old(groups)@, o).push(label_view)
                } else {
                    grouped_labels(old(group_of)@, old(groups)@, o)
                } by {
                if o == commit@ {
                    assert(graph::labels_view(groups@[g as int]@) =~= Seq::<RefLabelView>::empty().push(label_view));
                } else if group_of@.contains_key(o) {
                    assert(old(group_of)@.contains_key(o));
                    assert(groups@[group_of@[o] as int] == old(groups)@[group_of@[o] as int]);
                }
            }
        },
    }
}

/// Builds the commit nodes of the walk: each commit with its text (empty when
/// not valid UTF-8) and its labels. A commit is labelled by every reference
/// that peels to it, in reference order, and by `HEAD` last when it is the
/// checked-out commit `head`; the labels go to the first commit in the walk
/// with that object id.
pub fn build_commit_nodes(refs: &Vec<RawRef>, head: Option<String>, commits: Vec<RawCommit>) -> (nodes: Vec<CommitNode>)
    ensures
        nodes@.len() == commits@.len(),
        forall|i: int| 0 <= i < commits@.len() ==> builds_node(#[trigger] nodes@[i], commits@, i, refs@, head),
{
    let ghost all = commits@;
    let mut group_of: StringHashMap<usize> = StringHashMap::new();
    let mut groups: Vec<Vec<RefLabel>> = Vec::new();
    let mut r: usize = 0;
    while r < refs.len()
        invariant
            r <= refs@.len(),
            groups_well_formed(group_of@, groups@),
            forall|o: Seq<char>| #[trigger] grouped_labels(group_of@, groups@, o) == ref_labels(refs@, r as nat, o),
        decreases refs@.len() - r,
    {
        match ref_label(&refs[r]) {
            Some((commit, label)) => {
                add_label(&mut group_of, &mut groups, commit, label);
            },
            None => {},
        }
        r = r + 1;
    }
    let ghost head_view = head;
    match head {
        Some(h) => {
            let name = String::from_str("HEAD");
            add_label(&mut group_of, &mut groups, h, RefLabel { name, kind: RefKind::Head });
        },
        None => {},
    }
    assert(forall|o: Seq<char>| #[trigger] grouped_labels(group_of@, groups@, o) == commit_labels(refs@, head_view, o));

    let mut nodes: Vec<CommitNode> = Vec::new();
    for c in it: commits.into_iter()
        invariant
            it.seq() == all,
            nodes@.len() == it.index(),
            groups_well_formed(group_of@, groups@),
            forall|o: Seq<char>|
                #[trigger] grouped_labels(group_of@, groups@, o) == if seen_before(all, it.index() as int, o) {
                    Seq::empty()
                } else {
                    commit_labels(refs@, head_view, o)
                },
            forall|i: int| 0 <= i < nodes@.len() ==> builds_node(#[trigger] nodes@[i], all, i, refs@, head_view),
    {
        let ghost before_groups = groups@;
        let ghost idx = it.index() as int;
        let ghost oid = c.oid@;
        assert(c == all[idx]);
        let ghost expected = grouped_labels(group_of@, before_groups, oid);
        let labels = match group_of.get(c.oid.as_str()) {
            Some(g) => {
                let g = *g;
                let mut taken: Vec<RefLabel> = Vec::new();
                groups.set_and_swap(g, &mut taken);
                taken
            },
            None => Vec::new(),
        };
        let summary = match c.summary {
            Some(s) => s,
            None => String::new(),
        };
        let author = match c.author {
            Some(s) => s,
            None => String::new(),
        };
        assert(graph::labels_view(labels@) == expected) by {
            if group_of@.contains_key(oid) {
                assert(labels@ == before_groups[group_of@[oid] as int]@);
            } else {
                assert(graph::labels_view(labels@) =~= Seq::<RefLabelView>::empty());
            }
        }
        assert forall|o: Seq<char>|
            #[trigger] grouped_labels(group_of@, groups@, o) == if seen_before(all, idx + 1, o) {
                Seq::empty()
            } else {
                commit_labels(refs@, head_view, o)
            } by {
            assert(grouped_labels(group_of@, before_groups, o) == if seen_before(all, idx, o) {
                Seq::empty()
            } else {
                commit_labels(refs@, head_view, o)
            });
            if o == oid {
                assert(all[idx].oid@ == o);
                assert(seen_before(all, idx + 1, o));
                if group_of@.contains_key(o) {
                    assert(graph::labels_view(groups@[group_of@[o] as int]@) =~= Seq::<RefLabelView>::empty());
                }
            } else {
                assert(seen_before(all, idx + 1, o) == seen_before(all, idx, o));
                if group_of@.contains_key(o) {
                    if group_of@.contains_key(oid) {
                        assert(group_of@[o] != group_of@[oid]);
                    }
                    assert(groups@[group_of@[o] as int] == before_groups[group_of@[o] as int]);
                }
            }
        }
        nodes.push(CommitNode { oid: c.oid, summary, author, time: c.time, parent_oids: c.parent_oids, refs: labels });
    }
    nodes
}

} // verus!
