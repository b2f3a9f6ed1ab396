use vstd::prelude::*;

use crate::graph::{CommitNode, RefKind, RefLabelView};
use crate::graph;
use crate::walk::{RawCommit, RawRef};
use crate::walk;

verus! {

/// Whether the text `s` begins with `prefix`.
pub open spec fn begins_with(s: Seq<char>, prefix: Seq<char>) -> bool {
    prefix.len() <= s.len() && s.subrange(0, prefix.len() as int) == prefix
}

/// How a full reference name is classified: `HEAD` is not a label; every
/// name under `refs/tags/` is a tag and every name under `refs/remotes/` a
/// remote branch, whatever follows; every other name is a branch.
pub proof fn law_reference_kinds(name: Seq<char>)
    ensures
        name == "HEAD"@ ==> walk::ref_kind(name) is None,
        begins_with(name, "refs/tags/"@) ==> walk::ref_kind(name) == Some(RefKind::Tag),
        begins_with(name, "refs/remotes/"@) ==> walk::ref_kind(name) == Some(RefKind::RemoteBranch),
        name != "HEAD"@ && !begins_with(name, "refs/tags/"@) && !begins_with(name, "refs/remotes/"@)
            ==> walk::ref_kind(name) == Some(RefKind::Branch),
{
    reveal_strlit("HEAD");
    reveal_strlit("refs/tags/");
    reveal_strlit("refs/remotes/");
    if begins_with(name, "refs/tags/"@) {
        assert(name.len() >= 10);
        assert(name != "HEAD"@);
        assert(walk::has_prefix(name, "refs/tags/"@));
    }
    if begins_with(name, "refs/remotes/"@) {
        assert(name.len() >= 13);
        assert(name != "HEAD"@);
        assert(name.subrange(0, 13)[5] == 'r');
        assert(name[5] == 'r');
        if walk::has_prefix(name, "refs/tags/"@) {
            assert(name.subrange(0, 10)[5] == 't');
        }
        assert(walk::has_prefix(name, "refs/remotes/"@));
    }
}

/// Reference `r` labels the commit `oid`: it has a name other than `HEAD`
/// and peels to `oid`.
pub open spec fn labels_commit(r: RawRef, oid: Seq<char>) -> bool {
    &&& r.name is Some
    &&& r.commit is Some
    &&& r.commit->0@ == oid
    &&& r.name->0@ != "HEAD"@
}

pub open spec fn labelling(oid: Seq<char>) -> spec_fn(RawRef) -> bool {
    |r: RawRef| labels_commit(r, oid)
}

/// The label a reference shows: its short name, or its full name when it has
/// no short one, with the kind its full name gives.
pub open spec fn shown_label(r: RawRef) -> RefLabelView {
    RefLabelView {
        name: match r.shorthand {
            Some(s) => s@,
            None => r.name->0@,
        },
        kind: walk::ref_kind(r.name->0@)->0,
    }
}

proof fn lemma_ref_labels_filter(refs: Seq<RawRef>, n: nat, oid: Seq<char>)
    requires
        n <= refs.len(),
    ensures
        walk::ref_labels(refs, n, oid) == refs.take(n as int).filter(labelling(oid)).map_values(
            |r: RawRef| shown_label(r),
        ),
    decreases n,
{
    reveal_strlit("HEAD");
    reveal_with_fuel(Seq::filter, 1);
    let f = |r: RawRef| shown_label(r);
    if n == 0 {
        assert(refs.take(0).filter(labelling(oid)) =~= Seq::<RawRef>::empty());
        assert(walk::ref_labels(refs, n, oid) =~= refs.take(0).filter(labelling(oid)).map_values(f));
    } else {
        lemma_ref_labels_filter(refs, (n - 1) as nat, oid);
        let s = refs.take(n as int);
        assert(s.drop_last() =~= refs.take(n - 1));
        assert(s.last() == refs[n - 1]);
        let r = refs[n - 1];
        let sub = refs.take(n - 1).filter(labelling(oid));
        assert(labelling(oid)(r) == labels_commit(r, oid));
        assert(s.drop_last().filter(labelling(oid)) == sub);
        if labels_commit(r, oid) {
            assert(s.filter(labelling(oid)) == sub.push(r));
            assert(sub.push(r).map_values(f) =~= sub.map_values(f).push(shown_label(r)));
            assert(walk::ref_kind(r.name->0@) is Some);
        } else {
            assert(s.filter(labelling(oid)) == sub);
            if let Some((c, l)) = walk::ref_entry(r) {
                assert(c != oid);
            }
        }
    }
}

/// Whether a commit with object id `oid` comes up in the walk before position `i`.
pub open spec fn comes_up_before(commits: Seq<RawCommit>, i: int, oid: Seq<char>) -> bool {
    exists|j: int| 0 <= j < i && #[trigger] commits[j].oid@ == oid
}

/// Whether `oid` is the checked-out commit.
pub open spec fn checked_out(head: Option<String>, oid: Seq<char>) -> bool {
    match head {
        Some(h) => h@ == oid,
        None => false,
    }
}

/// The label of the checked-out commit.
pub open spec fn head_marker() -> RefLabelView {
    RefLabelView { name: "HEAD"@, kind: RefKind::Head }
}

/// The labels of a node built from a walk: a commit that comes up in the walk
/// for the first time carries one label for each reference that labels it, in
/// reference order, named by the reference's short name (its full name when
/// there is none) and of the kind its full name gives, and then `HEAD` when it
/// is the checked-out commit, wherever it stands in the walk. A commit whose
/// object id came up before carries no labels.
pub proof fn law_node_labels(
    node: CommitNode,
    commits: Seq<RawCommit>,
    i: int,
    refs: Seq<RawRef>,
    head: Option<String>,
)
    requires
        0 <= i < commits.len(),
        walk::builds_node(node, commits, i, refs, head),
    ensures
        ({
            let oid = commits[i].oid@;
            let labels = graph::labels_view(node.refs@);
            let own = refs.filter(labelling(oid));
            &&& comes_up_before(commits, i, oid) ==> labels.len() == 0
            &&& !comes_up_before(commits, i, oid) ==> {
                &&& labels.len() == own.len() + (if checked_out(head, oid) { 1int } else { 0int })
                &&& forall|q: int| 0 <= q < own.len() ==> labels[q] == shown_label(#[trigger] own[q])
                &&& checked_out(head, oid) ==> labels[own.len() as int] == head_marker()
            }
        }),
{
    let oid = commits[i].oid@;
    lemma_ref_labels_filter(refs, refs.len(), oid);
    assert(refs.take(refs.len() as int) =~= refs);
    let own = refs.filter(labelling(oid));
    assert(walk::ref_labels(refs, refs.len(), oid) == own.map_values(|r: RawRef| shown_label(r)));
}

/// A node built from a walk keeps the commit's data: its object id, time and
/// parents, and its summary and author, which are empty when the commit had
/// none that could be read.
pub proof fn law_node_keeps_commit_data(
    node: CommitNode,
    commits: Seq<RawCommit>,
    i: int,
    refs: Seq<RawRef>,
    head: Option<String>,
)
    requires
        0 <= i < commits.len(),
        walk::builds_node(node, commits, i, refs, head),
    ensures
        node.oid == commits[i].oid,
        node.time == commits[i].time,
        node.parent_oids == commits[i].parent_oids,
        commits[i].summary matches Some(s) ==> node.summary@ == s@,
        commits[i].summary is None ==> node.summary@.len() == 0,
        commits[i].author matches Some(a) ==> node.author@ == a@,
        commits[i].author is None ==> node.author@.len() == 0,
{
}

} // verus!
