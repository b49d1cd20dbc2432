//! Histories: the chain of commits reached from a commit by going from
//! each commit to its first parent, down to a root.

use crate::object::{CommitView, ObjectView};
use vstd::prelude::*;

verus! {

/// A commit stands under `id`.
pub open spec fn is_commit(m: Map<Seq<u8>, ObjectView>, id: Seq<u8>) -> bool {
    m.contains_key(id) && m[id] is Commit
}

/// A tree stands under `id`.
pub open spec fn is_tree(m: Map<Seq<u8>, ObjectView>, id: Seq<u8>) -> bool {
    m.contains_key(id) && m[id] is Tree
}

/// A blob stands under `id`.
pub open spec fn is_blob(m: Map<Seq<u8>, ObjectView>, id: Seq<u8>) -> bool {
    m.contains_key(id) && m[id] is Blob
}

/// The commit under `id`.
pub open spec fn commit_at(m: Map<Seq<u8>, ObjectView>, id: Seq<u8>) -> CommitView
    recommends
        is_commit(m, id),
{
    m[id]->Commit_0
}

/// Every digest of the list names a commit.
pub open spec fn all_commits(m: Map<Seq<u8>, ObjectView>, ids: Seq<Seq<u8>>) -> bool {
    forall|k: int| 0 <= k < ids.len() ==> is_commit(m, #[trigger] ids[k])
}

/// `h` is the history of `tip`: it starts at `tip`, each of its commits is
/// followed by its first parent, and it ends at a commit without parents.
pub open spec fn is_history(m: Map<Seq<u8>, ObjectView>, tip: Seq<u8>, h: Seq<Seq<u8>>) -> bool {
    &&& h.len() > 0
    &&& h[0] == tip
    &&& forall|i: int| 0 <= i < h.len() ==> is_commit(m, #[trigger] h[i])
    &&& forall|i: int|
        0 <= i < h.len() - 1 ==> {
            &&& commit_at(m, #[trigger] h[i]).parents.len() > 0
            &&& commit_at(m, h[i]).parents[0] == h[i + 1]
        }
    &&& commit_at(m, h.last()).parents.len() == 0
}

proof fn lemma_history_agree(
    m: Map<Seq<u8>, ObjectView>,
    tip: Seq<u8>,
    h1: Seq<Seq<u8>>,
    h2: Seq<Seq<u8>>,
    i: int,
)
    requires
        is_history(m, tip, h1),
        is_history(m, tip, h2),
        0 <= i < h1.len(),
    ensures
        i < h2.len(),
        h1[i] == h2[i],
    decreases i,
{
    if i > 0 {
        lemma_history_agree(m, tip, h1, h2, i - 1);
        let c = commit_at(m, h1[i - 1]);
        assert(c.parents.len() > 0 && c.parents[0] == h1[i]);
        if i - 1 == h2.len() - 1 {
            assert(commit_at(m, h2.last()).parents.len() == 0);
        }
        assert(commit_at(m, h2[i - 1]).parents[0] == h2[i]);
    }
}

/// A commit has at most one history.
pub proof fn lemma_history_unique(
    m: Map<Seq<u8>, ObjectView>,
    tip: Seq<u8>,
    h1: Seq<Seq<u8>>,
    h2: Seq<Seq<u8>>,
)
    requires
        is_history(m, tip, h1),
        is_history(m, tip, h2),
    ensures
        h1 == h2,
{
    lemma_history_agree(m, tip, h1, h2, h1.len() - 1);
    lemma_history_agree(m, tip, h2, h1, h2.len() - 1);
    assert forall|i: int| 0 <= i < h1.len() implies h1[i] == h2[i] by {
        lemma_history_agree(m, tip, h1, h2, i);
    }
    assert(h1 =~= h2);
}

/// A history stays one when objects are added to the store, since nothing
/// stored ever changes.
pub proof fn lemma_history_kept(
    m: Map<Seq<u8>, ObjectView>,
    n: Map<Seq<u8>, ObjectView>,
    tip: Seq<u8>,
    h: Seq<Seq<u8>>,
)
    requires
        is_history(m, tip, h),
        forall|id: Seq<u8>| #[trigger] m.contains_key(id) ==> n.contains_key(id) && n[id] == m[id],
    ensures
        is_history(n, tip, h),
{
    assert forall|i: int| 0 <= i < h.len() implies is_commit(n, #[trigger] h[i]) && commit_at(
        n,
        h[i],
    ) == commit_at(m, h[i]) by {
        assert(is_commit(m, h[i]));
    }
    assert(is_commit(m, h.last()));
}

} // verus!
