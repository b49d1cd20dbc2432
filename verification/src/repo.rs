//! The repository handle: an object store, an index and references, and
//! the operations that stage content, build trees and create commits.

use crate::bytes::bytes_copy;
use crate::digest::{Digest, ObjectKind};
use crate::encode::digest_of;
use crate::error::VcsError;
use crate::history::{all_commits, commit_at, is_blob, is_commit, is_history, is_tree};
use crate::index::{staged, staged_all, Index};
use crate::object::{
    digest_views, Commit, CommitView, Object, ObjectView, Signature, SignatureView,
    TreeEntryView,
};
use crate::refs::{
    advanced, head_name, only_head, refs_valid, resolve_spec, Reference, ReferenceStore,
    ReferenceView,
};
use crate::store::{can_store, clashes, stored, ObjectStore};
use vstd::prelude::*;

verus! {

/// One repository: the objects it holds, the rows staged for the next tree
/// and its references.
pub struct Repository {
    store: ObjectStore,
    index: Index,
    refs: ReferenceStore,
}

pub struct RepositoryView {
    pub objects: Map<Seq<u8>, ObjectView>,
    pub index: Seq<TreeEntryView>,
    pub refs: Map<Seq<u8>, ReferenceView>,
}

impl View for Repository {
    type V = RepositoryView;

    closed spec fn view(&self) -> RepositoryView {
        RepositoryView { objects: self.store@, index: self.index@, refs: self.refs@ }
    }
}

/// The digest `id` is held before position `i`, and names a commit.
spec fn earlier_commit(store: &ObjectStore, id: Seq<u8>, i: int) -> bool {
    &&& store.ids().contains(id)
    &&& store.ids().index_of(id) < i
    &&& is_commit(store@, id)
}

/// If a commit stands at position `i`, its parents are commits that were
/// stored before it.
spec fn closed_at(store: &ObjectStore, i: int) -> bool {
    store@[store.ids()[i]] matches ObjectView::Commit(c) ==> forall|k: int|
        0 <= k < c.parents.len() ==> earlier_commit(store, #[trigger] c.parents[k], i)
}

/// Every commit held was stored after its parents.
spec fn history_closed(store: &ObjectStore) -> bool {
    forall|i: int| 0 <= i < store.ids().len() ==> #[trigger] closed_at(store, i)
}

/// Storing an object whose parents, if it is a commit, are commits held
/// keeps every commit behind its parents.
proof fn lemma_closed_after_put(
    before: &ObjectStore,
    after: &ObjectStore,
    id: Seq<u8>,
    object: ObjectView,
)
    requires
        before.wf(),
        after.wf(),
        history_closed(before),
        !clashes(before@, id, object),
        after@ == before@.insert(id, object),
        after.ids() == if before@.contains_key(id) {
            before.ids()
        } else {
            before.ids().push(id)
        },
        object matches ObjectView::Commit(c) ==> all_commits(before@, c.parents),
    ensures
        history_closed(after),
{
    before.lemma_wf();
    after.lemma_wf();
    if !before@.contains_key(id) {
        let n = before.ids().len() as int;
        assert forall|x: Seq<u8>| before.ids().contains(x) implies after.ids().contains(x)
            && after.ids().index_of(x) == before.ids().index_of(x) by {
            let i = before.ids().index_of(x);
            assert(after.ids()[i] == x);
        }
        assert forall|i: int| 0 <= i < after.ids().len() implies #[trigger] closed_at(after, i) by {
            if i < n {
                assert(after.ids()[i] == before.ids()[i]);
                assert(before.ids().contains(before.ids()[i]));
                assert(closed_at(before, i));
                if let ObjectView::Commit(c) = after@[after.ids()[i]] {
                    assert forall|k: int| 0 <= k < c.parents.len() implies earlier_commit(
                        after,
                        #[trigger] c.parents[k],
                        i,
                    ) by {
                        assert(earlier_commit(before, c.parents[k], i));
                    }
                }
            } else {
                assert(after.ids()[i] == id);
                if let ObjectView::Commit(c) = object {
                    assert forall|k: int| 0 <= k < c.parents.len() implies earlier_commit(
                        after,
                        #[trigger] c.parents[k],
                        i,
                    ) by {
                        assert(is_commit(before@, c.parents[k]));
                        assert(before.ids().contains(c.parents[k]));
                    }
                }
            }
        }
    } else {
        assert forall|i: int| 0 <= i < after.ids().len() implies #[trigger] closed_at(after, i) by {
            assert(closed_at(before, i));
            if let ObjectView::Commit(c) = after@[after.ids()[i]] {
                assert forall|k: int| 0 <= k < c.parents.len() implies earlier_commit(
                    after,
                    #[trigger] c.parents[k],
                    i,
                ) by {
                    assert(earlier_commit(before, c.parents[k], i));
                }
            }
        }
    }
}

impl Repository {
    /// The parts are well-formed, and every commit held was stored after
    /// its parents, which are commits.
    pub closed spec fn wf(&self) -> bool {
        &&& self.store.wf()
        &&& self.index.wf()
        &&& self.refs.wf()
        &&& history_closed(&self.store)
    }

    /// What a well-formed repository guarantees of its content: every
    /// object stands under its own digest, the parents of a commit held are
    /// commits held, the staged rows are sorted, and `HEAD` exists and is
    /// the only reference that may be symbolic.
    pub proof fn lemma_wf(&self)
        requires
            self.wf(),
        ensures
            self@.objects.dom().finite(),
            forall|id: Seq<u8>| #[trigger]
                self@.objects.contains_key(id) ==> digest_of(self@.objects[id]) == id,
            forall|id: Seq<u8>| #[trigger]
                is_commit(self@.objects, id) ==> all_commits(
                    self@.objects,
                    commit_at(self@.objects, id).parents,
                ),
            crate::index::sorted(self@.index),
            refs_valid(self@.refs),
    {
        self.store.lemma_wf();
        self.refs.lemma_wf();
        assert forall|id: Seq<u8>| #[trigger] is_commit(self@.objects, id) implies all_commits(
            self@.objects,
            commit_at(self@.objects, id).parents,
        ) by {
            assert(self.store@.contains_key(id));
            assert(self.store.ids().contains(id));
            let i = self.store.ids().index_of(id);
            assert(0 <= i < self.store.ids().len());
            assert(history_closed(&self.store));
            assert(closed_at(&self.store, i));
            let c = commit_at(self@.objects, id);
            assert forall|k: int| 0 <= k < c.parents.len() implies is_commit(
                self@.objects,
                #[trigger] c.parents[k],
            ) by {
                assert(earlier_commit(&self.store, c.parents[k], i));
            }
        }
    }

    /// An empty repository: no objects, nothing staged, and `HEAD` naming
    /// the branch `master`, which does not exist yet.
    pub fn new() -> (r: Repository)
        ensures
            r.wf(),
            r@.objects == Map::<Seq<u8>, ObjectView>::empty(),
            r@.index == Seq::<TreeEntryView>::empty(),
            r@.refs == Map::<Seq<u8>, ReferenceView>::empty().insert(
                head_name(),
                ReferenceView::Symbolic(crate::refs::default_branch()),
            ),
    {
        Repository { store: ObjectStore::new(), index: Index::new(), refs: ReferenceStore::new() }
    }

    /// The object store.
    pub fn store(&self) -> (r: &ObjectStore)
        requires
            self.wf(),
        ensures
            r.wf(),
            r@ == self@.objects,
    {
        &self.store
    }

    /// The index.
    pub fn index(&self) -> (r: &Index)
        requires
            self.wf(),
        ensures
            r.wf(),
            r@ == self@.index,
    {
        &self.index
    }

    /// The references.
    pub fn refs(&self) -> (r: &ReferenceStore)
        requires
            self.wf(),
        ensures
            r.wf(),
            r@ == self@.refs,
    {
        &self.refs
    }

    /// Stores `content` as a blob and stages it at `path`, overwriting what
    /// was staged there. Fails, changing nothing, with `StorageIO` if the
    /// blob cannot be stored, and only then.
    pub fn stage(&mut self, path: Vec<u8>, content: Vec<u8>) -> (r: Result<Digest, VcsError>)
        requires
            old(self).wf(),
        ensures
            final(self).wf(),
            match r {
                Ok(d) => {
                    &&& can_store(old(self)@.objects, ObjectView::Blob(content@))
                    &&& d@ == digest_of(ObjectView::Blob(content@))
                    &&& final(self)@ == (RepositoryView {
                        objects: stored(old(self)@.objects, ObjectView::Blob(content@)),
                        index: staged(old(self)@.index, path@, d@),
                        refs: old(self)@.refs,
                    })
                },
                Err(e) => {
                    &&& e == VcsError::StorageIO
                    &&& !can_store(old(self)@.objects, ObjectView::Blob(content@))
                    &&& final(self)@ == old(self)@
                },
            },
    {
        let hashed = Digest::compute(ObjectKind::Blob, content.as_slice());
        self.stage_hashed(path, content, hashed)
    }

    /// Stages `content` at `path` given the outcome of computing its
    /// digest. With a digest, the blob is stored under it and the row is
    /// staged, unless the digest is taken by another object: then nothing
    /// changes and the result is `StorageIO`. With an error, nothing
    /// changes and the error is handed on.
    pub fn stage_hashed(
        &mut self,
        path: Vec<u8>,
        content: Vec<u8>,
        hashed: Result<Digest, VcsError>,
    ) -> (r: Result<Digest, VcsError>)
        requires
            old(self).wf(),
            hashed matches Ok(d) ==> d@ == digest_of(ObjectView::Blob(content@)),
        ensures
            final(self).wf(),
            match hashed {
                Ok(d) => if clashes(old(self)@.objects, d@, ObjectView::Blob(content@)) {
                    r == Err::<Digest, VcsError>(VcsError::StorageIO) && final(self)@ == old(self)@
                } else {
                    r == hashed && final(self)@ == (RepositoryView {
                        objects: old(self)@.objects.insert(d@, ObjectView::Blob(content@)),
                        index: staged(old(self)@.index, path@, d@),
                        refs: old(self)@.refs,
                    })
                },
                Err(_) => r == hashed && final(self)@ == old(self)@,
            },
    {
        let ghost before = self.store;
        let ghost blob = ObjectView::Blob(content@);
        match self.store.put_hashed(Object::Blob(content), hashed) {
            Ok(d) => {
                proof {
                    lemma_closed_after_put(&before, &self.store, d@, blob);
                }
                self.index.insert(path, d);
                Ok(d)
            },
            Err(e) => Err(e),
        }
    }

    /// Builds the tree of the rows staged, stores it and returns its
    /// digest. The index stays as it is. Fails, changing nothing, with
    /// `StorageIO` if the tree cannot be stored, and only then.
    pub fn write_tree(&mut self) -> (r: Result<Digest, VcsError>)
        requires
            old(self).wf(),
        ensures
            final(self).wf(),
            match r {
                Ok(d) => {
                    &&& can_store(old(self)@.objects, ObjectView::Tree(old(self)@.index))
                    &&& d@ == digest_of(ObjectView::Tree(old(self)@.index))
                    &&& final(self)@ == (RepositoryView {
                        objects: stored(old(self)@.objects, ObjectView::Tree(old(self)@.index)),
                        ..old(self)@
                    })
                },
                Err(e) => {
                    &&& e == VcsError::StorageIO
                    &&& !can_store(old(self)@.objects, ObjectView::Tree(old(self)@.index))
                    &&& final(self)@ == old(self)@
                },
            },
    {
        let hashed = Object::Tree(self.index.to_tree()).digest();
        self.write_tree_hashed(hashed)
    }

    /// Builds and stores the tree of the rows staged, given the outcome of
    /// computing its digest. With a digest, the tree is stored under it,
    /// unless the digest is taken by another object: then nothing changes
    /// and the result is `StorageIO`. With an error, nothing changes and
    /// the error is handed on.
    pub fn write_tree_hashed(&mut self, hashed: Result<Digest, VcsError>) -> (r: Result<
        Digest,
        VcsError,
    >)
        requires
            old(self).wf(),
            hashed matches Ok(d) ==> d@ == digest_of(ObjectView::Tree(old(self)@.index)),
        ensures
            final(self).wf(),
            match hashed {
                Ok(d) => if clashes(old(self)@.objects, d@, ObjectView::Tree(old(self)@.index)) {
                    r == Err::<Digest, VcsError>(VcsError::StorageIO) && final(self)@ == old(self)@
                } else {
                    r == hashed && final(self)@ == (RepositoryView {
                        objects: old(self)@.objects.insert(d@, ObjectView::Tree(old(self)@.index)),
                        ..old(self)@
                    })
                },
                Err(_) => r == hashed && final(self)@ == old(self)@,
            },
    {
        let tree = Object::Tree(self.index.to_tree());
        let ghost before = self.store;
        let ghost view = tree@;
        match self.store.put_hashed(tree, hashed) {
            Ok(d) => {
                proof {
                    lemma_closed_after_put(&before, &self.store, d@, view);
                }
                Ok(d)
            },
            Err(e) => Err(e),
        }
    }

    /// The history of the commit `tip`: `tip`, its first parent, that
    /// commit's first parent, and so on down to a commit without parents.
    /// Fails with `NotFound` if `tip` names no commit.
    pub fn history(&self, tip: &Digest) -> (r: Result<Vec<Digest>, VcsError>)
        requires
            self.wf(),
        ensures
            match r {
                Ok(h) => is_history(self@.objects, tip@, digest_views(h@)),
                Err(e) => e == VcsError::NotFound && !is_commit(self@.objects, tip@),
            },
    {
        proof {
            self.store.lemma_wf();
        }
        let mut pos = match self.store.find(tip) {
            Some(i) => i,
            None => {
                return Err(VcsError::NotFound);
            },
        };
        let mut cur = *tip;
        let mut h: Vec<Digest> = Vec::new();
        if let Object::Commit(_) = self.store.object_at(pos) {
        } else {
            return Err(VcsError::NotFound);
        }
        loop
            invariant
                self.wf(),
                self.store.ids().no_duplicates(),
                forall|id: Seq<u8>| self.store@.contains_key(id) <==> self.store.ids().contains(id),
                pos < self.store.ids().len(),
                self.store.ids()[pos as int] == cur@,
                is_commit(self.store@, cur@),
                h.len() == 0 ==> cur@ == tip@,
                forall|i: int| 0 <= i < h.len() ==> is_commit(self.store@, #[trigger] h[i]@),
                forall|i: int|
                    0 <= i < h.len() - 1 ==> {
                        &&& commit_at(self.store@, #[trigger] h[i]@).parents.len() > 0
                        &&& commit_at(self.store@, h[i]@).parents[0] == h[i + 1]@
                    },
                h.len() > 0 ==> h[0]@ == tip@ && commit_at(
                    self.store@,
                    h[h.len() - 1]@,
                ).parents.len() > 0 && commit_at(self.store@, h[h.len() - 1]@).parents[0] == cur@,
            decreases pos,
        {
            h.push(cur);
            match self.store.object_at(pos) {
                Object::Commit(c) => {
                    if c.parents.len() == 0 {
                        proof {
                            let hv = digest_views(h@);
                            assert(hv.last() == cur@);
                            assert forall|i: int| 0 <= i < hv.len() implies is_commit(
                                self@.objects,
                                #[trigger] hv[i],
                            ) by {
                                assert(hv[i] == h[i]@);
                            }
                            assert forall|i: int| 0 <= i < hv.len() - 1 implies {
                                &&& commit_at(self@.objects, #[trigger] hv[i]).parents.len() > 0
                                &&& commit_at(self@.objects, hv[i]).parents[0] == hv[i + 1]
                            } by {
                                assert(hv[i] == h[i]@);
                                assert(hv[i + 1] == h[i + 1]@);
                            }
                        }
                        return Ok(h);
                    }
                    let parent = c.parents[0];
                    proof {
                        assert(closed_at(&self.store, pos as int));
                        assert(c@.parents[0] == parent@);
                        assert(earlier_commit(&self.store, c@.parents[0], pos as int));
                    }
                    match self.store.find(&parent) {
                        Some(j) => {
                            pos = j;
                            cur = parent;
                        },
                        None => {
                            return Err(VcsError::NotFound);
                        },
                    }
                },
                _ => {
                    return Err(VcsError::NotFound);
                },
            }
        }
    }
}

/// The parents of a commit made at the current position: the commit that
/// `HEAD` leads to; none if `HEAD` leads nowhere and is the only reference,
/// as in a repository without commits. Where `HEAD` leads nowhere and other
/// references exist, there is no such commit to make, and the error of
/// resolving `HEAD` stands.
pub open spec fn head_parents(refs: Map<Seq<u8>, ReferenceView>) -> Result<
    Seq<Seq<u8>>,
    VcsError,
> {
    match resolve_spec(refs, head_name()) {
        Ok(d) => Ok(seq![d]),
        Err(e) => if only_head(refs) {
            Ok(Seq::empty())
        } else {
            Err(e)
        },
    }
}

/// The commit that records the index of `v`: its tree is that of the rows
/// staged.
pub open spec fn commit_of_index(
    v: RepositoryView,
    parents: Seq<Seq<u8>>,
    author: SignatureView,
    committer: SignatureView,
    message: Seq<u8>,
) -> ObjectView {
    ObjectView::Commit(
        CommitView { tree: digest_of(ObjectView::Tree(v.index)), parents, author, committer, message },
    )
}

/// What committing the index of `v` returns: the digest of the commit, or
/// `NotFound` if a parent is not a commit held, or else `StorageIO` if the
/// tree or, with the tree stored, the commit cannot be stored.
pub open spec fn commit_result(
    v: RepositoryView,
    parents: Seq<Seq<u8>>,
    author: SignatureView,
    committer: SignatureView,
    message: Seq<u8>,
) -> Result<Seq<u8>, VcsError> {
    let tree = ObjectView::Tree(v.index);
    let c = commit_of_index(v, parents, author, committer, message);
    if !all_commits(v.objects, parents) {
        Err(VcsError::NotFound)
    } else if !can_store(v.objects, tree) || !can_store(stored(v.objects, tree), c) {
        Err(VcsError::StorageIO)
    } else {
        Ok(digest_of(c))
    }
}

/// The repository after committing the index of `v`: with the tree and the
/// commit stored and the current position moved to the commit, where that
/// succeeds; with the tree stored and nothing else changed, where only the
/// commit cannot be stored; unchanged otherwise.
pub open spec fn committed(
    v: RepositoryView,
    parents: Seq<Seq<u8>>,
    author: SignatureView,
    committer: SignatureView,
    message: Seq<u8>,
) -> RepositoryView {
    let tree = ObjectView::Tree(v.index);
    let c = commit_of_index(v, parents, author, committer, message);
    if !all_commits(v.objects, parents) || !can_store(v.objects, tree) {
        v
    } else if !can_store(stored(v.objects, tree), c) {
        RepositoryView { objects: stored(v.objects, tree), ..v }
    } else {
        RepositoryView {
            objects: stored(stored(v.objects, tree), c),
            index: v.index,
            refs: advanced(v.refs, digest_of(c)),
        }
    }
}

/// A commit of the index removes and alters no object, whether it succeeds
/// or fails: everything held before is held unchanged afterwards.
pub proof fn lemma_commit_keeps_objects(
    v: RepositoryView,
    parents: Seq<Seq<u8>>,
    author: SignatureView,
    committer: SignatureView,
    message: Seq<u8>,
    id: Seq<u8>,
)
    requires
        v.objects.contains_key(id),
    ensures
        committed(v, parents, author, committer, message).objects.contains_key(id),
        committed(v, parents, author, committer, message).objects[id] == v.objects[id],
{
}

/// A file of the working tree: its path and its content.
#[derive(Debug, PartialEq, Eq)]
pub struct WorkFile {
    pub path: Vec<u8>,
    pub content: Vec<u8>,
}

pub struct WorkFileView {
    pub path: Seq<u8>,
    pub content: Seq<u8>,
}

impl View for WorkFile {
    type V = WorkFileView;

    open spec fn view(&self) -> WorkFileView {
        WorkFileView { path: self.path@, content: self.content@ }
    }
}

/// The views of a list of files.
pub open spec fn file_views(files: Seq<WorkFile>) -> Seq<WorkFileView> {
    Seq::new(files.len(), |i: int| files[i]@)
}

/// Every row names a blob held.
pub open spec fn all_blobs(m: Map<Seq<u8>, ObjectView>, rows: Seq<TreeEntryView>) -> bool {
    forall|k: int| 0 <= k < rows.len() ==> is_blob(m, (#[trigger] rows[k]).blob)
}

/// The files that the rows of a tree stand for: each path with the content
/// of its blob.
pub open spec fn files_of(m: Map<Seq<u8>, ObjectView>, rows: Seq<TreeEntryView>) -> Seq<
    WorkFileView,
> {
    Seq::new(
        rows.len(),
        |i: int| WorkFileView { path: rows[i].path, content: m[rows[i].blob]->Blob_0 },
    )
}

/// The commit that a checkout target stands for: the digest itself, or the
/// one that the named reference holds. A name that is no reference gives
/// `NotFound`, one that holds no digest `DanglingReference`.
pub open spec fn target_commit(refs: Map<Seq<u8>, ReferenceView>, target: ReferenceView) -> Result<
    Seq<u8>,
    VcsError,
> {
    match target {
        ReferenceView::Direct(d) => Ok(d),
        ReferenceView::Symbolic(name) => if !refs.contains_key(name) {
            Err(VcsError::NotFound)
        } else {
            match refs[name] {
                ReferenceView::Direct(d) => Ok(d),
                ReferenceView::Symbolic(_) => Err(VcsError::DanglingReference),
            }
        },
    }
}

/// The rows of the tree that a checkout of `target` materializes, or the
/// error that it fails with: that of finding the commit, or `NotFound` if
/// the commit, its tree or one of the tree's blobs is not held.
pub open spec fn checkout_rows(v: RepositoryView, target: ReferenceView) -> Result<
    Seq<TreeEntryView>,
    VcsError,
> {
    match target_commit(v.refs, target) {
        Err(e) => Err(e),
        Ok(d) => if !is_commit(v.objects, d) {
            Err(VcsError::NotFound)
        } else if !is_tree(v.objects, commit_at(v.objects, d).tree) {
            Err(VcsError::NotFound)
        } else {
            let rows = v.objects[commit_at(v.objects, d).tree]->Tree_0;
            if all_blobs(v.objects, rows) {
                Ok(rows)
            } else {
                Err(VcsError::NotFound)
            }
        },
    }
}

impl Repository {
    /// Whether every digest of the list names a commit held.
    pub fn are_commits(&self, ids: &Vec<Digest>) -> (r: bool)
        requires
            self.wf(),
        ensures
            r == all_commits(self@.objects, digest_views(ids@)),
    {
        let mut i: usize = 0;
        while i < ids.len()
            invariant
                0 <= i <= ids.len(),
                self.wf(),
                forall|k: int| 0 <= k < i ==> is_commit(self.store@, #[trigger] digest_views(ids@)[k]),
            decreases ids.len() - i,
        {
            match self.store.get(&ids[i]) {
                Ok(Object::Commit(_)) => {},
                _ => {
                    assert(!is_commit(self.store@, digest_views(ids@)[i as int]));
                    return false;
                },
            }
            i += 1;
        }
        true
    }

    /// Stores `commit`, touching no reference. Fails, changing nothing,
    /// with `NotFound` if a parent is not a commit held, and otherwise with
    /// `StorageIO` if the commit cannot be stored; it succeeds on every
    /// other input.
    pub fn add_commit(&mut self, commit: Commit) -> (r: Result<Digest, VcsError>)
        requires
            old(self).wf(),
        ensures
            final(self).wf(),
            match r {
                Ok(d) => {
                    &&& all_commits(old(self)@.objects, commit@.parents)
                    &&& can_store(old(self)@.objects, ObjectView::Commit(commit@))
                    &&& d@ == digest_of(ObjectView::Commit(commit@))
                    &&& final(self)@ == (RepositoryView {
                        objects: stored(old(self)@.objects, ObjectView::Commit(commit@)),
                        ..old(self)@
                    })
                },
                Err(e) => {
                    &&& final(self)@ == old(self)@
                    &&& if all_commits(old(self)@.objects, commit@.parents) {
                        e == VcsError::StorageIO && !can_store(
                            old(self)@.objects,
                            ObjectView::Commit(commit@),
                        )
                    } else {
                        e == VcsError::NotFound
                    }
                },
            },
    {
        let hashed = commit.digest();
        self.add_commit_hashed(commit, hashed)
    }

    /// Stores `commit` given the outcome of computing its digest. If a
    /// parent is not a commit held, nothing changes and the result is
    /// `NotFound`, whatever the outcome. Otherwise, with a digest the
    /// commit is stored under it, unless the digest is taken by another
    /// object: then nothing changes and the result is `StorageIO`. With an
    /// error nothing changes and the error is handed on.
    pub fn add_commit_hashed(&mut self, commit: Commit, hashed: Result<Digest, VcsError>) -> (r:
        Result<Digest, VcsError>)
        requires
            old(self).wf(),
            hashed matches Ok(d) ==> d@ == digest_of(ObjectView::Commit(commit@)),
        ensures
            final(self).wf(),
            if !all_commits(old(self)@.objects, commit@.parents) {
                r == Err::<Digest, VcsError>(VcsError::NotFound) && final(self)@ == old(self)@
            } else {
                match hashed {
                    Ok(d) => if clashes(old(self)@.objects, d@, ObjectView::Commit(commit@)) {
                        r == Err::<Digest, VcsError>(VcsError::StorageIO) && final(self)@ == old(
                            self,
                        )@
                    } else {
                        r == hashed && final(self)@ == (RepositoryView {
                            objects: old(self)@.objects.insert(d@, ObjectView::Commit(commit@)),
                            ..old(self)@
                        })
                    },
                    Err(_) => r == hashed && final(self)@ == old(self)@,
                }
            },
    {
        if !self.are_commits(&commit.parents) {
            return Err(VcsError::NotFound);
        }
        let ghost before = self.store;
        let ghost view = ObjectView::Commit(commit@);
        match self.store.put_hashed(Object::Commit(commit), hashed) {
            Ok(d) => {
                proof {
                    lemma_closed_after_put(&before, &self.store, d@, view);
                }
                Ok(d)
            },
            Err(e) => Err(e),
        }
    }

    /// Stores `commit` and moves the current position to it: the branch
    /// that `HEAD` names, or `HEAD` itself if it names none, then points at
    /// the new commit. Fails, changing nothing, as `add_commit` does.
    pub fn record(&mut self, commit: Commit) -> (r: Result<Digest, VcsError>)
        requires
            old(self).wf(),
        ensures
            final(self).wf(),
            match r {
                Ok(d) => {
                    &&& all_commits(old(self)@.objects, commit@.parents)
                    &&& can_store(old(self)@.objects, ObjectView::Commit(commit@))
                    &&& d@ == digest_of(ObjectView::Commit(commit@))
                    &&& final(self)@ == (RepositoryView {
                        objects: stored(old(self)@.objects, ObjectView::Commit(commit@)),
                        index: old(self)@.index,
                        refs: advanced(old(self)@.refs, d@),
                    })
                },
                Err(e) => {
                    &&& final(self)@ == old(self)@
                    &&& if all_commits(old(self)@.objects, commit@.parents) {
                        e == VcsError::StorageIO && !can_store(
                            old(self)@.objects,
                            ObjectView::Commit(commit@),
                        )
                    } else {
                        e == VcsError::NotFound
                    }
                },
            },
    {
        match self.add_commit(commit) {
            Ok(d) => {
                self.refs.advance(d);
                Ok(d)
            },
            Err(e) => Err(e),
        }
    }

    /// Snapshots the index into a tree and records a commit of that tree
    /// with the given parents, author, committer and message; the current
    /// position moves to the new commit. Fails with `NotFound`, changing
    /// nothing, if a parent is not a commit held. Fails with `StorageIO` if
    /// the tree or the commit cannot be stored; if it is the commit, the
    /// tree has been stored and nothing else has changed. It succeeds on
    /// every other input.
    pub fn commit(
        &mut self,
        parents: Vec<Digest>,
        author: Signature,
        committer: Signature,
        message: Vec<u8>,
    ) -> (r: Result<Digest, VcsError>)
        requires
            old(self).wf(),
        ensures
            final(self).wf(),
            match r {
                Ok(d) => commit_result(
                    old(self)@,
                    digest_views(parents@),
                    author@,
                    committer@,
                    message@,
                ) == Ok::<Seq<u8>, VcsError>(d@),
                Err(e) => commit_result(
                    old(self)@,
                    digest_views(parents@),
                    author@,
                    committer@,
                    message@,
                ) == Err::<Seq<u8>, VcsError>(e),
            },
            final(self)@ == committed(
                old(self)@,
                digest_views(parents@),
                author@,
                committer@,
                message@,
            ),
    {
        if !self.are_commits(&parents) {
            return Err(VcsError::NotFound);
        }
        let ghost objects = self@.objects;
        let tree = match self.write_tree() {
            Ok(tree) => tree,
            Err(e) => {
                return Err(e);
            },
        };
        proof {
            assert forall|k: int| 0 <= k < parents.len() implies is_commit(
                self@.objects,
                #[trigger] digest_views(parents@)[k],
            ) by {
                assert(is_commit(objects, digest_views(parents@)[k]));
            }
        }
        self.record(Commit { tree, parents, author, committer, message })
    }

    /// Commits the index at the current position: on top of the commit that
    /// `HEAD` leads to, or as a root commit if `HEAD` leads nowhere and is
    /// the only reference. Where `HEAD` leads nowhere and there are other
    /// references, it fails with the error of resolving `HEAD`, changing
    /// nothing. The signature stands for both author and committer. For the
    /// rest it fails and succeeds as `commit` does.
    pub fn commit_on_head(&mut self, signature: Signature, message: Vec<u8>) -> (r: Result<
        Digest,
        VcsError,
    >)
        requires
            old(self).wf(),
        ensures
            final(self).wf(),
            match head_parents(old(self)@.refs) {
                Err(e) => r == Err::<Digest, VcsError>(e) && final(self)@ == old(self)@,
                Ok(parents) => {
                    &&& match r {
                        Ok(d) => commit_result(
                            old(self)@,
                            parents,
                            signature@,
                            signature@,
                            message@,
                        ) == Ok::<Seq<u8>, VcsError>(d@),
                        Err(e) => commit_result(
                            old(self)@,
                            parents,
                            signature@,
                            signature@,
                            message@,
                        ) == Err::<Seq<u8>, VcsError>(e),
                    }
                    &&& final(self)@ == committed(
                        old(self)@,
                        parents,
                        signature@,
                        signature@,
                        message@,
                    )
                },
            },
    {
        let mut parents: Vec<Digest> = Vec::new();
        let mut name: Vec<u8> = Vec::new();
        name.push(72u8);
        name.push(69u8);
        name.push(65u8);
        name.push(68u8);
        assert(name@ =~= head_name());
        match self.refs.resolve(name.as_slice()) {
            Ok(d) => {
                parents.push(d);
                assert(digest_views(parents@) =~= seq![d@]);
            },
            Err(e) => {
                if !self.refs.only_head() {
                    return Err(e);
                }
                assert(digest_views(parents@) =~= Seq::<Seq<u8>>::empty());
            },
        }
        let author = signature.clone();
        self.commit(parents, author, signature, message)
    }

    /// The commit digest that the reference `name` leads to.
    pub fn resolve(&self, name: &[u8]) -> (r: Result<Digest, VcsError>)
        requires
            self.wf(),
        ensures
            match r {
                Ok(d) => resolve_spec(self@.refs, name@) == Ok::<Seq<u8>, VcsError>(d@),
                Err(e) => resolve_spec(self@.refs, name@) == Err::<Seq<u8>, VcsError>(e),
            },
    {
        self.refs.resolve(name)
    }

    /// Creates the branch `name` at `target`. Fails with `AlreadyExists`,
    /// changing nothing, if `name` is a reference already.
    pub fn create_branch(&mut self, name: Vec<u8>, target: Digest) -> (r: Result<(), VcsError>)
        requires
            old(self).wf(),
        ensures
            final(self).wf(),
            match r {
                Ok(_) => !old(self)@.refs.contains_key(name@) && final(self)@ == (RepositoryView {
                    refs: old(self)@.refs.insert(name@, ReferenceView::Direct(target@)),
                    ..old(self)@
                }),
                Err(e) => e == VcsError::AlreadyExists && old(self)@.refs.contains_key(name@)
                    && final(self)@ == old(self)@,
            },
    {
        self.refs.create_branch(name, target)
    }

    /// Deletes the branch `name`. Fails with `NotFound`, changing nothing,
    /// if there is no such branch; `HEAD` is no branch.
    pub fn delete_branch(&mut self, name: &[u8]) -> (r: Result<(), VcsError>)
        requires
            old(self).wf(),
        ensures
            final(self).wf(),
            match r {
                Ok(_) => name@ != head_name() && old(self)@.refs.contains_key(name@) && final(self)@ == (RepositoryView { refs: old(self)@.refs.remove(name@), ..old(self)@ }),
                Err(e) => e == VcsError::NotFound && (name@ == head_name() || !old(self)@.refs.contains_key(name@)) && final(self)@ == old(self)@,
            },
    {
        self.refs.delete_branch(name)
    }

    /// Makes `HEAD` hold `target`: the name of a branch, or a commit digest
    /// for a detached state.
    pub fn set_head(&mut self, target: Reference)
        requires
            old(self).wf(),
        ensures
            final(self).wf(),
            final(self)@ == (RepositoryView {
                refs: old(self)@.refs.insert(head_name(), target@),
                ..old(self)@
            }),
    {
        self.refs.set_head(target);
    }

    /// Makes the reference `name` point at `target`, creating it if need
    /// be.
    pub fn set_reference(&mut self, name: Vec<u8>, target: Digest)
        requires
            old(self).wf(),
        ensures
            final(self).wf(),
            final(self)@ == (RepositoryView {
                refs: old(self)@.refs.insert(name@, ReferenceView::Direct(target@)),
                ..old(self)@
            }),
    {
        self.refs.set(name, target);
    }

    /// Checks out `target`, a branch name or a commit digest: returns the
    /// files of the commit's tree for the working tree, stages the rows of
    /// that tree in place of what was staged, and makes `HEAD` hold
    /// `target`. Fails, changing nothing, as `checkout_rows` says.
    pub fn checkout(&mut self, target: Reference) -> (r: Result<Vec<WorkFile>, VcsError>)
        requires
            old(self).wf(),
        ensures
            final(self).wf(),
            match r {
                Ok(files) => {
                    &&& checkout_rows(old(self)@, target@) matches Ok(rows)
                    &&& file_views(files@) == files_of(old(self)@.objects, rows)
                    &&& final(self)@ == (RepositoryView {
                        objects: old(self)@.objects,
                        index: staged_all(Seq::<TreeEntryView>::empty(), rows),
                        refs: old(self)@.refs.insert(head_name(), target@),
                    })
                },
                Err(e) => checkout_rows(old(self)@, target@) == Err::<Seq<TreeEntryView>, VcsError>(
                    e,
                ) && final(self)@ == old(self)@,
            },
    {
        let id = match &target {
            Reference::Direct(d) => *d,
            Reference::Symbolic(name) => match self.refs.lookup(name.as_slice()) {
                None => {
                    return Err(VcsError::NotFound);
                },
                Some(Reference::Direct(d)) => d,
                Some(Reference::Symbolic(_)) => {
                    return Err(VcsError::DanglingReference);
                },
            },
        };
        let tree_id = match self.store.get(&id) {
            Ok(Object::Commit(c)) => c.tree,
            _ => {
                return Err(VcsError::NotFound);
            },
        };
        let tree = match self.store.get(&tree_id) {
            Ok(Object::Tree(tree)) => tree,
            _ => {
                return Err(VcsError::NotFound);
            },
        };
        let ghost rows = tree@;
        let mut files: Vec<WorkFile> = Vec::new();
        let mut i: usize = 0;
        while i < tree.entries.len()
            invariant
                0 <= i <= tree.entries.len(),
                self.wf(),
                rows == tree@,
                rows.len() == tree.entries.len(),
                files.len() == i,
                checkout_rows(self@, target@) == if all_blobs(self.store@, rows) {
                    Ok::<Seq<TreeEntryView>, VcsError>(rows)
                } else {
                    Err::<Seq<TreeEntryView>, VcsError>(VcsError::NotFound)
                },
                forall|k: int| 0 <= k < i ==> is_blob(self.store@, (#[trigger] rows[k]).blob),
                forall|k: int|
                    0 <= k < i ==> (#[trigger] files[k])@ == files_of(self.store@, rows)[k],
            decreases tree.entries.len() - i,
        {
            let row = &tree.entries[i];
            assert(rows[i as int] == row@);
            match self.store.get(&row.blob) {
                Ok(Object::Blob(content)) => {
                    files.push(
                        WorkFile {
                            path: bytes_copy(row.path.as_slice()),
                            content: bytes_copy(content.as_slice()),
                        },
                    );
                },
                _ => {
                    assert(!is_blob(self.store@, rows[i as int].blob));
                    return Err(VcsError::NotFound);
                },
            }
            i += 1;
        }
        assert(file_views(files@) =~= files_of(self.store@, rows));
        self.index.load(tree);
        self.refs.set_head(target);
        Ok(files)
    }
}

} // verus!
