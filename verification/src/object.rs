//! The objects that the store holds (blobs, trees and commits), their
//! mathematical views and their canonical serialized form.

use crate::bytes::{bytes_copy, bytes_eq};
use crate::digest::Digest;
use vstd::prelude::*;

verus! {

/// Who made a change, and when (seconds since the epoch).
#[derive(Debug, PartialEq, Eq)]
pub struct Signature {
    pub name: Vec<u8>,
    pub email: Vec<u8>,
    pub when: i64,
}

pub struct SignatureView {
    pub name: Seq<u8>,
    pub email: Seq<u8>,
    pub when: int,
}

impl View for Signature {
    type V = SignatureView;

    open spec fn view(&self) -> SignatureView {
        SignatureView { name: self.name@, email: self.email@, when: self.when as int }
    }
}

impl Clone for Signature {
    fn clone(&self) -> (r: Signature)
        ensures
            r@ == self@,
    {
        Signature {
            name: bytes_copy(self.name.as_slice()),
            email: bytes_copy(self.email.as_slice()),
            when: self.when,
        }
    }
}

/// One row of a tree: a path and the digest of the blob found there.
#[derive(Debug, PartialEq, Eq)]
pub struct TreeEntry {
    pub path: Vec<u8>,
    pub blob: Digest,
}

pub struct TreeEntryView {
    pub path: Seq<u8>,
    pub blob: Seq<u8>,
}

impl View for TreeEntry {
    type V = TreeEntryView;

    open spec fn view(&self) -> TreeEntryView {
        TreeEntryView { path: self.path@, blob: self.blob@ }
    }
}

impl Clone for TreeEntry {
    fn clone(&self) -> (r: TreeEntry)
        ensures
            r@ == self@,
    {
        TreeEntry { path: bytes_copy(self.path.as_slice()), blob: self.blob }
    }
}

/// A snapshot of a directory: its rows, in the order they are serialized.
#[derive(Debug, PartialEq, Eq)]
pub struct Tree {
    pub entries: Vec<TreeEntry>,
}

/// The views of a sequence of tree rows.
pub open spec fn entry_views(entries: Seq<TreeEntry>) -> Seq<TreeEntryView> {
    Seq::new(entries.len(), |i: int| entries[i]@)
}

/// The views of a sequence of digests.
pub open spec fn digest_views(digests: Seq<Digest>) -> Seq<Seq<u8>> {
    Seq::new(digests.len(), |i: int| digests[i]@)
}

impl View for Tree {
    type V = Seq<TreeEntryView>;

    open spec fn view(&self) -> Seq<TreeEntryView> {
        entry_views(self.entries@)
    }
}

impl Clone for Tree {
    fn clone(&self) -> (r: Tree)
        ensures
            r@ == self@,
    {
        let mut entries: Vec<TreeEntry> = Vec::new();
        let mut i: usize = 0;
        while i < self.entries.len()
            invariant
                0 <= i <= self.entries.len(),
                entries.len() == i,
                forall|k: int| 0 <= k < i ==> entries[k]@ == self.entries[k]@,
            decreases self.entries.len() - i,
        {
            entries.push(self.entries[i].clone());
            i += 1;
        }
        let r = Tree { entries };
        assert(r@ =~= self@);
        r
    }
}

/// A node of the history: a tree, the commits it follows, who wrote and
/// who recorded it, and a message. Its timestamp is the committer's.
#[derive(Debug, PartialEq, Eq)]
pub struct Commit {
    pub tree: Digest,
    pub parents: Vec<Digest>,
    pub author: Signature,
    pub committer: Signature,
    pub message: Vec<u8>,
}

pub struct CommitView {
    pub tree: Seq<u8>,
    pub parents: Seq<Seq<u8>>,
    pub author: SignatureView,
    pub committer: SignatureView,
    pub message: Seq<u8>,
}

impl CommitView {
    /// When the commit was recorded.
    pub open spec fn timestamp(self) -> int {
        self.committer.when
    }
}

impl View for Commit {
    type V = CommitView;

    open spec fn view(&self) -> CommitView {
        CommitView {
            tree: self.tree@,
            parents: digest_views(self.parents@),
            author: self.author@,
            committer: self.committer@,
            message: self.message@,
        }
    }
}

/// A fresh copy of a list of digests.
pub fn digests_copy(digests: &Vec<Digest>) -> (r: Vec<Digest>)
    ensures
        r@ == digests@,
{
    let mut r: Vec<Digest> = Vec::new();
    let mut i: usize = 0;
    while i < digests.len()
        invariant
            0 <= i <= digests.len(),
            r@ == digests@.subrange(0, i as int),
        decreases digests.len() - i,
    {
        r.push(digests[i]);
        assert(digests@.subrange(0, i as int).push(digests@[i as int]) =~= digests@.subrange(
            0,
            i + 1,
        ));
        i += 1;
    }
    assert(digests@.subrange(0, digests@.len() as int) =~= digests@);
    r
}

impl Clone for Commit {
    fn clone(&self) -> (r: Commit)
        ensures
            r@ == self@,
    {
        Commit {
            tree: self.tree,
            parents: digests_copy(&self.parents),
            author: self.author.clone(),
            committer: self.committer.clone(),
            message: bytes_copy(self.message.as_slice()),
        }
    }
}

impl Commit {
    /// When the commit was recorded.
    pub fn timestamp(&self) -> (t: i64)
        ensures
            t == self@.timestamp(),
    {
        self.committer.when
    }
}

/// Anything the store can hold.
#[derive(Debug, PartialEq, Eq)]
pub enum Object {
    Blob(Vec<u8>),
    Tree(Tree),
    Commit(Commit),
}

pub enum ObjectView {
    Blob(Seq<u8>),
    Tree(Seq<TreeEntryView>),
    Commit(CommitView),
}

impl View for Object {
    type V = ObjectView;

    open spec fn view(&self) -> ObjectView {
        match self {
            Object::Blob(content) => ObjectView::Blob(content@),
            Object::Tree(tree) => ObjectView::Tree(tree@),
            Object::Commit(commit) => ObjectView::Commit(commit@),
        }
    }
}

impl Clone for Object {
    fn clone(&self) -> (r: Object)
        ensures
            r@ == self@,
    {
        match self {
            Object::Blob(content) => Object::Blob(bytes_copy(content.as_slice())),
            Object::Tree(tree) => Object::Tree(tree.clone()),
            Object::Commit(commit) => Object::Commit(commit.clone()),
        }
    }
}

/// Whether two lists of digests hold the same digests in the same order.
pub fn digests_eq(a: &Vec<Digest>, b: &Vec<Digest>) -> (r: bool)
    ensures
        r == (digest_views(a@) == digest_views(b@)),
{
    if a.len() != b.len() {
        assert(digest_views(a@).len() != digest_views(b@).len());
        return false;
    }
    let mut i: usize = 0;
    while i < a.len()
        invariant
            0 <= i <= a.len(),
            a.len() == b.len(),
            forall|k: int| 0 <= k < i ==> a[k]@ == b[k]@,
        decreases a.len() - i,
    {
        if !a[i].equals(&b[i]) {
            assert(digest_views(a@)[i as int] != digest_views(b@)[i as int]);
            return false;
        }
        i += 1;
    }
    assert(digest_views(a@) =~= digest_views(b@));
    true
}

impl Signature {
    /// Whether two signatures are the same.
    pub fn equals(&self, other: &Signature) -> (r: bool)
        ensures
            r == (self@ == other@),
    {
        bytes_eq(self.name.as_slice(), other.name.as_slice()) && bytes_eq(
            self.email.as_slice(),
            other.email.as_slice(),
        ) && self.when == other.when
    }
}

impl TreeEntry {
    /// Whether two rows are the same.
    pub fn equals(&self, other: &TreeEntry) -> (r: bool)
        ensures
            r == (self@ == other@),
    {
        bytes_eq(self.path.as_slice(), other.path.as_slice()) && self.blob.equals(&other.blob)
    }
}

impl Tree {
    /// Whether two trees hold the same rows in the same order.
    pub fn equals(&self, other: &Tree) -> (r: bool)
        ensures
            r == (self@ == other@),
    {
        if self.entries.len() != other.entries.len() {
            assert(self@.len() != other@.len());
            return false;
        }
        let mut i: usize = 0;
        while i < self.entries.len()
            invariant
                0 <= i <= self.entries.len(),
                self.entries.len() == other.entries.len(),
                forall|k: int| 0 <= k < i ==> self.entries[k]@ == other.entries[k]@,
            decreases self.entries.len() - i,
        {
            if !self.entries[i].equals(&other.entries[i]) {
                assert(self@[i as int] != other@[i as int]);
                return false;
            }
            i += 1;
        }
        assert(self@ =~= other@);
        true
    }
}

impl Commit {
    /// Whether two commits agree on every field.
    pub fn equals(&self, other: &Commit) -> (r: bool)
        ensures
            r == (self@ == other@),
    {
        self.tree.equals(&other.tree) && digests_eq(&self.parents, &other.parents)
            && self.author.equals(&other.author) && self.committer.equals(&other.committer)
            && bytes_eq(self.message.as_slice(), other.message.as_slice())
    }
}

impl Object {
    /// Whether two objects are the same: of one kind, with the same content.
    pub fn equals(&self, other: &Object) -> (r: bool)
        ensures
            r == (self@ == other@),
    {
        match (self, other) {
            (Object::Blob(a), Object::Blob(b)) => bytes_eq(a.as_slice(), b.as_slice()),
            (Object::Tree(a), Object::Tree(b)) => a.equals(b),
            (Object::Commit(a), Object::Commit(b)) => a.equals(b),
            _ => false,
        }
    }
}

} // verus!
