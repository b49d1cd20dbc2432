//! The object store: write-once, content-addressed storage of blobs, trees
//! and commits.

use crate::digest::Digest;
use crate::encode::{digest_of, hashable};
use crate::error::VcsError;
use crate::object::{Object, ObjectView};
use vstd::prelude::*;

verus! {

/// The digest `id` is taken by an object other than `object`.
pub open spec fn clashes(m: Map<Seq<u8>, ObjectView>, id: Seq<u8>, object: ObjectView) -> bool {
    m.contains_key(id) && m[id] != object
}

/// The object can be stored: it has a digest, and no other object has
/// taken it.
pub open spec fn can_store(m: Map<Seq<u8>, ObjectView>, object: ObjectView) -> bool {
    hashable(object) && !clashes(m, digest_of(object), object)
}

/// The content `m` with `object` stored under its own digest.
pub open spec fn stored(m: Map<Seq<u8>, ObjectView>, object: ObjectView) -> Map<
    Seq<u8>,
    ObjectView,
> {
    m.insert(digest_of(object), object)
}

/// Storing the same object a second time changes nothing: it gets the same
/// digest, and the content, and with it the number of objects held, is
/// what it was after the first time.
pub proof fn lemma_put_twice(m: Map<Seq<u8>, ObjectView>, object: ObjectView)
    ensures
        stored(stored(m, object), object) == stored(m, object),
        !clashes(stored(m, object), digest_of(object), object),
        can_store(stored(m, object), object) == hashable(object),
        stored(m, object).contains_key(digest_of(object)),
        stored(m, object)[digest_of(object)] == object,
        m.dom().finite() ==> stored(stored(m, object), object).dom().len() == stored(
            m,
            object,
        ).dom().len(),
{
    assert(stored(stored(m, object), object) =~= stored(m, object));
}

/// Storing never removes or alters an object: where the new object's
/// digest is not taken by another, everything held before is held
/// unchanged afterwards.
pub proof fn lemma_put_keeps(
    m: Map<Seq<u8>, ObjectView>,
    id: Seq<u8>,
    object: ObjectView,
    other: Seq<u8>,
)
    requires
        m.contains_key(other),
        !clashes(m, id, object),
    ensures
        m.insert(id, object).contains_key(other),
        m.insert(id, object)[other] == m[other],
{
}

struct StoredObject {
    id: Digest,
    object: Object,
}

/// Objects, each under its digest, in the order they came.
pub struct ObjectStore {
    entries: Vec<StoredObject>,
}

impl View for ObjectStore {
    type V = Map<Seq<u8>, ObjectView>;

    /// The content: which object stands under which digest.
    closed spec fn view(&self) -> Map<Seq<u8>, ObjectView> {
        Map::new(
            |id: Seq<u8>| self.ids().contains(id),
            |id: Seq<u8>| self.entries[self.ids().index_of(id)].object@,
        )
    }
}

impl ObjectStore {
    /// The digests held, in the order their objects were stored.
    pub closed spec fn ids(&self) -> Seq<Seq<u8>> {
        Seq::new(self.entries.len() as nat, |i: int| self.entries[i].id@)
    }

    /// No digest is held twice, and every object stands under its own
    /// digest.
    pub closed spec fn wf(&self) -> bool {
        &&& self.ids().no_duplicates()
        &&& forall|i: int|
            0 <= i < self.entries.len() ==> digest_of(#[trigger] self.entries[i].object@)
                == self.entries[i].id@
    }

    proof fn lemma_entry(&self, i: int)
        requires
            self.ids().no_duplicates(),
            0 <= i < self.entries.len(),
        ensures
            self.ids()[i] == self.entries[i].id@,
            self@.contains_key(self.entries[i].id@),
            self@[self.entries[i].id@] == self.entries[i].object@,
    {
        let id = self.entries[i].id@;
        assert(self.ids()[i] == id);
        let j = self.ids().index_of(id);
        assert(0 <= j < self.ids().len() && self.ids()[j] == id);
    }

    /// What a well-formed store guarantees of its content.
    pub proof fn lemma_wf(&self)
        requires
            self.wf(),
        ensures
            self.ids().no_duplicates(),
            self@.dom().finite(),
            self@.dom().len() == self.ids().len(),
            forall|id: Seq<u8>| self@.contains_key(id) <==> self.ids().contains(id),
            forall|id: Seq<u8>| #[trigger]
                self@.contains_key(id) ==> digest_of(self@[id]) == id,
    {
        assert(self@.dom() =~= self.ids().to_set());
        self.ids().unique_seq_to_set();
        assert forall|id: Seq<u8>| #[trigger] self@.contains_key(id) implies digest_of(self@[id])
            == id by {
            let i = self.ids().index_of(id);
            self.lemma_entry(i);
        }
    }

    /// An empty store.
    pub fn new() -> (s: ObjectStore)
        ensures
            s.wf(),
            s@ == Map::<Seq<u8>, ObjectView>::empty(),
            s.ids() == Seq::<Seq<u8>>::empty(),
    {
        let s = ObjectStore { entries: Vec::new() };
        assert(s@ =~= Map::<Seq<u8>, ObjectView>::empty());
        assert(s.ids() =~= Seq::<Seq<u8>>::empty());
        s
    }

    /// The number of objects held.
    pub fn len(&self) -> (n: usize)
        requires
            self.wf(),
        ensures
            n == self@.dom().len(),
            n == self.ids().len(),
    {
        proof {
            self.lemma_wf();
        }
        self.entries.len()
    }

    /// Where the object under `id` stands, if it is held.
    pub(crate) fn find(&self, id: &Digest) -> (r: Option<usize>)
        ensures
            match r {
                Some(i) => i < self.ids().len() && self.ids()[i as int] == id@,
                None => !self.ids().contains(id@),
            },
    {
        let mut i: usize = 0;
        while i < self.entries.len()
            invariant
                0 <= i <= self.entries.len(),
                forall|k: int| 0 <= k < i ==> self.ids()[k] != id@,
            decreases self.entries.len() - i,
        {
            if self.entries[i].id.equals(id) {
                return Some(i);
            }
            i += 1;
        }
        None
    }

    /// The object at a position.
    pub(crate) fn object_at(&self, i: usize) -> (r: &Object)
        requires
            self.wf(),
            i < self.ids().len(),
        ensures
            self@.contains_key(self.ids()[i as int]),
            r@ == self@[self.ids()[i as int]],
    {
        proof {
            self.lemma_entry(i as int);
        }
        &self.entries[i].object
    }

    /// Whether an object stands under `id`.
    pub fn contains(&self, id: &Digest) -> (r: bool)
        requires
            self.wf(),
        ensures
            r == self@.contains_key(id@),
    {
        self.find(id).is_some()
    }

    /// The object under `id`; `NotFound` if there is none.
    pub fn get(&self, id: &Digest) -> (r: Result<&Object, VcsError>)
        requires
            self.wf(),
        ensures
            match r {
                Ok(object) => self@.contains_key(id@) && object@ == self@[id@] && digest_of(
                    object@,
                ) == id@,
                Err(e) => e == VcsError::NotFound && !self@.contains_key(id@),
            },
    {
        proof {
            self.lemma_wf();
        }
        match self.find(id) {
            Some(i) => Ok(self.object_at(i)),
            None => Err(VcsError::NotFound),
        }
    }

    /// Stores `object` under its digest and returns the digest. Storing an
    /// object that is held already changes nothing. Fails, leaving the
    /// store as it was, with `StorageIO` if the object has no digest or its
    /// digest is taken by another object, and only then.
    pub fn put(&mut self, object: Object) -> (r: Result<Digest, VcsError>)
        requires
            old(self).wf(),
        ensures
            final(self).wf(),
            match r {
                Ok(id) => {
                    &&& can_store(old(self)@, object@)
                    &&& id@ == digest_of(object@)
                    &&& final(self)@ == stored(old(self)@, object@)
                    &&& final(self).ids() == if old(self)@.contains_key(id@) {
                        old(self).ids()
                    } else {
                        old(self).ids().push(id@)
                    }
                },
                Err(e) => {
                    &&& e == VcsError::StorageIO
                    &&& !can_store(old(self)@, object@)
                    &&& *final(self) == *old(self)
                },
            },
    {
        let hashed = object.digest();
        self.put_hashed(object, hashed)
    }

    /// Stores `object` given the outcome of computing its digest. With a
    /// digest, the object is stored under it; if the digest is taken, then
    /// by the same object and nothing changes, or by another and the
    /// result is `StorageIO`. With an error, nothing changes and the error
    /// is handed on.
    pub fn put_hashed(&mut self, object: Object, hashed: Result<Digest, VcsError>) -> (r: Result<
        Digest,
        VcsError,
    >)
        requires
            old(self).wf(),
            hashed matches Ok(id) ==> id@ == digest_of(object@),
        ensures
            final(self).wf(),
            match hashed {
                Ok(id) => if clashes(old(self)@, id@, object@) {
                    r == Err::<Digest, VcsError>(VcsError::StorageIO) && *final(self) == *old(self)
                } else {
                    &&& r == hashed
                    &&& final(self)@ == old(self)@.insert(id@, object@)
                    &&& final(self).ids() == if old(self)@.contains_key(id@) {
                        old(self).ids()
                    } else {
                        old(self).ids().push(id@)
                    }
                },
                Err(_) => r == hashed && *final(self) == *old(self),
            },
    {
        let id = match hashed {
            Ok(id) => id,
            Err(e) => {
                return Err(e);
            },
        };
        proof {
            self.lemma_wf();
        }
        match self.find(&id) {
            Some(i) => {
                if self.object_at(i).equals(&object) {
                    assert(self@ =~= self@.insert(id@, object@));
                    Ok(id)
                } else {
                    Err(VcsError::StorageIO)
                }
            },
            None => {
                let ghost before = *self;
                self.entries.push(StoredObject { id, object });
                proof {
                    assert(self.ids() =~= before.ids().push(id@));
                    assert(self.ids().no_duplicates());
                    assert forall|k: Seq<u8>| #[trigger]
                        before@.contains_key(k) implies self@.contains_key(k) && self@[k]
                        == before@[k] by {
                        let i = before.ids().index_of(k);
                        assert(self.ids()[i] == k);
                        self.lemma_entry(i);
                    }
                    self.lemma_entry(self.entries.len() - 1);
                    assert(self@ =~= before@.insert(id@, object@));
                }
                Ok(id)
            },
        }
    }
}

} // verus!
