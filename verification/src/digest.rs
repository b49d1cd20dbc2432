//! Digests: the fixed-size identifiers that objects are stored under.

use crate::error::VcsError;
use vstd::prelude::*;

verus! {

/// The kinds of object that a digest can be computed for.
#[derive(Clone, Copy, Debug, PartialEq, Eq, Structural)]
pub enum ObjectKind {
    Blob,
    Tree,
    Commit,
}

/// The identifier of an object: twenty bytes derived from its kind and its
/// serialized content.
#[derive(Clone, Copy, Debug, PartialEq, Eq, Hash)]
pub struct Digest {
    pub bytes: [u8; 20],
}

impl View for Digest {
    type V = Seq<u8>;

    open spec fn view(&self) -> Seq<u8> {
        self.bytes@
    }
}

/// `git2::Error`, the error of the hashing below. Nothing is known of what
/// a value of it holds; it is only handed on.
#[verifier::external_type_specification]
#[verifier::external_body]
pub struct ExGitError(git2::Error);

/// What `git2::Oid::hash_object` makes of an object of the given kind with
/// the given content: the identifier it computes (SHA-1 over git's object
/// header and the content), or nothing where it reports a failure, as it
/// does for content in which it detects a collision attack.
pub uninterp spec fn object_id(kind: ObjectKind, content: Seq<u8>) -> Option<Seq<u8>>;

/// Calls `git2::Oid::hash_object`. Whether the call succeeds, and the
/// twenty bytes of the identifier it then computes, depend on the kind and
/// the content alone: the outcome is `object_id` of them.
#[verifier::external_body]
fn hash_object(kind: ObjectKind, content: &[u8]) -> (r: Result<Digest, git2::Error>)
    ensures
        match r {
            Ok(d) => object_id(kind, content@) == Some(d@),
            Err(_) => object_id(kind, content@).is_none(),
        },
{
    let kind = match kind {
        ObjectKind::Blob => git2::ObjectType::Blob,
        ObjectKind::Tree => git2::ObjectType::Tree,
        ObjectKind::Commit => git2::ObjectType::Commit,
    };
    let oid = git2::Oid::hash_object(kind, content)?;
    let mut bytes = [0u8; 20];
    bytes.copy_from_slice(oid.as_bytes());
    Ok(Digest { bytes })
}

impl Digest {
    /// The digest made of the given twenty bytes.
    pub fn from_bytes(bytes: [u8; 20]) -> (d: Digest)
        ensures
            d@ == bytes@,
    {
        Digest { bytes }
    }

    /// Computes the digest of an object of the given kind from its
    /// serialized content. Fails with `StorageIO` where the hashing below
    /// gives none.
    pub fn compute(kind: ObjectKind, content: &[u8]) -> (r: Result<Digest, VcsError>)
        ensures
            match r {
                Ok(d) => object_id(kind, content@) == Some(d@),
                Err(e) => e == VcsError::StorageIO && object_id(kind, content@).is_none(),
            },
    {
        Self::from_hashed(hash_object(kind, content))
    }

    /// Turns the outcome of the hashing into the library's own result: the
    /// digest where there is one, `StorageIO` otherwise.
    pub fn from_hashed(hashed: Result<Digest, git2::Error>) -> (r: Result<Digest, VcsError>)
        ensures
            match hashed {
                Ok(d) => r == Ok::<Digest, VcsError>(d),
                Err(_) => r == Err::<Digest, VcsError>(VcsError::StorageIO),
            },
    {
        match hashed {
            Ok(d) => Ok(d),
            Err(_) => Err(VcsError::StorageIO),
        }
    }

    /// Whether two digests hold the same bytes.
    pub fn equals(&self, other: &Digest) -> (r: bool)
        ensures
            r == (self@ == other@),
    {
        let mut i: usize = 0;
        while i < 20
            invariant
                0 <= i <= 20,
                forall|k: int| 0 <= k < i ==> self.bytes@[k] == other.bytes@[k],
            decreases 20 - i,
        {
            if self.bytes[i] != other.bytes[i] {
                return false;
            }
            i += 1;
        }
        assert(self@ =~= other@);
        true
    }

    /// The bytes of the digest, as a fresh vector.
    pub fn to_vec(&self) -> (v: Vec<u8>)
        ensures
            v@ == self@,
    {
        let mut v: Vec<u8> = Vec::new();
        let mut i: usize = 0;
        while i < 20
            invariant
                0 <= i <= 20,
                v@ == self@.subrange(0, i as int),
            decreases 20 - i,
        {
            v.push(self.bytes[i]);
            assert(self@.subrange(0, i as int).push(self@[i as int]) =~= self@.subrange(
                0,
                i + 1,
            ));
            i += 1;
        }
        assert(self@.subrange(0, 20) =~= self@);
        v
    }
}

} // verus!
