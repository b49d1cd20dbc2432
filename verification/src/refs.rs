//! The reference store: named pointers to commits. `HEAD` is always there
//! and may name a branch instead of a commit; every other reference is a
//! branch and points at a commit directly.

use crate::bytes::{bytes_copy, bytes_eq};
use crate::digest::Digest;
use crate::error::VcsError;
use vstd::prelude::*;

verus! {

/// What a reference holds: a commit digest, or the name of a reference.
#[derive(Debug, PartialEq, Eq)]
pub enum Reference {
    Direct(Digest),
    Symbolic(Vec<u8>),
}

pub enum ReferenceView {
    Direct(Seq<u8>),
    Symbolic(Seq<u8>),
}

impl View for Reference {
    type V = ReferenceView;

    open spec fn view(&self) -> ReferenceView {
        match self {
            Reference::Direct(d) => ReferenceView::Direct(d@),
            Reference::Symbolic(n) => ReferenceView::Symbolic(n@),
        }
    }
}

impl Clone for Reference {
    fn clone(&self) -> (r: Reference)
        ensures
            r@ == self@,
    {
        match self {
            Reference::Direct(d) => Reference::Direct(*d),
            Reference::Symbolic(n) => Reference::Symbolic(bytes_copy(n.as_slice())),
        }
    }
}

/// The name `HEAD`.
pub open spec fn head_name() -> Seq<u8> {
    seq![72u8, 69u8, 65u8, 68u8]
}

/// The name `master`, of the branch that `HEAD` names at first.
pub open spec fn default_branch() -> Seq<u8> {
    seq![109u8, 97u8, 115u8, 116u8, 101u8, 114u8]
}

/// The digest that `name` leads to: its own if the reference is direct,
/// that of the reference it names if it is symbolic. A name that is no
/// reference gives `NotFound`; a symbolic reference whose target is no
/// reference, or is not direct, gives `DanglingReference`.
pub open spec fn resolve_spec(refs: Map<Seq<u8>, ReferenceView>, name: Seq<u8>) -> Result<
    Seq<u8>,
    VcsError,
> {
    if !refs.contains_key(name) {
        Err(VcsError::NotFound)
    } else {
        match refs[name] {
            ReferenceView::Direct(d) => Ok(d),
            ReferenceView::Symbolic(target) => if refs.contains_key(target) {
                match refs[target] {
                    ReferenceView::Direct(d) => Ok(d),
                    ReferenceView::Symbolic(_) => Err(VcsError::DanglingReference),
                }
            } else {
                Err(VcsError::DanglingReference)
            },
        }
    }
}

/// The references after the current position moved to `target`: the branch
/// that `HEAD` names points there, or `HEAD` itself if it names none.
pub open spec fn advanced(refs: Map<Seq<u8>, ReferenceView>, target: Seq<u8>) -> Map<
    Seq<u8>,
    ReferenceView,
> {
    match refs[head_name()] {
        ReferenceView::Symbolic(branch) => refs.insert(branch, ReferenceView::Direct(target)),
        ReferenceView::Direct(_) => refs.insert(head_name(), ReferenceView::Direct(target)),
    }
}

/// `HEAD` is a reference, and it alone may be symbolic.
pub open spec fn refs_valid(refs: Map<Seq<u8>, ReferenceView>) -> bool {
    &&& refs.contains_key(head_name())
    &&& forall|name: Seq<u8>|
        name != head_name() && #[trigger] refs.contains_key(name) ==> refs[name] is Direct
}

/// `HEAD` is the only reference: the repository has no branch yet.
pub open spec fn only_head(refs: Map<Seq<u8>, ReferenceView>) -> bool {
    forall|name: Seq<u8>| #[trigger] refs.contains_key(name) ==> name == head_name()
}

/// A symbolic `HEAD` that names a branch at commit `x` resolves to `x`, and
/// no longer resolves once that branch is deleted.
pub proof fn lemma_resolve_through_head(
    refs: Map<Seq<u8>, ReferenceView>,
    branch: Seq<u8>,
    x: Seq<u8>,
)
    requires
        refs.contains_key(head_name()),
        refs[head_name()] == ReferenceView::Symbolic(branch),
        refs.contains_key(branch),
        refs[branch] == ReferenceView::Direct(x),
    ensures
        resolve_spec(refs, head_name()) == Ok::<Seq<u8>, VcsError>(x),
        branch != head_name(),
        resolve_spec(refs.remove(branch), head_name()) == Err::<Seq<u8>, VcsError>(
            VcsError::DanglingReference,
        ),
{
}

struct Branch {
    name: Vec<u8>,
    target: Digest,
}

/// The references of one repository.
pub struct ReferenceStore {
    head: Reference,
    branches: Vec<Branch>,
}

/// Whether `name` is `HEAD`.
pub fn is_head(name: &[u8]) -> (r: bool)
    ensures
        r == (name@ == head_name()),
{
    let r = name.len() == 4 && name[0] == 72u8 && name[1] == 69u8 && name[2] == 65u8 && name[3]
        == 68u8;
    if r {
        assert(name@ =~= head_name());
    }
    r
}

impl View for ReferenceStore {
    type V = Map<Seq<u8>, ReferenceView>;

    /// What each name holds.
    closed spec fn view(&self) -> Map<Seq<u8>, ReferenceView> {
        Map::new(
            |name: Seq<u8>| name == head_name() || self.names().contains(name),
            |name: Seq<u8>|
                if name == head_name() {
                    self.head@
                } else {
                    ReferenceView::Direct(self.branches[self.names().index_of(name)].target@)
                },
        )
    }
}

impl ReferenceStore {
    closed spec fn names(&self) -> Seq<Seq<u8>> {
        Seq::new(self.branches.len() as nat, |i: int| self.branches[i].name@)
    }

    /// No branch is held twice, and none is called `HEAD`.
    pub closed spec fn wf(&self) -> bool {
        &&& self.names().no_duplicates()
        &&& !self.names().contains(head_name())
    }

    /// What a well-formed reference store guarantees.
    pub proof fn lemma_wf(&self)
        requires
            self.wf(),
        ensures
            refs_valid(self@),
    {
    }

    proof fn lemma_branch(&self, i: int)
        requires
            self.wf(),
            0 <= i < self.branches.len(),
        ensures
            self.names()[i] == self.branches[i].name@,
            self.branches[i].name@ != head_name(),
            self@.contains_key(self.branches[i].name@),
            self@[self.branches[i].name@] == ReferenceView::Direct(self.branches[i].target@),
    {
        let name = self.branches[i].name@;
        assert(self.names()[i] == name);
        let j = self.names().index_of(name);
        assert(0 <= j < self.names().len() && self.names()[j] == name);
    }

    /// The references of a new repository: `HEAD` names the branch
    /// `master`, which does not exist yet.
    pub fn new() -> (r: ReferenceStore)
        ensures
            r.wf(),
            r@ == Map::<Seq<u8>, ReferenceView>::empty().insert(
                head_name(),
                ReferenceView::Symbolic(default_branch()),
            ),
    {
        let mut name: Vec<u8> = Vec::new();
        name.push(109u8);
        name.push(97u8);
        name.push(115u8);
        name.push(116u8);
        name.push(101u8);
        name.push(114u8);
        assert(name@ =~= default_branch());
        let r = ReferenceStore { head: Reference::Symbolic(name), branches: Vec::new() };
        assert(r@ =~= Map::<Seq<u8>, ReferenceView>::empty().insert(
            head_name(),
            ReferenceView::Symbolic(default_branch()),
        ));
        r
    }

    fn find(&self, name: &[u8]) -> (r: Option<usize>)
        ensures
            match r {
                Some(i) => i < self.branches.len() && self.names()[i as int] == name@,
                None => !self.names().contains(name@),
            },
    {
        let mut i: usize = 0;
        while i < self.branches.len()
            invariant
                0 <= i <= self.branches.len(),
                forall|k: int| 0 <= k < i ==> self.names()[k] != name@,
            decreases self.branches.len() - i,
        {
            if bytes_eq(self.branches[i].name.as_slice(), name) {
                return Some(i);
            }
            i += 1;
        }
        None
    }

    /// Whether `HEAD` is the only reference.
    pub fn only_head(&self) -> (r: bool)
        requires
            self.wf(),
        ensures
            r == only_head(self@),
    {
        if self.branches.len() > 0 {
            proof {
                self.lemma_branch(0);
            }
            false
        } else {
            assert forall|name: Seq<u8>| #[trigger] self@.contains_key(name) implies name
                == head_name() by {
                if name != head_name() {
                    let i = self.names().index_of(name);
                    assert(0 <= i < self.names().len());
                }
            }
            true
        }
    }

    /// What `HEAD` holds.
    pub fn head(&self) -> (r: &Reference)
        ensures
            self@.contains_key(head_name()),
            r@ == self@[head_name()],
    {
        &self.head
    }

    /// What the reference `name` holds, if there is such a reference.
    pub fn lookup(&self, name: &[u8]) -> (r: Option<Reference>)
        requires
            self.wf(),
        ensures
            match r {
                Some(reference) => self@.contains_key(name@) && reference@ == self@[name@],
                None => !self@.contains_key(name@),
            },
    {
        if is_head(name) {
            return Some(self.head.clone());
        }
        match self.find(name) {
            Some(i) => {
                proof {
                    self.lemma_branch(i as int);
                }
                Some(Reference::Direct(self.branches[i].target))
            },
            None => None,
        }
    }

    /// The commit digest that `name` leads to.
    pub fn resolve(&self, name: &[u8]) -> (r: Result<Digest, VcsError>)
        requires
            self.wf(),
        ensures
            match r {
                Ok(d) => resolve_spec(self@, name@) == Ok::<Seq<u8>, VcsError>(d@),
                Err(e) => resolve_spec(self@, name@) == Err::<Seq<u8>, VcsError>(e),
            },
    {
        match self.lookup(name) {
            None => Err(VcsError::NotFound),
            Some(Reference::Direct(d)) => Ok(d),
            Some(Reference::Symbolic(target)) => match self.lookup(target.as_slice()) {
                Some(Reference::Direct(d)) => Ok(d),
                _ => Err(VcsError::DanglingReference),
            },
        }
    }

    /// Makes `name` a direct reference to `target`, whether or not it was
    /// a reference before.
    pub fn set(&mut self, name: Vec<u8>, target: Digest)
        requires
            old(self).wf(),
        ensures
            final(self).wf(),
            final(self)@ == old(self)@.insert(name@, ReferenceView::Direct(target@)),
    {
        let ghost before = *self;
        if is_head(name.as_slice()) {
            self.head = Reference::Direct(target);
            assert(self.names() == before.names());
            assert(self@ =~= before@.insert(name@, ReferenceView::Direct(target@)));
            return ;
        }
        match self.find(name.as_slice()) {
            Some(i) => {
                self.branches.set(i, Branch { name, target });
                proof {
                    assert(self.names() =~= before.names());
                    assert(self@ =~= before@.insert(name@, ReferenceView::Direct(target@)));
                }
            },
            None => {
                self.branches.push(Branch { name, target });
                proof {
                    assert(self.names() =~= before.names().push(name@));
                    assert(self.wf());
                    assert forall|k: Seq<u8>|
                        k != head_name() && #[trigger] before@.contains_key(
                            k,
                        ) implies self@.contains_key(k) && self@[k] == before@[k] by {
                        let i = before.names().index_of(k);
                        assert(self.names()[i] == k);
                        self.lemma_branch(i);
                    }
                    assert forall|k: Seq<u8>| #[trigger] self@.contains_key(k) implies k
                        == head_name() || k == name@ || before@.contains_key(k) by {
                        if k != head_name() {
                            let j = self.names().index_of(k);
                            if j < before.names().len() {
                                assert(before.names()[j] == k);
                            }
                        }
                    }
                    self.lemma_branch(self.branches.len() - 1);
                    assert(self@ =~= before@.insert(name@, ReferenceView::Direct(target@)));
                }
            },
        }
    }

    /// Creates the branch `name` at `target`. Fails with `AlreadyExists`,
    /// changing nothing, if `name` is a reference already.
    pub fn create_branch(&mut self, name: Vec<u8>, target: Digest) -> (r: Result<(), VcsError>)
        requires
            old(self).wf(),
        ensures
            final(self).wf(),
            match r {
                Ok(_) => !old(self)@.contains_key(name@) && final(self)@ == old(self)@.insert(
                    name@,
                    ReferenceView::Direct(target@),
                ),
                Err(e) => e == VcsError::AlreadyExists && old(self)@.contains_key(name@)
                    && *final(self) == *old(self),
            },
    {
        if is_head(name.as_slice()) || self.find(name.as_slice()).is_some() {
            return Err(VcsError::AlreadyExists);
        }
        self.set(name, target);
        Ok(())
    }

    /// Deletes the branch `name`. Fails with `NotFound`, changing nothing,
    /// if there is no such branch; `HEAD` is no branch.
    pub fn delete_branch(&mut self, name: &[u8]) -> (r: Result<(), VcsError>)
        requires
            old(self).wf(),
        ensures
            final(self).wf(),
            match r {
                Ok(_) => name@ != head_name() && old(self)@.contains_key(name@) && final(self)@
                    == old(self)@.remove(name@),
                Err(e) => e == VcsError::NotFound && (name@ == head_name() || !old(
                    self,
                )@.contains_key(name@)) && *final(self) == *old(self),
            },
    {
        if is_head(name) {
            return Err(VcsError::NotFound);
        }
        let ghost before = *self;
        match self.find(name) {
            None => Err(VcsError::NotFound),
            Some(i) => {
                self.branches.remove(i);
                proof {
                    assert(self.names() =~= before.names().remove(i as int));
                    assert forall|a: int, b: int|
                        0 <= a < self.names().len() && 0 <= b < self.names().len() && a
                            != b implies self.names()[a] != self.names()[b] by {
                        let oa = if a < i { a } else { a + 1 };
                        let ob = if b < i { b } else { b + 1 };
                        assert(self.names()[a] == before.names()[oa]);
                        assert(self.names()[b] == before.names()[ob]);
                    }
                    assert forall|k: int| 0 <= k < self.names().len() implies self.names()[k]
                        != head_name() && self.names()[k] != name@ by {
                        let ok = if k < i { k } else { k + 1 };
                        assert(self.names()[k] == before.names()[ok]);
                    }
                    assert forall|k: Seq<u8>|
                        k != head_name() && k != name@ && #[trigger] before@.contains_key(
                            k,
                        ) implies self@.contains_key(k) && self@[k] == before@[k] by {
                        let j = before.names().index_of(k);
                        let nj = if j < i { j } else { j - 1 };
                        assert(self.names()[nj] == k);
                        self.lemma_branch(nj);
                        before.lemma_branch(j);
                    }
                    assert forall|k: Seq<u8>| #[trigger] self@.contains_key(k) implies k
                        == head_name() || before@.contains_key(k) by {
                        if k != head_name() {
                            let j = self.names().index_of(k);
                            let oj = if j < i { j } else { j + 1 };
                            assert(before.names()[oj] == k);
                        }
                    }
                    assert(self@ =~= before@.remove(name@));
                }
                Ok(())
            },
        }
    }

    /// Makes `HEAD` hold `target`: the name of a branch, or a commit digest
    /// for a detached state.
    pub fn set_head(&mut self, target: Reference)
        requires
            old(self).wf(),
        ensures
            final(self).wf(),
            final(self)@ == old(self)@.insert(head_name(), target@),
    {
        let ghost before = *self;
        self.head = target;
        assert(self.names() == before.names());
        assert(self@ =~= before@.insert(head_name(), target@));
    }

    /// Moves the current position to `target`: the branch that `HEAD`
    /// names is made to point there (and created if need be), or `HEAD`
    /// itself if it names no branch.
    pub fn advance(&mut self, target: Digest)
        requires
            old(self).wf(),
        ensures
            final(self).wf(),
            final(self)@ == advanced(old(self)@, target@),
    {
        let name = match &self.head {
            Reference::Symbolic(branch) => bytes_copy(branch.as_slice()),
            Reference::Direct(_) => {
                let mut n: Vec<u8> = Vec::new();
                n.push(72u8);
                n.push(69u8);
                n.push(65u8);
                n.push(68u8);
                assert(n@ =~= head_name());
                n
            },
        };
        self.set(name, target);
    }
}

} // verus!
