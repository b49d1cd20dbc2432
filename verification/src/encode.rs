//! The canonical serialized form of an object, from which its digest is
//! computed. Every variable-length field is preceded by its length, so
//! that the form can be read back in only one way.

use crate::bytes::bytes_extend;
use crate::digest::{object_id, Digest, ObjectKind};
use crate::error::VcsError;
use crate::object::{
    Commit, CommitView, Object, ObjectView, Signature, SignatureView, Tree, TreeEntryView,
};
use vstd::bytes::{
    lemma_auto_spec_u64_to_from_le_bytes, spec_u64_from_le_bytes, spec_u64_to_le_bytes,
    u64_to_le_bytes,
};
use vstd::prelude::*;

verus! {

/// A length, as eight little-endian bytes.
pub open spec fn enc_len(n: nat) -> Seq<u8> {
    spec_u64_to_le_bytes(n as u64)
}

/// A byte string, preceded by its length.
pub open spec fn enc_bytes(b: Seq<u8>) -> Seq<u8> {
    enc_len(b.len()) + b
}

/// A point in time: one byte for the sign, then eight for the distance
/// from zero (from minus one, for a negative time).
pub open spec fn enc_when(when: int) -> Seq<u8> {
    if when >= 0 {
        seq![0u8] + spec_u64_to_le_bytes(when as u64)
    } else {
        seq![1u8] + spec_u64_to_le_bytes((-(when + 1)) as u64)
    }
}

pub open spec fn enc_signature(s: SignatureView) -> Seq<u8> {
    enc_bytes(s.name) + enc_bytes(s.email) + enc_when(s.when)
}

pub open spec fn enc_entry(e: TreeEntryView) -> Seq<u8> {
    enc_bytes(e.path) + e.blob
}

/// The rows of a tree, one after the other.
pub open spec fn enc_entries(entries: Seq<TreeEntryView>) -> Seq<u8>
    decreases entries.len(),
{
    if entries.len() == 0 {
        Seq::empty()
    } else {
        enc_entries(entries.drop_last()) + enc_entry(entries.last())
    }
}

/// A list of digests, one after the other.
pub open spec fn enc_digests(digests: Seq<Seq<u8>>) -> Seq<u8>
    decreases digests.len(),
{
    if digests.len() == 0 {
        Seq::empty()
    } else {
        enc_digests(digests.drop_last()) + digests.last()
    }
}

pub open spec fn enc_tree(entries: Seq<TreeEntryView>) -> Seq<u8> {
    enc_len(entries.len()) + enc_entries(entries)
}

pub open spec fn enc_commit(c: CommitView) -> Seq<u8> {
    c.tree + enc_len(c.parents.len()) + enc_digests(c.parents) + enc_signature(c.author)
        + enc_signature(c.committer) + enc_bytes(c.message)
}

/// The canonical serialized form of an object. A blob is its content.
pub open spec fn encode(o: ObjectView) -> Seq<u8> {
    match o {
        ObjectView::Blob(content) => content,
        ObjectView::Tree(entries) => enc_tree(entries),
        ObjectView::Commit(c) => enc_commit(c),
    }
}

pub open spec fn kind_of(o: ObjectView) -> ObjectKind {
    match o {
        ObjectView::Blob(_) => ObjectKind::Blob,
        ObjectView::Tree(_) => ObjectKind::Tree,
        ObjectView::Commit(_) => ObjectKind::Commit,
    }
}

/// The object has a digest: the hashing gives an identifier for its kind
/// and serialized form.
pub open spec fn hashable(o: ObjectView) -> bool {
    object_id(kind_of(o), encode(o)) is Some
}

/// The digest of an object that has one: the identifier of its kind and
/// serialized form.
pub open spec fn digest_of(o: ObjectView) -> Seq<u8>
    recommends
        hashable(o),
{
    object_id(kind_of(o), encode(o))->Some_0
}

/// The digest of a commit is determined by its tree, parents, author,
/// committer (and so its timestamp) and message: two commits that agree on
/// all of them have the same digest.
pub proof fn lemma_commit_digest_deterministic(a: CommitView, b: CommitView)
    requires
        a.tree == b.tree,
        a.parents == b.parents,
        a.author == b.author,
        a.committer == b.committer,
        a.message == b.message,
    ensures
        hashable(ObjectView::Commit(a)) == hashable(ObjectView::Commit(b)),
        digest_of(ObjectView::Commit(a)) == digest_of(ObjectView::Commit(b)),
{
}

fn put_len(out: &mut Vec<u8>, n: usize)
    ensures
        final(out)@ == old(out)@ + enc_len(n as nat),
{
    let b = u64_to_le_bytes(n as u64);
    bytes_extend(out, b.as_slice());
}

fn put_bytes(out: &mut Vec<u8>, b: &[u8])
    ensures
        final(out)@ == old(out)@ + enc_bytes(b@),
{
    put_len(out, b.len());
    bytes_extend(out, b);
    assert(old(out)@ + enc_len(b@.len()) + b@ =~= old(out)@ + enc_bytes(b@));
}

fn put_when(out: &mut Vec<u8>, when: i64)
    ensures
        final(out)@ == old(out)@ + enc_when(when as int),
{
    if when >= 0 {
        out.push(0u8);
        let b = u64_to_le_bytes(when as u64);
        bytes_extend(out, b.as_slice());
        assert(old(out)@.push(0u8) + spec_u64_to_le_bytes(when as u64) =~= old(out)@ + enc_when(
            when as int,
        ));
    } else {
        out.push(1u8);
        let m: i64 = -(when + 1);
        let b = u64_to_le_bytes(m as u64);
        bytes_extend(out, b.as_slice());
        assert(old(out)@.push(1u8) + spec_u64_to_le_bytes(m as u64) =~= old(out)@ + enc_when(
            when as int,
        ));
    }
}

fn put_signature(out: &mut Vec<u8>, s: &Signature)
    ensures
        final(out)@ == old(out)@ + enc_signature(s@),
{
    put_bytes(out, s.name.as_slice());
    put_bytes(out, s.email.as_slice());
    put_when(out, s.when);
    assert(old(out)@ + enc_bytes(s.name@) + enc_bytes(s.email@) + enc_when(s.when as int)
        =~= old(out)@ + enc_signature(s@));
}

impl Tree {
    /// The serialized form of the tree.
    pub fn encode(&self) -> (r: Vec<u8>)
        ensures
            r@ == enc_tree(self@),
    {
        let mut out: Vec<u8> = Vec::new();
        put_len(&mut out, self.entries.len());
        let ghost head = out@;
        assert(head =~= enc_len(self@.len()));
        let mut i: usize = 0;
        assert(self@.subrange(0, 0) =~= Seq::<TreeEntryView>::empty());
        while i < self.entries.len()
            invariant
                0 <= i <= self.entries.len(),
                self@.len() == self.entries.len(),
                out@ == head + enc_entries(self@.subrange(0, i as int)),
            decreases self.entries.len() - i,
        {
            let ghost before = out@;
            put_bytes(&mut out, self.entries[i].path.as_slice());
            let d = self.entries[i].blob.to_vec();
            bytes_extend(&mut out, d.as_slice());
            proof {
                let next = self@.subrange(0, i + 1);
                assert(next.drop_last() =~= self@.subrange(0, i as int));
                assert(next.last() == self.entries[i as int]@);
                assert(out@ =~= head + enc_entries(next));
            }
            i += 1;
        }
        assert(self@.subrange(0, self@.len() as int) =~= self@);
        out
    }
}

impl Commit {
    /// The serialized form of the commit.
    pub fn encode(&self) -> (r: Vec<u8>)
        ensures
            r@ == enc_commit(self@),
    {
        let mut out: Vec<u8> = self.tree.to_vec();
        put_len(&mut out, self.parents.len());
        let ghost head = out@;
        let ghost parents = self@.parents;
        let mut i: usize = 0;
        assert(parents.subrange(0, 0) =~= Seq::<Seq<u8>>::empty());
        while i < self.parents.len()
            invariant
                0 <= i <= self.parents.len(),
                parents == self@.parents,
                parents.len() == self.parents.len(),
                out@ == head + enc_digests(parents.subrange(0, i as int)),
            decreases self.parents.len() - i,
        {
            let d = self.parents[i].to_vec();
            bytes_extend(&mut out, d.as_slice());
            proof {
                let next = parents.subrange(0, i + 1);
                assert(next.drop_last() =~= parents.subrange(0, i as int));
                assert(next.last() == self.parents[i as int]@);
                assert(out@ =~= head + enc_digests(next));
            }
            i += 1;
        }
        assert(parents.subrange(0, parents.len() as int) =~= parents);
        put_signature(&mut out, &self.author);
        put_signature(&mut out, &self.committer);
        put_bytes(&mut out, self.message.as_slice());
        assert(out@ =~= enc_commit(self@));
        out
    }
}

impl Commit {
    /// The digest of the commit. Fails with `StorageIO` if the commit has
    /// none.
    pub fn digest(&self) -> (r: Result<Digest, VcsError>)
        ensures
            match r {
                Ok(d) => hashable(ObjectView::Commit(self@)) && d@ == digest_of(
                    ObjectView::Commit(self@),
                ),
                Err(e) => e == VcsError::StorageIO && !hashable(ObjectView::Commit(self@)),
            },
    {
        let content = self.encode();
        Digest::compute(ObjectKind::Commit, content.as_slice())
    }
}

impl Object {
    /// The kind of the object.
    pub fn kind(&self) -> (k: ObjectKind)
        ensures
            k == kind_of(self@),
    {
        match self {
            Object::Blob(_) => ObjectKind::Blob,
            Object::Tree(_) => ObjectKind::Tree,
            Object::Commit(_) => ObjectKind::Commit,
        }
    }

    /// The serialized form of the object.
    pub fn encode(&self) -> (r: Vec<u8>)
        ensures
            r@ == encode(self@),
    {
        match self {
            Object::Blob(content) => crate::bytes::bytes_copy(content.as_slice()),
            Object::Tree(tree) => tree.encode(),
            Object::Commit(commit) => commit.encode(),
        }
    }

    /// The digest of the object. Fails with `StorageIO` if the object has
    /// none.
    pub fn digest(&self) -> (r: Result<Digest, VcsError>)
        ensures
            match r {
                Ok(d) => hashable(self@) && d@ == digest_of(self@),
                Err(e) => e == VcsError::StorageIO && !hashable(self@),
            },
    {
        let content = self.encode();
        Digest::compute(self.kind(), content.as_slice())
    }
}

/// A length that eight bytes can hold.
pub open spec fn fits(n: nat) -> bool {
    n <= u64::MAX
}

pub open spec fn valid_signature(s: SignatureView) -> bool {
    &&& fits(s.name.len())
    &&& fits(s.email.len())
    &&& i64::MIN <= s.when <= i64::MAX
}

/// Every digest of the list has twenty bytes.
pub open spec fn valid_digests(digests: Seq<Seq<u8>>) -> bool {
    forall|i: int| 0 <= i < digests.len() ==> (#[trigger] digests[i]).len() == 20
}

pub open spec fn valid_entries(entries: Seq<TreeEntryView>) -> bool {
    forall|i: int|
        0 <= i < entries.len() ==> fits((#[trigger] entries[i]).path.len()) && entries[i].blob.len()
            == 20
}

/// The object is one that the executable types can hold: its digests have
/// twenty bytes, its lengths fit in eight bytes and its times in an `i64`.
pub open spec fn valid_object(o: ObjectView) -> bool {
    match o {
        ObjectView::Blob(_) => true,
        ObjectView::Tree(entries) => fits(entries.len()) && valid_entries(entries),
        ObjectView::Commit(c) => {
            &&& c.tree.len() == 20
            &&& fits(c.parents.len())
            &&& valid_digests(c.parents)
            &&& valid_signature(c.author)
            &&& valid_signature(c.committer)
            &&& fits(c.message.len())
        },
    }
}

proof fn lemma_split_fixed(a: Seq<u8>, ra: Seq<u8>, b: Seq<u8>, rb: Seq<u8>)
    requires
        a.len() == b.len(),
        a + ra == b + rb,
    ensures
        a == b,
        ra == rb,
{
    let n = a.len() as int;
    assert(a =~= (a + ra).subrange(0, n));
    assert(b =~= (b + rb).subrange(0, n));
    assert((a + ra).len() == (b + rb).len());
    assert(ra =~= (a + ra).subrange(n, (a + ra).len() as int));
    assert(rb =~= (b + rb).subrange(n, (b + rb).len() as int));
}

proof fn lemma_read_len(n: nat, rn: Seq<u8>, m: nat, rm: Seq<u8>)
    requires
        fits(n),
        fits(m),
        enc_len(n) + rn == enc_len(m) + rm,
    ensures
        n == m,
        rn == rm,
{
    lemma_auto_spec_u64_to_from_le_bytes();
    lemma_split_fixed(enc_len(n), rn, enc_len(m), rm);
    assert(spec_u64_from_le_bytes(spec_u64_to_le_bytes(n as u64)) == n as u64);
    assert(spec_u64_from_le_bytes(spec_u64_to_le_bytes(m as u64)) == m as u64);
}

proof fn lemma_read_bytes(a: Seq<u8>, ra: Seq<u8>, b: Seq<u8>, rb: Seq<u8>)
    requires
        fits(a.len()),
        fits(b.len()),
        enc_bytes(a) + ra == enc_bytes(b) + rb,
    ensures
        a == b,
        ra == rb,
{
    assert(enc_bytes(a) + ra =~= enc_len(a.len()) + (a + ra));
    assert(enc_bytes(b) + rb =~= enc_len(b.len()) + (b + rb));
    lemma_read_len(a.len(), a + ra, b.len(), b + rb);
    lemma_split_fixed(a, ra, b, rb);
}

/// How far a time is from zero, or from minus one if it is negative.
spec fn magnitude(when: int) -> u64 {
    if when >= 0 {
        when as u64
    } else {
        (-(when + 1)) as u64
    }
}

proof fn lemma_read_when(x: int, rx: Seq<u8>, y: int, ry: Seq<u8>)
    requires
        i64::MIN <= x <= i64::MAX,
        i64::MIN <= y <= i64::MAX,
        enc_when(x) + rx == enc_when(y) + ry,
    ensures
        x == y,
        rx == ry,
{
    lemma_auto_spec_u64_to_from_le_bytes();
    let sx = if x >= 0 { 0u8 } else { 1u8 };
    let sy = if y >= 0 { 0u8 } else { 1u8 };
    let mx = spec_u64_to_le_bytes(magnitude(x));
    let my = spec_u64_to_le_bytes(magnitude(y));
    assert(enc_when(x) =~= seq![sx] + mx);
    assert(enc_when(y) =~= seq![sy] + my);
    lemma_split_fixed(enc_when(x), rx, enc_when(y), ry);
    assert(enc_when(x)[0] == sx);
    assert(enc_when(y)[0] == sy);
    lemma_split_fixed(seq![sx], mx, seq![sy], my);
    assert(spec_u64_from_le_bytes(mx) == magnitude(x));
    assert(spec_u64_from_le_bytes(my) == magnitude(y));
}

proof fn lemma_read_signature(a: SignatureView, ra: Seq<u8>, b: SignatureView, rb: Seq<u8>)
    requires
        valid_signature(a),
        valid_signature(b),
        enc_signature(a) + ra == enc_signature(b) + rb,
    ensures
        a == b,
        ra == rb,
{
    assert(enc_signature(a) + ra =~= enc_bytes(a.name) + (enc_bytes(a.email) + (enc_when(a.when)
        + ra)));
    assert(enc_signature(b) + rb =~= enc_bytes(b.name) + (enc_bytes(b.email) + (enc_when(b.when)
        + rb)));
    lemma_read_bytes(
        a.name,
        enc_bytes(a.email) + (enc_when(a.when) + ra),
        b.name,
        enc_bytes(b.email) + (enc_when(b.when) + rb),
    );
    lemma_read_bytes(a.email, enc_when(a.when) + ra, b.email, enc_when(b.when) + rb);
    lemma_read_when(a.when, ra, b.when, rb);
}

proof fn lemma_read_digests(a: Seq<Seq<u8>>, ra: Seq<u8>, b: Seq<Seq<u8>>, rb: Seq<u8>)
    requires
        a.len() == b.len(),
        valid_digests(a),
        valid_digests(b),
        enc_digests(a) + ra == enc_digests(b) + rb,
    ensures
        a == b,
        ra == rb,
    decreases a.len(),
{
    if a.len() == 0 {
        assert(ra =~= enc_digests(a) + ra);
        assert(rb =~= enc_digests(b) + rb);
        assert(a =~= b);
    } else {
        let da = a.drop_last();
        let db = b.drop_last();
        assert(a.last() == a[a.len() - 1] && b.last() == b[b.len() - 1]);
        assert forall|i: int| 0 <= i < da.len() implies (#[trigger] da[i]).len() == 20 by {
            assert(da[i] == a[i]);
        }
        assert forall|i: int| 0 <= i < db.len() implies (#[trigger] db[i]).len() == 20 by {
            assert(db[i] == b[i]);
        }
        assert(enc_digests(a) + ra =~= enc_digests(da) + (a.last() + ra));
        assert(enc_digests(b) + rb =~= enc_digests(db) + (b.last() + rb));
        lemma_read_digests(da, a.last() + ra, db, b.last() + rb);
        lemma_split_fixed(a.last(), ra, b.last(), rb);
        assert(a =~= da.push(a.last()));
        assert(b =~= db.push(b.last()));
    }
}

proof fn lemma_read_entries(
    a: Seq<TreeEntryView>,
    ra: Seq<u8>,
    b: Seq<TreeEntryView>,
    rb: Seq<u8>,
)
    requires
        a.len() == b.len(),
        valid_entries(a),
        valid_entries(b),
        enc_entries(a) + ra == enc_entries(b) + rb,
    ensures
        a == b,
        ra == rb,
    decreases a.len(),
{
    if a.len() == 0 {
        assert(ra =~= enc_entries(a) + ra);
        assert(rb =~= enc_entries(b) + rb);
        assert(a =~= b);
    } else {
        let da = a.drop_last();
        let db = b.drop_last();
        let ea = a.last();
        let eb = b.last();
        assert(ea == a[a.len() - 1] && eb == b[b.len() - 1]);
        assert forall|i: int| 0 <= i < da.len() implies fits((#[trigger] da[i]).path.len())
            && da[i].blob.len() == 20 by {
            assert(da[i] == a[i]);
        }
        assert forall|i: int| 0 <= i < db.len() implies fits((#[trigger] db[i]).path.len())
            && db[i].blob.len() == 20 by {
            assert(db[i] == b[i]);
        }
        assert(enc_entries(a) + ra =~= enc_entries(da) + (enc_entry(ea) + ra));
        assert(enc_entries(b) + rb =~= enc_entries(db) + (enc_entry(eb) + rb));
        lemma_read_entries(da, enc_entry(ea) + ra, db, enc_entry(eb) + rb);
        assert(enc_entry(ea) + ra =~= enc_bytes(ea.path) + (ea.blob + ra));
        assert(enc_entry(eb) + rb =~= enc_bytes(eb.path) + (eb.blob + rb));
        lemma_read_bytes(ea.path, ea.blob + ra, eb.path, eb.blob + rb);
        lemma_split_fixed(ea.blob, ra, eb.blob, rb);
        assert(a =~= da.push(ea));
        assert(b =~= db.push(eb));
    }
}

/// The serialized form can be read back in only one way: two objects of
/// one kind with the same serialized form are the same object. So two
/// different objects get the same digest only where the hashing below
/// gives two different contents the same identifier.
pub proof fn lemma_encode_injective(a: ObjectView, b: ObjectView)
    requires
        valid_object(a),
        valid_object(b),
        kind_of(a) == kind_of(b),
        encode(a) == encode(b),
    ensures
        a == b,
{
    let none = Seq::<u8>::empty();
    match (a, b) {
        (ObjectView::Tree(ea), ObjectView::Tree(eb)) => {
            lemma_read_len(ea.len(), enc_entries(ea), eb.len(), enc_entries(eb));
            assert(enc_entries(ea) + none =~= enc_entries(ea));
            assert(enc_entries(eb) + none =~= enc_entries(eb));
            lemma_read_entries(ea, none, eb, none);
        },
        (ObjectView::Commit(ca), ObjectView::Commit(cb)) => {
            let ta = enc_bytes(ca.message) + none;
            let tb = enc_bytes(cb.message) + none;
            let sa = enc_signature(ca.committer) + ta;
            let sb = enc_signature(cb.committer) + tb;
            let ua = enc_signature(ca.author) + sa;
            let ub = enc_signature(cb.author) + sb;
            let pa = enc_digests(ca.parents) + ua;
            let pb = enc_digests(cb.parents) + ub;
            assert(enc_commit(ca) =~= ca.tree + (enc_len(ca.parents.len()) + pa));
            assert(enc_commit(cb) =~= cb.tree + (enc_len(cb.parents.len()) + pb));
            lemma_split_fixed(
                ca.tree,
                enc_len(ca.parents.len()) + pa,
                cb.tree,
                enc_len(cb.parents.len()) + pb,
            );
            lemma_read_len(ca.parents.len(), pa, cb.parents.len(), pb);
            lemma_read_digests(ca.parents, ua, cb.parents, ub);
            lemma_read_signature(ca.author, sa, cb.author, sb);
            lemma_read_signature(ca.committer, ta, cb.committer, tb);
            lemma_read_bytes(ca.message, none, cb.message, none);
        },
        _ => {},
    }
}

/// Every object that the executable types hold is valid.
pub proof fn lemma_view_valid(o: Object)
    ensures
        valid_object(o@),
{
    match o {
        Object::Blob(_) => {},
        Object::Tree(tree) => {
            assert(tree.entries.len() == tree@.len());
            assert forall|i: int| 0 <= i < tree@.len() implies fits((#[trigger] tree@[i]).path.len())
                && tree@[i].blob.len() == 20 by {
                assert(tree@[i] == tree.entries[i]@);
                assert(tree.entries[i].path.len() == tree.entries[i].path@.len());
            }
        },
        Object::Commit(c) => {
            assert(c.parents.len() == c@.parents.len());
            assert(c.message.len() == c@.message.len());
            assert(c.author.name.len() == c@.author.name.len());
            assert(c.author.email.len() == c@.author.email.len());
            assert(c.committer.name.len() == c@.committer.name.len());
            assert(c.committer.email.len() == c@.committer.email.len());
            assert forall|i: int| 0 <= i < c@.parents.len() implies (#[trigger] c@.parents[i]).len()
                == 20 by {
                assert(c@.parents[i] == c.parents[i]@);
            }
        },
    }
}

} // verus!
