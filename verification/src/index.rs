//! The index, or staging area: the rows of the next tree, one per path,
//! kept sorted by path so that the tree built from them does not depend on
//! the order in which they were staged.

use crate::bytes::{
    bytes_eq, bytes_lt, lemma_lex_irreflexive, lemma_lex_total, lemma_lex_transitive, lex_lt,
};
use crate::digest::Digest;
use crate::object::{entry_views, Tree, TreeEntry, TreeEntryView};
use vstd::prelude::*;

verus! {

/// The rows stand in strictly ascending order of their paths; so no path
/// occurs twice.
pub open spec fn sorted(s: Seq<TreeEntryView>) -> bool {
    forall|i: int, j: int| 0 <= i < j < s.len() ==> lex_lt(#[trigger] s[i].path, #[trigger] s[j].path)
}

/// Where a row for `path` belongs among sorted rows: behind every row whose
/// path comes before `path`.
pub open spec fn insertion_point(s: Seq<TreeEntryView>, path: Seq<u8>) -> int
    decreases s.len(),
{
    if s.len() == 0 {
        0
    } else if lex_lt(s.last().path, path) {
        s.len() as int
    } else {
        insertion_point(s.drop_last(), path)
    }
}

/// The rows after staging `blob` at `path`: the row for `path` is replaced
/// if there is one, and a new row is put in its sorted place otherwise.
pub open spec fn staged(s: Seq<TreeEntryView>, path: Seq<u8>, blob: Seq<u8>) -> Seq<
    TreeEntryView,
> {
    let i = insertion_point(s, path);
    let row = TreeEntryView { path, blob };
    if i < s.len() && s[i].path == path {
        s.update(i, row)
    } else {
        s.insert(i, row)
    }
}

/// The rows after staging each of `rows` in turn.
pub open spec fn staged_all(s: Seq<TreeEntryView>, rows: Seq<TreeEntryView>) -> Seq<TreeEntryView>
    decreases rows.len(),
{
    if rows.len() == 0 {
        s
    } else {
        staged(staged_all(s, rows.drop_last()), rows.last().path, rows.last().blob)
    }
}

/// The blob staged at `path`, if any.
pub open spec fn lookup(s: Seq<TreeEntryView>, path: Seq<u8>) -> Option<Seq<u8>> {
    if exists|i: int| 0 <= i < s.len() && s[i].path == path {
        Some(s[choose|i: int| 0 <= i < s.len() && s[i].path == path].blob)
    } else {
        None
    }
}

/// The insertion point is the one position that has only smaller paths
/// before it and no smaller path at it.
pub proof fn lemma_insertion_point(s: Seq<TreeEntryView>, path: Seq<u8>, i: int)
    requires
        sorted(s),
        0 <= i <= s.len(),
        forall|k: int| 0 <= k < i ==> lex_lt(#[trigger] s[k].path, path),
        i < s.len() ==> !lex_lt(s[i].path, path),
    ensures
        insertion_point(s, path) == i,
    decreases s.len(),
{
    if s.len() > 0 {
        let last = s.len() - 1;
        if lex_lt(s.last().path, path) {
            if i < s.len() {
                if i < last {
                    assert(lex_lt(s[i].path, s[last].path));
                    lemma_lex_transitive(s[i].path, s[last].path, path);
                }
            }
        } else {
            let t = s.drop_last();
            assert forall|a: int, b: int| 0 <= a < b < t.len() implies lex_lt(
                #[trigger] t[a].path,
                #[trigger] t[b].path,
            ) by {
                assert(t[a] == s[a] && t[b] == s[b]);
            }
            assert forall|k: int| 0 <= k < i implies lex_lt(#[trigger] t[k].path, path) by {
                assert(t[k] == s[k]);
            }
            lemma_insertion_point(t, path, i);
        }
    }
}

/// What the insertion point is, for sorted rows.
pub proof fn lemma_insertion_point_is(s: Seq<TreeEntryView>, path: Seq<u8>)
    requires
        sorted(s),
    ensures
        0 <= insertion_point(s, path) <= s.len(),
        forall|k: int| 0 <= k < insertion_point(s, path) ==> lex_lt(#[trigger] s[k].path, path),
        forall|k: int|
            insertion_point(s, path) <= k < s.len() ==> !lex_lt(#[trigger] s[k].path, path),
    decreases s.len(),
{
    if s.len() > 0 {
        let last = s.len() - 1;
        if lex_lt(s.last().path, path) {
            assert forall|k: int| 0 <= k < s.len() implies lex_lt(#[trigger] s[k].path, path) by {
                if k < last {
                    assert(lex_lt(s[k].path, s[last].path));
                    lemma_lex_transitive(s[k].path, s[last].path, path);
                }
            }
        } else {
            let t = s.drop_last();
            assert forall|a: int, b: int| 0 <= a < b < t.len() implies lex_lt(
                #[trigger] t[a].path,
                #[trigger] t[b].path,
            ) by {
                assert(t[a] == s[a] && t[b] == s[b]);
            }
            lemma_insertion_point_is(t, path);
            let i = insertion_point(t, path);
            assert forall|k: int| 0 <= k < i implies lex_lt(#[trigger] s[k].path, path) by {
                assert(t[k] == s[k]);
            }
            assert forall|k: int| i <= k < s.len() implies !lex_lt(#[trigger] s[k].path, path) by {
                if k < last {
                    assert(t[k] == s[k]);
                }
            }
        }
    }
}

/// Staging keeps the rows sorted, puts `blob` at `path` and leaves every
/// other path as it was.
pub proof fn lemma_staged(s: Seq<TreeEntryView>, path: Seq<u8>, blob: Seq<u8>)
    requires
        sorted(s),
    ensures
        sorted(staged(s, path, blob)),
        lookup(staged(s, path, blob), path) == Some(blob),
        forall|other: Seq<u8>|
            other != path ==> lookup(staged(s, path, blob), other) == lookup(s, other),
{
    let i = insertion_point(s, path);
    let row = TreeEntryView { path, blob };
    let n = staged(s, path, blob);
    lemma_insertion_point_is(s, path);
    let replaced = i < s.len() && s[i].path == path;
    // Every row behind the insertion point, but one for `path` itself,
    // has a greater path.
    assert forall|k: int| i <= k < s.len() && s[k].path != path implies lex_lt(
        path,
        #[trigger] s[k].path,
    ) by {
        if !lex_lt(path, s[k].path) {
            lemma_lex_total(path, s[k].path);
        }
    }
    assert forall|k: int| i < k < s.len() implies lex_lt(path, #[trigger] s[k].path) by {
        assert(lex_lt(s[i].path, s[k].path));
        if s[k].path == path {
            assert(!lex_lt(s[i].path, path));
        }
    }
    assert forall|a: int, b: int| 0 <= a < b < n.len() implies lex_lt(
        #[trigger] n[a].path,
        #[trigger] n[b].path,
    ) by {
        if replaced {
            if a != i && b != i {
                assert(n[a] == s[a] && n[b] == s[b]);
            } else if a == i {
                assert(n[b] == s[b]);
            } else {
                assert(n[a] == s[a]);
            }
        } else {
            let sa = if a < i { a } else { a - 1 };
            let sb = if b < i { b } else { b - 1 };
            if a != i && b != i {
                assert(n[a] == s[sa] && n[b] == s[sb]);
            } else if a == i {
                assert(n[b] == s[sb]);
            } else {
                assert(n[a] == s[sa]);
            }
        }
    }
    lemma_sorted_lookup(n, i);
    assert forall|other: Seq<u8>| other != path implies lookup(n, other) == lookup(s, other) by {
        if exists|k: int| 0 <= k < s.len() && s[k].path == other {
            let k = choose|k: int| 0 <= k < s.len() && s[k].path == other;
            let nk = if replaced || k < i { k } else { k + 1 };
            assert(n[nk] == s[k]);
            lemma_sorted_lookup(n, nk);
            lemma_sorted_lookup(s, k);
        } else {
            if exists|k: int| 0 <= k < n.len() && n[k].path == other {
                let k = choose|k: int| 0 <= k < n.len() && n[k].path == other;
                let sk = if replaced || k < i { k } else { k - 1 };
                assert(n[k] == s[sk]);
                assert(false);
            }
        }
    }
}

/// In sorted rows a path is found at one position only.
pub proof fn lemma_sorted_lookup(s: Seq<TreeEntryView>, i: int)
    requires
        sorted(s),
        0 <= i < s.len(),
    ensures
        lookup(s, s[i].path) == Some(s[i].blob),
{
    let j = choose|j: int| 0 <= j < s.len() && s[j].path == s[i].path;
    lemma_lex_irreflexive(s[i].path);
    if j < i {
        assert(lex_lt(s[j].path, s[i].path));
    } else if i < j {
        assert(lex_lt(s[i].path, s[j].path));
    }
}

/// A path that occurs in no row is not staged.
proof fn lemma_lookup_none(s: Seq<TreeEntryView>, path: Seq<u8>)
    requires
        forall|i: int| 0 <= i < s.len() ==> (#[trigger] s[i]).path != path,
    ensures
        lookup(s, path).is_none(),
{
}

/// Sorted rows are determined by what is staged at each path: two sorted
/// sequences of rows that give every path the same blob are equal.
pub proof fn lemma_sorted_rows_determined(a: Seq<TreeEntryView>, b: Seq<TreeEntryView>)
    requires
        sorted(a),
        sorted(b),
        forall|path: Seq<u8>| lookup(a, path) == lookup(b, path),
    ensures
        a == b,
    decreases a.len(),
{
    if a.len() == 0 {
        if b.len() > 0 {
            lemma_sorted_lookup(b, 0);
            lemma_lookup_none(a, b[0].path);
        }
        assert(a =~= b);
    } else {
        let la = a.len() - 1;
        lemma_sorted_lookup(a, la);
        assert(lookup(b, a[la].path) is Some);
        let j = choose|j: int| 0 <= j < b.len() && b[j].path == a[la].path;
        lemma_sorted_lookup(b, j);
        let lb = b.len() - 1;
        lemma_sorted_lookup(b, lb);
        assert(lookup(a, b[lb].path) is Some);
        let i = choose|i: int| 0 <= i < a.len() && a[i].path == b[lb].path;
        lemma_sorted_lookup(a, i);
        // The last paths of both are the greatest path staged.
        if j < lb {
            assert(lex_lt(b[j].path, b[lb].path));
            if i < la {
                assert(lex_lt(a[i].path, a[la].path));
                lemma_lex_transitive(b[j].path, b[lb].path, a[la].path);
            }
            lemma_lex_irreflexive(a[la].path);
            assert(false);
        }
        assert(a[la] == b[lb]);
        let da = a.drop_last();
        let db = b.drop_last();
        assert forall|x: int, y: int| 0 <= x < y < da.len() implies lex_lt(
            #[trigger] da[x].path,
            #[trigger] da[y].path,
        ) by {
            assert(da[x] == a[x] && da[y] == a[y]);
        }
        assert forall|x: int, y: int| 0 <= x < y < db.len() implies lex_lt(
            #[trigger] db[x].path,
            #[trigger] db[y].path,
        ) by {
            assert(db[x] == b[x] && db[y] == b[y]);
        }
        assert forall|path: Seq<u8>| lookup(da, path) == lookup(db, path) by {
            lemma_drop_last_lookup(a, path);
            lemma_drop_last_lookup(b, path);
        }
        lemma_sorted_rows_determined(da, db);
        assert(a =~= da.push(a[la]));
        assert(b =~= db.push(b[lb]));
    }
}

/// Without their last row, sorted rows give every path but the last the
/// blob it had, and the last path none.
proof fn lemma_drop_last_lookup(s: Seq<TreeEntryView>, path: Seq<u8>)
    requires
        sorted(s),
        s.len() > 0,
    ensures
        lookup(s.drop_last(), path) == if path == s.last().path {
            None
        } else {
            lookup(s, path)
        },
{
    let d = s.drop_last();
    let last = s.len() - 1;
    assert forall|x: int, y: int| 0 <= x < y < d.len() implies lex_lt(
        #[trigger] d[x].path,
        #[trigger] d[y].path,
    ) by {
        assert(d[x] == s[x] && d[y] == s[y]);
    }
    if path == s.last().path {
        assert forall|i: int| 0 <= i < d.len() implies (#[trigger] d[i]).path != path by {
            assert(d[i] == s[i]);
            assert(lex_lt(s[i].path, s[last].path));
            lemma_lex_irreflexive(path);
        }
        lemma_lookup_none(d, path);
    } else if exists|i: int| 0 <= i < s.len() && s[i].path == path {
        let i = choose|i: int| 0 <= i < s.len() && s[i].path == path;
        assert(d[i] == s[i]);
        lemma_sorted_lookup(s, i);
        lemma_sorted_lookup(d, i);
    } else {
        assert forall|i: int| 0 <= i < d.len() implies (#[trigger] d[i]).path != path by {
            assert(d[i] == s[i]);
        }
        lemma_lookup_none(d, path);
    }
}

/// Staging at two different paths gives the same rows in either order.
pub proof fn lemma_staged_commutes(
    s: Seq<TreeEntryView>,
    path_a: Seq<u8>,
    blob_a: Seq<u8>,
    path_b: Seq<u8>,
    blob_b: Seq<u8>,
)
    requires
        sorted(s),
        path_a != path_b,
    ensures
        staged(staged(s, path_a, blob_a), path_b, blob_b) == staged(staged(s, path_b, blob_b), path_a, blob_a),
{
    let left = staged(s, path_a, blob_a);
    let right = staged(s, path_b, blob_b);
    lemma_staged(s, path_a, blob_a);
    lemma_staged(s, path_b, blob_b);
    lemma_staged(left, path_b, blob_b);
    lemma_staged(right, path_a, blob_a);
    assert forall|path: Seq<u8>|
        lookup(staged(left, path_b, blob_b), path) == lookup(staged(right, path_a, blob_a), path) by {
        if path == path_a {
            assert(lookup(staged(left, path_b, blob_b), path) == lookup(left, path));
        } else if path == path_b {
            assert(lookup(staged(right, path_a, blob_a), path) == lookup(right, path));
        } else {
            assert(lookup(staged(left, path_b, blob_b), path) == lookup(left, path));
            assert(lookup(left, path) == lookup(s, path));
            assert(lookup(staged(right, path_a, blob_a), path) == lookup(right, path));
            assert(lookup(right, path) == lookup(s, path));
        }
    }
    lemma_sorted_rows_determined(staged(left, path_b, blob_b), staged(right, path_a, blob_a));
}

/// Staging at a path twice leaves what was staged last.
pub proof fn lemma_staged_overwrites(
    s: Seq<TreeEntryView>,
    path: Seq<u8>,
    b1: Seq<u8>,
    b2: Seq<u8>,
)
    requires
        sorted(s),
    ensures
        staged(staged(s, path, b1), path, b2) == staged(s, path, b2),
{
    let s1 = staged(s, path, b1);
    lemma_staged(s, path, b1);
    lemma_staged(s, path, b2);
    lemma_staged(s1, path, b2);
    assert forall|other: Seq<u8>|
        lookup(staged(s1, path, b2), other) == lookup(staged(s, path, b2), other) by {
        if other != path {
            assert(lookup(staged(s1, path, b2), other) == lookup(s1, other));
            assert(lookup(s1, other) == lookup(s, other));
            assert(lookup(staged(s, path, b2), other) == lookup(s, other));
        }
    }
    lemma_sorted_rows_determined(staged(s1, path, b2), staged(s, path, b2));
}

/// Staging the rows of a sorted tree, one after the other, into an empty
/// index gives those rows back: loading a tree that was built from an index
/// restores that index.
pub proof fn lemma_staged_all_sorted(rows: Seq<TreeEntryView>)
    requires
        sorted(rows),
    ensures
        staged_all(Seq::<TreeEntryView>::empty(), rows) == rows,
    decreases rows.len(),
{
    if rows.len() > 0 {
        let d = rows.drop_last();
        let last = rows.len() - 1;
        assert forall|x: int, y: int| 0 <= x < y < d.len() implies lex_lt(
            #[trigger] d[x].path,
            #[trigger] d[y].path,
        ) by {
            assert(d[x] == rows[x] && d[y] == rows[y]);
        }
        lemma_staged_all_sorted(d);
        assert forall|k: int| 0 <= k < d.len() implies lex_lt(
            #[trigger] d[k].path,
            rows.last().path,
        ) by {
            assert(d[k] == rows[k]);
            assert(lex_lt(rows[k].path, rows[last].path));
        }
        lemma_insertion_point(d, rows.last().path, d.len() as int);
        assert(staged(d, rows.last().path, rows.last().blob) =~= rows);
    } else {
        assert(rows =~= Seq::<TreeEntryView>::empty());
    }
}

/// The staging area.
pub struct Index {
    entries: Vec<TreeEntry>,
}

impl View for Index {
    type V = Seq<TreeEntryView>;

    /// The rows, in ascending order of their paths.
    closed spec fn view(&self) -> Seq<TreeEntryView> {
        entry_views(self.entries@)
    }
}

impl Index {
    /// The rows are sorted by path.
    pub open spec fn wf(&self) -> bool {
        sorted(self@)
    }

    /// An empty index.
    pub fn new() -> (r: Index)
        ensures
            r.wf(),
            r@ == Seq::<TreeEntryView>::empty(),
    {
        let r = Index { entries: Vec::new() };
        assert(r@ =~= Seq::<TreeEntryView>::empty());
        r
    }

    /// The number of paths staged.
    pub fn len(&self) -> (n: usize)
        ensures
            n == self@.len(),
    {
        self.entries.len()
    }

    /// The blob staged at `path`, if any.
    pub fn get(&self, path: &[u8]) -> (r: Option<Digest>)
        requires
            self.wf(),
        ensures
            match r {
                Some(d) => lookup(self@, path@) == Some(d@),
                None => lookup(self@, path@).is_none(),
            },
    {
        let mut i: usize = 0;
        while i < self.entries.len()
            invariant
                0 <= i <= self.entries.len(),
                self.wf(),
                forall|k: int| 0 <= k < i ==> self@[k].path != path@,
            decreases self.entries.len() - i,
        {
            if bytes_eq(self.entries[i].path.as_slice(), path) {
                proof {
                    lemma_sorted_lookup(self@, i as int);
                }
                return Some(self.entries[i].blob);
            }
            i += 1;
        }
        None
    }

    /// Records `blob` for `path`, overwriting what was staged there.
    pub fn insert(&mut self, path: Vec<u8>, blob: Digest)
        requires
            old(self).wf(),
        ensures
            final(self).wf(),
            final(self)@ == staged(old(self)@, path@, blob@),
    {
        let mut i: usize = 0;
        while i < self.entries.len() && bytes_lt(self.entries[i].path.as_slice(), path.as_slice())
            invariant
                0 <= i <= self.entries.len(),
                forall|k: int| 0 <= k < i ==> lex_lt(#[trigger] self@[k].path, path@),
            decreases self.entries.len() - i,
        {
            i += 1;
        }
        proof {
            lemma_insertion_point(self@, path@, i as int);
            lemma_staged(self@, path@, blob@);
        }
        let ghost before = self@;
        if i < self.entries.len() && bytes_eq(self.entries[i].path.as_slice(), path.as_slice()) {
            self.entries.set(i, TreeEntry { path, blob });
            assert(self@ =~= before.update(i as int, TreeEntryView { path: path@, blob: blob@ }));
        } else {
            self.entries.insert(i, TreeEntry { path, blob });
            assert(self@ =~= before.insert(i as int, TreeEntryView { path: path@, blob: blob@ }));
        }
    }

    /// Empties the index and stages the rows of `tree`, one after the
    /// other.
    pub fn load(&mut self, tree: &Tree)
        ensures
            final(self).wf(),
            final(self)@ == staged_all(Seq::<TreeEntryView>::empty(), tree@),
    {
        self.entries = Vec::new();
        assert(self@ =~= Seq::<TreeEntryView>::empty());
        let mut i: usize = 0;
        assert(tree@.subrange(0, 0) =~= Seq::<TreeEntryView>::empty());
        while i < tree.entries.len()
            invariant
                0 <= i <= tree.entries.len(),
                tree@.len() == tree.entries.len(),
                self.wf(),
                self@ == staged_all(Seq::<TreeEntryView>::empty(), tree@.subrange(0, i as int)),
            decreases tree.entries.len() - i,
        {
            let row = tree.entries[i].clone();
            self.insert(row.path, row.blob);
            proof {
                let next = tree@.subrange(0, i + 1);
                assert(next.drop_last() =~= tree@.subrange(0, i as int));
                assert(next.last() == tree.entries[i as int]@);
            }
            i += 1;
        }
        assert(tree@.subrange(0, tree@.len() as int) =~= tree@);
    }

    /// The tree made of the rows staged, in ascending order of their paths.
    /// The index stays as it is.
    pub fn to_tree(&self) -> (tree: Tree)
        ensures
            tree@ == self@,
    {
        let mut entries: Vec<TreeEntry> = Vec::new();
        let mut i: usize = 0;
        while i < self.entries.len()
            invariant
                0 <= i <= self.entries.len(),
                entries.len() == i,
                forall|k: int| 0 <= k < i ==> entries[k]@ == self.entries[k]@,
            decreases self.entries.len() - i,
        {
            entries.push(self.entries[i].clone());
            i += 1;
        }
        let tree = Tree { entries };
        assert(tree@ =~= self@);
        tree
    }
}

} // verus!
