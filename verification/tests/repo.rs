use vcs_core::digest::{Digest, ObjectKind};
use vcs_core::error::VcsError;
use vcs_core::object::{Commit, Object, Signature, Tree, TreeEntry};
use vcs_core::refs::Reference;
use vcs_core::repo::{Repository, WorkFile};

fn sig(when: i64) -> Signature {
    Signature { name: b"C O Mitter".to_vec(), email: b"committer@example.com".to_vec(), when }
}

#[test]
fn a_new_repository_is_empty_with_head_on_master() {
    let repo = Repository::new();
    assert_eq!(repo.store().len(), 0);
    assert_eq!(repo.index().len(), 0);
    assert_eq!(repo.refs().head(), &Reference::Symbolic(b"master".to_vec()));
    assert_eq!(repo.resolve(b"HEAD"), Err(VcsError::DanglingReference));
    assert_eq!(repo.resolve(b"master"), Err(VcsError::NotFound));
}

#[test]
fn stage_stores_the_blob_and_records_the_row() {
    let mut repo = Repository::new();
    let d = repo.stage(b"file1.txt".to_vec(), b"Hi\n".to_vec()).unwrap();
    assert_eq!(d, Digest::compute(ObjectKind::Blob, b"Hi\n").unwrap());
    assert_eq!(repo.store().get(&d).unwrap(), &Object::Blob(b"Hi\n".to_vec()));
    assert_eq!(repo.index().get(b"file1.txt"), Some(d));
    // Staging the path again overwrites the row.
    let e = repo.stage(b"file1.txt".to_vec(), b"Ho\n".to_vec()).unwrap();
    assert_eq!(repo.index().len(), 1);
    assert_eq!(repo.index().get(b"file1.txt"), Some(e));
    assert_eq!(repo.store().len(), 2);
}

#[test]
fn stage_with_a_failed_hashing_changes_nothing() {
    let mut repo = Repository::new();
    let r = repo.stage_hashed(b"a".to_vec(), b"x".to_vec(), Err(VcsError::StorageIO));
    assert_eq!(r, Err(VcsError::StorageIO));
    assert_eq!(repo.store().len(), 0);
    assert_eq!(repo.index().len(), 0);
}

#[test]
fn write_tree_does_not_depend_on_the_staging_order() {
    let mut a = Repository::new();
    a.stage(b"b.txt".to_vec(), b"B".to_vec()).unwrap();
    a.stage(b"a.txt".to_vec(), b"A".to_vec()).unwrap();
    a.stage(b"c.txt".to_vec(), b"C".to_vec()).unwrap();
    let mut b = Repository::new();
    b.stage(b"c.txt".to_vec(), b"C".to_vec()).unwrap();
    b.stage(b"a.txt".to_vec(), b"A".to_vec()).unwrap();
    b.stage(b"b.txt".to_vec(), b"B".to_vec()).unwrap();
    let ta = a.write_tree().unwrap();
    let tb = b.write_tree().unwrap();
    assert_eq!(ta, tb);
    let expected = Tree {
        entries: vec![
            TreeEntry {
                path: b"a.txt".to_vec(),
                blob: Digest::compute(ObjectKind::Blob, b"A").unwrap(),
            },
            TreeEntry {
                path: b"b.txt".to_vec(),
                blob: Digest::compute(ObjectKind::Blob, b"B").unwrap(),
            },
            TreeEntry {
                path: b"c.txt".to_vec(),
                blob: Digest::compute(ObjectKind::Blob, b"C").unwrap(),
            },
        ],
    };
    assert_eq!(a.store().get(&ta).unwrap(), &Object::Tree(expected));
    // The index is not cleared: the same tree comes again.
    assert_eq!(a.index().len(), 3);
    assert_eq!(a.write_tree().unwrap(), ta);
}

#[test]
fn commit_is_determined_by_its_fields() {
    let mut a = Repository::new();
    a.stage(b"f".to_vec(), b"1".to_vec()).unwrap();
    let ca = a.commit(vec![], sig(7), sig(8), b"msg".to_vec()).unwrap();
    let mut b = Repository::new();
    b.stage(b"f".to_vec(), b"1".to_vec()).unwrap();
    let cb = b.commit(vec![], sig(7), sig(8), b"msg".to_vec()).unwrap();
    assert_eq!(ca, cb);
    // A retry in the same repository gives the same commit and stores nothing.
    let n = a.store().len();
    let again = a.commit(vec![], sig(7), sig(8), b"msg".to_vec()).unwrap();
    assert_eq!(again, ca);
    assert_eq!(a.store().len(), n);
    // Another timestamp, message or parent list gives another commit.
    let later = b.commit(vec![], sig(7), sig(9), b"msg".to_vec()).unwrap();
    assert_ne!(later, cb);
    let reworded = b.commit(vec![], sig(7), sig(8), b"msg!".to_vec()).unwrap();
    assert_ne!(reworded, cb);
    let child = b.commit(vec![cb], sig(7), sig(8), b"msg".to_vec()).unwrap();
    assert_ne!(child, cb);
}

#[test]
fn commit_advances_the_branch_that_head_names() {
    let mut repo = Repository::new();
    repo.stage(b"f".to_vec(), b"1".to_vec()).unwrap();
    let c1 = repo.commit(vec![], sig(1), sig(1), b"one".to_vec()).unwrap();
    assert_eq!(repo.resolve(b"master"), Ok(c1));
    assert_eq!(repo.resolve(b"HEAD"), Ok(c1));
    assert_eq!(repo.refs().head(), &Reference::Symbolic(b"master".to_vec()));
    let stored = match repo.store().get(&c1).unwrap() {
        Object::Commit(c) => c.clone(),
        _ => panic!("not a commit"),
    };
    let tree = repo.write_tree().unwrap();
    assert_eq!(
        stored,
        Commit {
            tree,
            parents: vec![],
            author: sig(1),
            committer: sig(1),
            message: b"one".to_vec()
        }
    );
}

#[test]
fn commit_on_a_detached_head_moves_head() {
    let mut repo = Repository::new();
    repo.stage(b"f".to_vec(), b"1".to_vec()).unwrap();
    let c1 = repo.commit(vec![], sig(1), sig(1), b"one".to_vec()).unwrap();
    repo.set_head(Reference::Direct(c1));
    let c2 = repo.commit(vec![c1], sig(2), sig(2), b"two".to_vec()).unwrap();
    assert_eq!(repo.refs().head(), &Reference::Direct(c2));
    assert_eq!(repo.resolve(b"master"), Ok(c1));
}

#[test]
fn commit_with_an_unknown_parent_is_not_found() {
    let mut repo = Repository::new();
    let blob = repo.stage(b"f".to_vec(), b"1".to_vec()).unwrap();
    let n = repo.store().len();
    let nowhere = Digest::from_bytes([1u8; 20]);
    assert_eq!(
        repo.commit(vec![nowhere], sig(1), sig(1), b"m".to_vec()),
        Err(VcsError::NotFound)
    );
    // A blob is no commit either.
    assert_eq!(repo.commit(vec![blob], sig(1), sig(1), b"m".to_vec()), Err(VcsError::NotFound));
    assert_eq!(repo.store().len(), n);
    assert_eq!(repo.resolve(b"HEAD"), Err(VcsError::DanglingReference));
}

#[test]
fn add_commit_with_a_failed_hashing_changes_nothing() {
    let mut repo = Repository::new();
    let tree = repo.write_tree().unwrap();
    let n = repo.store().len();
    let commit = Commit {
        tree,
        parents: vec![],
        author: sig(1),
        committer: sig(1),
        message: b"m".to_vec(),
    };
    assert_eq!(
        repo.add_commit_hashed(commit.clone(), Err(VcsError::StorageIO)),
        Err(VcsError::StorageIO)
    );
    assert_eq!(repo.store().len(), n);
    let id = commit.digest().unwrap();
    assert_eq!(repo.add_commit_hashed(commit.clone(), Ok(id)), Ok(id));
    assert_eq!(repo.store().get(&id).unwrap(), &Object::Commit(commit));
    // Adding a commit moves no reference.
    assert_eq!(repo.resolve(b"HEAD"), Err(VcsError::DanglingReference));
}

#[test]
fn commit_on_head_chooses_the_parents() {
    let mut repo = Repository::new();
    repo.stage(b"file1.txt".to_vec(), b"Hi\n".to_vec()).unwrap();
    let c1 = repo.commit_on_head(sig(1), b"Initial commit".to_vec()).unwrap();
    repo.stage(b"file1.txt".to_vec(), b"Hi\nFeature\n".to_vec()).unwrap();
    let c2 = repo.commit_on_head(sig(2), b"First commit on feature".to_vec()).unwrap();
    assert_eq!(repo.history(&c2).unwrap(), vec![c2, c1]);
    assert_eq!(repo.history(&c1).unwrap(), vec![c1]);
    assert_eq!(repo.resolve(b"master"), Ok(c2));
}

#[test]
fn history_of_what_is_no_commit_is_not_found() {
    let mut repo = Repository::new();
    let blob = repo.stage(b"f".to_vec(), b"1".to_vec()).unwrap();
    assert_eq!(repo.history(&blob), Err(VcsError::NotFound));
    assert_eq!(repo.history(&Digest::from_bytes([3u8; 20])), Err(VcsError::NotFound));
}

#[test]
fn checkout_hands_out_the_files_and_loads_the_index() {
    let mut repo = Repository::new();
    repo.stage(b"b.txt".to_vec(), b"B1".to_vec()).unwrap();
    repo.stage(b"a.txt".to_vec(), b"A1".to_vec()).unwrap();
    let c1 = repo.commit_on_head(sig(1), b"one".to_vec()).unwrap();
    repo.create_branch(b"feature".to_vec(), c1).unwrap();
    repo.stage(b"a.txt".to_vec(), b"A2".to_vec()).unwrap();
    repo.stage(b"c.txt".to_vec(), b"C2".to_vec()).unwrap();
    let c2 = repo.commit_on_head(sig(2), b"two".to_vec()).unwrap();
    assert_eq!(repo.index().len(), 3);

    let files = repo.checkout(Reference::Symbolic(b"feature".to_vec())).unwrap();
    assert_eq!(
        files,
        vec![
            WorkFile { path: b"a.txt".to_vec(), content: b"A1".to_vec() },
            WorkFile { path: b"b.txt".to_vec(), content: b"B1".to_vec() },
        ]
    );
    assert_eq!(repo.refs().head(), &Reference::Symbolic(b"feature".to_vec()));
    assert_eq!(repo.resolve(b"HEAD"), Ok(c1));
    assert_eq!(repo.index().len(), 2);
    assert_eq!(repo.index().get(b"c.txt"), None);

    let files = repo.checkout(Reference::Direct(c2)).unwrap();
    assert_eq!(files.len(), 3);
    assert_eq!(files[0], WorkFile { path: b"a.txt".to_vec(), content: b"A2".to_vec() });
    assert_eq!(repo.refs().head(), &Reference::Direct(c2));
}

#[test]
fn checkout_of_what_is_not_there_changes_nothing() {
    let mut repo = Repository::new();
    repo.stage(b"a.txt".to_vec(), b"A1".to_vec()).unwrap();
    let c1 = repo.commit_on_head(sig(1), b"one".to_vec()).unwrap();
    assert_eq!(
        repo.checkout(Reference::Symbolic(b"nobranch".to_vec())),
        Err(VcsError::NotFound)
    );
    assert_eq!(
        repo.checkout(Reference::Symbolic(b"HEAD".to_vec())),
        Err(VcsError::DanglingReference)
    );
    assert_eq!(
        repo.checkout(Reference::Direct(Digest::from_bytes([4u8; 20]))),
        Err(VcsError::NotFound)
    );
    repo.create_branch(b"broken".to_vec(), Digest::from_bytes([5u8; 20])).unwrap();
    assert_eq!(repo.checkout(Reference::Symbolic(b"broken".to_vec())), Err(VcsError::NotFound));
    assert_eq!(repo.refs().head(), &Reference::Symbolic(b"master".to_vec()));
    assert_eq!(repo.resolve(b"HEAD"), Ok(c1));
    assert_eq!(repo.index().len(), 1);
}

#[test]
fn checkout_of_a_commit_with_a_missing_tree_is_not_found() {
    let mut repo = Repository::new();
    let commit = Commit {
        tree: Digest::from_bytes([6u8; 20]),
        parents: vec![],
        author: sig(1),
        committer: sig(1),
        message: b"m".to_vec(),
    };
    let id = repo.record(commit).unwrap();
    assert_eq!(repo.resolve(b"master"), Ok(id));
    assert_eq!(repo.checkout(Reference::Direct(id)), Err(VcsError::NotFound));
}

#[test]
fn write_tree_with_a_failed_hashing_changes_nothing() {
    let mut repo = Repository::new();
    let blob = repo.stage(b"a".to_vec(), b"x".to_vec()).unwrap();
    assert_eq!(repo.write_tree_hashed(Err(VcsError::StorageIO)), Err(VcsError::StorageIO));
    assert_eq!(repo.store().len(), 1);
    let tree = Tree { entries: vec![TreeEntry { path: b"a".to_vec(), blob }] };
    let id = Object::Tree(tree.clone()).digest().unwrap();
    assert_eq!(repo.write_tree_hashed(Ok(id)), Ok(id));
    assert_eq!(repo.store().get(&id).unwrap(), &Object::Tree(tree));
    assert_eq!(repo.index().len(), 1);
}

#[test]
fn commit_on_a_head_that_dangles_beside_other_references_fails() {
    let mut repo = Repository::new();
    repo.stage(b"file1.txt".to_vec(), b"Hi\n".to_vec()).unwrap();
    let c1 = repo.commit_on_head(sig(1), b"Initial commit".to_vec()).unwrap();
    repo.create_branch(b"feature".to_vec(), c1).unwrap();
    repo.set_head(Reference::Symbolic(b"feature".to_vec()));
    repo.delete_branch(b"feature").unwrap();
    assert_eq!(repo.resolve(b"HEAD"), Err(VcsError::DanglingReference));
    let objects = repo.store().len();
    repo.stage(b"file1.txt".to_vec(), b"Hi\nMore\n".to_vec()).unwrap();
    assert_eq!(
        repo.commit_on_head(sig(2), b"Lost".to_vec()),
        Err(VcsError::DanglingReference)
    );
    // Only the blob staged has come; no tree, no commit, no reference.
    assert_eq!(repo.store().len(), objects + 1);
    assert_eq!(repo.resolve(b"master"), Ok(c1));
    assert_eq!(repo.resolve(b"feature"), Err(VcsError::NotFound));
    assert_eq!(repo.refs().head(), &Reference::Symbolic(b"feature".to_vec()));
}

#[test]
fn commit_on_a_head_that_names_an_unborn_branch_is_a_root_commit() {
    let mut repo = Repository::new();
    repo.set_head(Reference::Symbolic(b"trunk".to_vec()));
    assert!(repo.refs().only_head());
    repo.stage(b"f".to_vec(), b"1".to_vec()).unwrap();
    let c1 = repo.commit_on_head(sig(1), b"one".to_vec()).unwrap();
    assert_eq!(repo.history(&c1).unwrap(), vec![c1]);
    assert_eq!(repo.resolve(b"trunk"), Ok(c1));
    assert!(!repo.refs().only_head());
}
