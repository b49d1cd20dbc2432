use vcs_core::digest::{Digest, ObjectKind};
use vcs_core::error::VcsError;
use vcs_core::object::{Commit, Object, Signature, Tree, TreeEntry};

fn id(b: u8) -> Digest {
    Digest::from_bytes([b; 20])
}

#[test]
fn a_blob_is_serialized_as_its_content() {
    let blob = Object::Blob(b"Hi\n".to_vec());
    assert_eq!(blob.encode(), b"Hi\n".to_vec());
    assert_eq!(blob.kind(), ObjectKind::Blob);
    assert_eq!(blob.digest(), Digest::compute(ObjectKind::Blob, b"Hi\n"));
}

#[test]
fn a_tree_is_serialized_row_by_row() {
    let tree = Tree {
        entries: vec![
            TreeEntry { path: b"a".to_vec(), blob: id(1) },
            TreeEntry { path: b"bc".to_vec(), blob: id(2) },
        ],
    };
    let mut expected: Vec<u8> = vec![2, 0, 0, 0, 0, 0, 0, 0];
    expected.extend_from_slice(&[1, 0, 0, 0, 0, 0, 0, 0]);
    expected.extend_from_slice(b"a");
    expected.extend_from_slice(&[1u8; 20]);
    expected.extend_from_slice(&[2, 0, 0, 0, 0, 0, 0, 0]);
    expected.extend_from_slice(b"bc");
    expected.extend_from_slice(&[2u8; 20]);
    assert_eq!(tree.encode(), expected);
    assert_eq!(Tree { entries: vec![] }.encode(), vec![0u8; 8]);
    let object = Object::Tree(tree);
    assert_eq!(object.kind(), ObjectKind::Tree);
    assert_eq!(object.digest(), Digest::compute(ObjectKind::Tree, &expected));
}

#[test]
fn a_commit_is_serialized_field_by_field() {
    let commit = Commit {
        tree: id(7),
        parents: vec![id(8), id(9)],
        author: Signature { name: b"An".to_vec(), email: b"a@x".to_vec(), when: 258 },
        committer: Signature { name: b"".to_vec(), email: b"c".to_vec(), when: -2 },
        message: b"msg".to_vec(),
    };
    let mut expected: Vec<u8> = vec![7u8; 20];
    expected.extend_from_slice(&[2, 0, 0, 0, 0, 0, 0, 0]);
    expected.extend_from_slice(&[8u8; 20]);
    expected.extend_from_slice(&[9u8; 20]);
    expected.extend_from_slice(&[2, 0, 0, 0, 0, 0, 0, 0]);
    expected.extend_from_slice(b"An");
    expected.extend_from_slice(&[3, 0, 0, 0, 0, 0, 0, 0]);
    expected.extend_from_slice(b"a@x");
    expected.extend_from_slice(&[0, 2, 1, 0, 0, 0, 0, 0, 0]);
    expected.extend_from_slice(&[0, 0, 0, 0, 0, 0, 0, 0]);
    expected.extend_from_slice(&[1, 0, 0, 0, 0, 0, 0, 0]);
    expected.extend_from_slice(b"c");
    expected.extend_from_slice(&[1, 1, 0, 0, 0, 0, 0, 0, 0]);
    expected.extend_from_slice(&[3, 0, 0, 0, 0, 0, 0, 0]);
    expected.extend_from_slice(b"msg");
    assert_eq!(commit.encode(), expected);
    assert_eq!(commit.timestamp(), -2);
    assert_eq!(commit.digest(), Digest::compute(ObjectKind::Commit, &expected));
    assert_eq!(Object::Commit(commit.clone()).digest(), commit.digest());
    assert_eq!(Object::Commit(commit).kind(), ObjectKind::Commit);
}

#[test]
fn the_extreme_times_are_serialized() {
    let at = |when: i64| {
        let commit = Commit {
            tree: id(0),
            parents: vec![],
            author: Signature { name: vec![], email: vec![], when: 0 },
            committer: Signature { name: vec![], email: vec![], when },
            message: vec![],
        };
        let bytes = commit.encode();
        bytes[bytes.len() - 17..bytes.len() - 8].to_vec()
    };
    assert_eq!(at(i64::MAX), vec![0, 255, 255, 255, 255, 255, 255, 255, 127]);
    assert_eq!(at(i64::MIN), vec![1, 255, 255, 255, 255, 255, 255, 255, 127]);
    assert_eq!(at(-1), vec![1, 0, 0, 0, 0, 0, 0, 0, 0]);
    assert_eq!(at(0), vec![0, 0, 0, 0, 0, 0, 0, 0, 0]);
}

#[test]
fn digests_compare_by_their_bytes() {
    assert!(id(1).equals(&id(1)));
    assert!(!id(1).equals(&id(2)));
    let mut bytes = [1u8; 20];
    bytes[19] = 2;
    assert!(!id(1).equals(&Digest::from_bytes(bytes)));
    assert_eq!(id(3).to_vec(), vec![3u8; 20]);
}

#[test]
fn every_error_has_a_description() {
    assert_eq!(VcsError::NotFound.describe(), "not found");
    assert_eq!(VcsError::AlreadyExists.describe(), "already exists");
    assert_eq!(VcsError::UnrelatedHistories.describe(), "unrelated histories");
    assert_eq!(VcsError::DanglingReference.describe(), "dangling reference");
    assert_eq!(VcsError::StorageIO.describe(), "storage failure");
    assert_eq!(VcsError::InvalidState.describe(), "invalid state");
}

#[test]
fn objects_compare_by_their_content() {
    let sig = |when: i64| Signature { name: b"n".to_vec(), email: b"e".to_vec(), when };
    let commit = |message: &[u8], when: i64, parents: Vec<Digest>| Commit {
        tree: id(1),
        parents,
        author: sig(1),
        committer: sig(when),
        message: message.to_vec(),
    };
    let a = Object::Commit(commit(b"m", 2, vec![id(3)]));
    assert!(a.equals(&Object::Commit(commit(b"m", 2, vec![id(3)]))));
    assert!(!a.equals(&Object::Commit(commit(b"n", 2, vec![id(3)]))));
    assert!(!a.equals(&Object::Commit(commit(b"m", 3, vec![id(3)]))));
    assert!(!a.equals(&Object::Commit(commit(b"m", 2, vec![id(4)]))));
    assert!(!a.equals(&Object::Commit(commit(b"m", 2, vec![]))));
    assert!(!a.equals(&Object::Blob(b"m".to_vec())));
    let tree = |path: &[u8], blob: u8| Tree {
        entries: vec![TreeEntry { path: path.to_vec(), blob: id(blob) }],
    };
    assert!(Object::Tree(tree(b"a", 1)).equals(&Object::Tree(tree(b"a", 1))));
    assert!(!Object::Tree(tree(b"a", 1)).equals(&Object::Tree(tree(b"a", 2))));
    assert!(!Object::Tree(tree(b"a", 1)).equals(&Object::Tree(tree(b"b", 1))));
    assert!(!Object::Tree(tree(b"a", 1)).equals(&Object::Tree(Tree { entries: vec![] })));
    assert!(Object::Blob(b"x".to_vec()).equals(&Object::Blob(b"x".to_vec())));
    assert!(!Object::Blob(b"x".to_vec()).equals(&Object::Blob(b"y".to_vec())));
}

#[test]
fn rows_that_split_their_bytes_differently_are_serialized_differently() {
    let a = Tree {
        entries: vec![TreeEntry { path: b"ab".to_vec(), blob: id(99) }],
    };
    let mut shifted = [99u8; 20];
    shifted[0] = b'b';
    let b = Tree {
        entries: vec![TreeEntry { path: b"a".to_vec(), blob: Digest::from_bytes(shifted) }],
    };
    assert_ne!(a.encode(), b.encode());
    assert_ne!(Object::Tree(a).digest(), Object::Tree(b).digest());
}
