use vcs_core::bytes::{bytes_copy, bytes_eq, bytes_extend, bytes_lt};
use vcs_core::digest::Digest;
use vcs_core::index::Index;
use vcs_core::object::{Tree, TreeEntry};

fn id(b: u8) -> Digest {
    Digest::from_bytes([b; 20])
}

fn row(path: &[u8], b: u8) -> TreeEntry {
    TreeEntry { path: path.to_vec(), blob: id(b) }
}

#[test]
fn rows_come_out_sorted_by_path() {
    let mut index = Index::new();
    index.insert(b"m".to_vec(), id(1));
    index.insert(b"a".to_vec(), id(2));
    index.insert(b"z".to_vec(), id(3));
    index.insert(b"ab".to_vec(), id(4));
    index.insert(b"".to_vec(), id(5));
    let tree = index.to_tree();
    assert_eq!(
        tree,
        Tree { entries: vec![row(b"", 5), row(b"a", 2), row(b"ab", 4), row(b"m", 1), row(b"z", 3)] }
    );
    assert_eq!(index.len(), 5);
}

#[test]
fn a_path_staged_again_is_overwritten() {
    let mut index = Index::new();
    index.insert(b"a".to_vec(), id(1));
    index.insert(b"b".to_vec(), id(2));
    index.insert(b"a".to_vec(), id(3));
    assert_eq!(index.to_tree(), Tree { entries: vec![row(b"a", 3), row(b"b", 2)] });
    assert_eq!(index.get(b"a"), Some(id(3)));
    assert_eq!(index.get(b"b"), Some(id(2)));
    assert_eq!(index.get(b"c"), None);
}

#[test]
fn load_replaces_the_rows_and_sorts_them() {
    let mut index = Index::new();
    index.insert(b"old".to_vec(), id(9));
    index.load(&Tree { entries: vec![row(b"b", 1), row(b"a", 2), row(b"b", 3)] });
    assert_eq!(index.to_tree(), Tree { entries: vec![row(b"a", 2), row(b"b", 3)] });
}

#[test]
fn byte_strings_compare_lexicographically() {
    assert!(bytes_lt(b"a", b"b"));
    assert!(bytes_lt(b"a", b"ab"));
    assert!(bytes_lt(b"", b"a"));
    assert!(bytes_lt(b"ab", b"b"));
    assert!(bytes_lt(&[1, 255], &[2, 0]));
    assert!(!bytes_lt(b"a", b"a"));
    assert!(!bytes_lt(b"b", b"a"));
    assert!(!bytes_lt(b"ab", b"a"));
    assert!(!bytes_lt(b"", b""));
    assert!(bytes_eq(b"abc", b"abc"));
    assert!(!bytes_eq(b"abc", b"abd"));
    assert!(!bytes_eq(b"abc", b"ab"));
    assert!(bytes_eq(b"", b""));
}

#[test]
fn byte_strings_are_copied_and_appended() {
    assert_eq!(bytes_copy(b"abc"), b"abc".to_vec());
    let mut v = b"ab".to_vec();
    bytes_extend(&mut v, b"cd");
    assert_eq!(v, b"abcd".to_vec());
    bytes_extend(&mut v, b"");
    assert_eq!(v, b"abcd".to_vec());
}
