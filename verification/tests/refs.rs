use vcs_core::digest::Digest;
use vcs_core::error::VcsError;
use vcs_core::refs::{is_head, Reference, ReferenceStore};

fn id(b: u8) -> Digest {
    Digest::from_bytes([b; 20])
}

#[test]
fn resolve_follows_head_to_the_branch() {
    let mut refs = ReferenceStore::new();
    refs.create_branch(b"feature".to_vec(), id(1)).unwrap();
    refs.set_head(Reference::Symbolic(b"feature".to_vec()));
    assert_eq!(refs.resolve(b"HEAD"), Ok(id(1)));
    assert_eq!(refs.resolve(b"feature"), Ok(id(1)));
    refs.delete_branch(b"feature").unwrap();
    assert_eq!(refs.resolve(b"HEAD"), Err(VcsError::DanglingReference));
    assert_eq!(refs.resolve(b"feature"), Err(VcsError::NotFound));
}

#[test]
fn resolve_of_a_detached_head_is_its_digest() {
    let mut refs = ReferenceStore::new();
    refs.set_head(Reference::Direct(id(2)));
    assert_eq!(refs.resolve(b"HEAD"), Ok(id(2)));
    assert_eq!(refs.head(), &Reference::Direct(id(2)));
}

#[test]
fn a_head_that_names_itself_dangles() {
    let mut refs = ReferenceStore::new();
    refs.set_head(Reference::Symbolic(b"HEAD".to_vec()));
    assert_eq!(refs.resolve(b"HEAD"), Err(VcsError::DanglingReference));
    // Moving the current position then detaches HEAD.
    refs.advance(id(3));
    assert_eq!(refs.head(), &Reference::Direct(id(3)));
}

#[test]
fn create_branch_refuses_a_name_that_is_taken() {
    let mut refs = ReferenceStore::new();
    assert_eq!(refs.create_branch(b"feature".to_vec(), id(1)), Ok(()));
    assert_eq!(refs.create_branch(b"feature".to_vec(), id(2)), Err(VcsError::AlreadyExists));
    assert_eq!(refs.create_branch(b"HEAD".to_vec(), id(2)), Err(VcsError::AlreadyExists));
    assert_eq!(refs.resolve(b"feature"), Ok(id(1)));
}

#[test]
fn delete_branch_of_what_is_no_branch_is_not_found() {
    let mut refs = ReferenceStore::new();
    assert_eq!(refs.delete_branch(b"feature"), Err(VcsError::NotFound));
    assert_eq!(refs.delete_branch(b"HEAD"), Err(VcsError::NotFound));
    refs.create_branch(b"a".to_vec(), id(1)).unwrap();
    refs.create_branch(b"b".to_vec(), id(2)).unwrap();
    refs.create_branch(b"c".to_vec(), id(3)).unwrap();
    assert_eq!(refs.delete_branch(b"b"), Ok(()));
    assert_eq!(refs.resolve(b"a"), Ok(id(1)));
    assert_eq!(refs.resolve(b"b"), Err(VcsError::NotFound));
    assert_eq!(refs.resolve(b"c"), Ok(id(3)));
}

#[test]
fn advance_moves_the_branch_that_head_names() {
    let mut refs = ReferenceStore::new();
    refs.advance(id(1));
    assert_eq!(refs.lookup(b"master"), Some(Reference::Direct(id(1))));
    assert_eq!(refs.lookup(b"HEAD"), Some(Reference::Symbolic(b"master".to_vec())));
    refs.advance(id(2));
    assert_eq!(refs.resolve(b"HEAD"), Ok(id(2)));
    assert_eq!(refs.lookup(b"nothing"), None);
}

#[test]
fn set_overwrites_and_creates() {
    let mut refs = ReferenceStore::new();
    refs.set(b"topic".to_vec(), id(1));
    refs.set(b"topic".to_vec(), id(2));
    assert_eq!(refs.resolve(b"topic"), Ok(id(2)));
    refs.set(b"HEAD".to_vec(), id(3));
    assert_eq!(refs.head(), &Reference::Direct(id(3)));
}

#[test]
fn is_head_knows_the_name() {
    assert!(is_head(b"HEAD"));
    assert!(!is_head(b"head"));
    assert!(!is_head(b"HEAD2"));
    assert!(!is_head(b""));
}
