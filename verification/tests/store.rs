use vcs_core::digest::{Digest, ObjectKind};
use vcs_core::error::VcsError;
use vcs_core::object::Object;
use vcs_core::store::ObjectStore;

fn hex(d: &Digest) -> String {
    let mut s = String::new();
    for b in d.bytes.iter() {
        s.push_str(&format!("{:02x}", b));
    }
    s
}

#[test]
fn blob_digest_is_the_git_blob_id() {
    let d = Digest::compute(ObjectKind::Blob, b"").unwrap();
    assert_eq!(hex(&d), "e69de29bb2d1d6434b8b29ae775ad8c2e48c5391");
    let d = Digest::compute(ObjectKind::Blob, b"hello world\n").unwrap();
    assert_eq!(hex(&d), "3b18e512dba79e4c8300dd08aeb37f8e728b8dad");
}

#[test]
fn digest_depends_on_the_kind() {
    let b = Digest::compute(ObjectKind::Blob, b"abc").unwrap();
    let t = Digest::compute(ObjectKind::Tree, b"abc").unwrap();
    let c = Digest::compute(ObjectKind::Commit, b"abc").unwrap();
    assert_ne!(b, t);
    assert_ne!(b, c);
    assert_ne!(t, c);
}

#[test]
fn put_twice_yields_the_same_digest_and_size() {
    let mut store = ObjectStore::new();
    let a = store.put(Object::Blob(b"Hi\n".to_vec())).unwrap();
    assert_eq!(store.len(), 1);
    let b = store.put(Object::Blob(b"Hi\n".to_vec())).unwrap();
    assert_eq!(a, b);
    assert_eq!(store.len(), 1);
    assert_eq!(store.get(&a).unwrap(), &Object::Blob(b"Hi\n".to_vec()));
}

#[test]
fn get_of_an_absent_digest_is_not_found() {
    let store = ObjectStore::new();
    let d = Digest::from_bytes([7u8; 20]);
    assert_eq!(store.get(&d), Err(VcsError::NotFound));
    assert!(!store.contains(&d));
}

#[test]
fn a_failed_hashing_is_a_storage_failure() {
    let failed = Digest::from_hashed(Err(git2::Error::from_str("no medium")));
    assert_eq!(failed, Err(VcsError::StorageIO));
    let mut store = ObjectStore::new();
    let r = store.put_hashed(Object::Blob(b"x".to_vec()), failed);
    assert_eq!(r, Err(VcsError::StorageIO));
    assert_eq!(store.len(), 0);
}

#[test]
fn what_was_put_is_what_get_returns() {
    let mut store = ObjectStore::new();
    let a = store.put(Object::Blob(b"one".to_vec())).unwrap();
    let b = store.put(Object::Blob(b"two".to_vec())).unwrap();
    assert_ne!(a, b);
    assert_eq!(store.len(), 2);
    assert_eq!(store.get(&a).unwrap(), &Object::Blob(b"one".to_vec()));
    assert_eq!(store.get(&b).unwrap(), &Object::Blob(b"two".to_vec()));
    assert!(store.contains(&a));
}

#[test]
fn an_object_held_already_is_stored_again_without_change() {
    let mut store = ObjectStore::new();
    let a = store.put(Object::Blob(b"one".to_vec())).unwrap();
    assert_eq!(store.put_hashed(Object::Blob(b"one".to_vec()), Ok(a)), Ok(a));
    assert_eq!(store.len(), 1);
    assert_eq!(store.get(&a).unwrap(), &Object::Blob(b"one".to_vec()));
}
