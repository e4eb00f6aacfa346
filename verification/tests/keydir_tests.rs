//! Tests of the key directory.

use bitcask::format::DataEntry;
use bitcask::keydir::{HashmapKeydir, KeydirEntry};

#[test]
fn test_insert_if_newer_inserts_when_nonexistent() {
    let mut k = HashmapKeydir::new();
    let entry = KeydirEntry::new(0, 42, 0, 0);
    let e = k.put(b"foo".to_vec(), entry);
    assert!(e == entry, "Expected {:?}, got {:?}", &entry, e);
}

#[test]
fn put_replaces_only_when_at_least_as_new() {
    let mut k = HashmapKeydir::new();
    let older = KeydirEntry::new(1, 0, 30, 5);
    let newer = KeydirEntry::new(2, 64, 30, 9);

    let _ = k.put(b"foo".to_vec(), newer);
    // an older timestamp leaves the stored entry standing
    let kept = k.put(b"foo".to_vec(), older);
    assert_eq!(kept, newer);
    assert_eq!(*k.get(b"foo").unwrap(), newer);

    // an equal timestamp replaces
    let tied = KeydirEntry::new(3, 128, 30, 9);
    let replaced = k.put(b"foo".to_vec(), tied);
    assert_eq!(replaced, tied);
    assert_eq!(*k.get(b"foo").unwrap(), tied);
}

#[test]
fn remove_and_contains() {
    let mut k = HashmapKeydir::new();
    assert_eq!(k.len(), 0);
    assert!(!k.contains_key(b"a"));
    let _ = k.put(b"a".to_vec(), KeydirEntry::new(1, 0, 20, 1));
    let _ = k.put(b"b".to_vec(), KeydirEntry::new(1, 20, 20, 1));
    assert_eq!(k.len(), 2);
    assert!(k.contains_key(b"a"));

    let keys = k.keys();
    assert_eq!(keys, vec![b"a".to_vec(), b"b".to_vec()]);

    k.remove(b"a");
    assert_eq!(k.len(), 1);
    assert!(!k.contains_key(b"a"));
    // removing an absent key is a no-op
    k.remove(b"a");
    assert_eq!(k.len(), 1);
}

#[test]
fn keydir_entry_from_data_entry() {
    let e = DataEntry::with_timestamp(b"k".to_vec(), b"v".to_vec(), 9)
        .offset(5)
        .file_id(3);
    let kde = KeydirEntry::from_entry(&e);
    assert_eq!(kde, KeydirEntry::new(3, 5, 18, 9));
}
