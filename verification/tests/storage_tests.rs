//! Tests of the engine core over the in-memory directory model.

use bitcask::error::StoreError;
use bitcask::options::OpenOptions;
use bitcask::storage::{DiskStorage, SegmentFile};

fn open_empty() -> DiskStorage {
    DiskStorage::open(Vec::new(), true).unwrap()
}

#[test]
fn disk_storage_should_get_put() {
    let mut db = open_empty();

    assert_eq!(db.len(), 0);

    let res = db.get(b"hello").unwrap();
    assert_eq!(res, None);

    db.set(b"hello".to_vec(), b"world".to_vec()).unwrap();

    assert_eq!(db.len(), 1);
    assert_eq!(db.contains_key(b"hello"), true);

    let res = db.get(b"hello").unwrap();
    assert_eq!(res, Some(b"world".to_vec()));

    db.set(b"hello".to_vec(), b"underworld".to_vec()).unwrap();

    let res = db.get(b"hello").unwrap();
    assert_eq!(res, Some(b"underworld".to_vec()));

    db.delete(b"hello").unwrap();

    let res = db.get(b"hello").unwrap();
    assert_eq!(res, None);
}

#[test]
fn disk_storage_should_persist() {
    let files = {
        let mut db = open_empty();
        db.set(b"persistence".to_vec(), b"check".to_vec()).unwrap();
        db.set(b"removed".to_vec(), b"entry".to_vec()).unwrap();
        db.delete(b"removed").unwrap();
        db.close().unwrap();
        db.segments
    };

    {
        let mut db = DiskStorage::open(files, true).unwrap();
        let res = db.get(b"persistence").unwrap();
        assert_eq!(res, Some(b"check".to_vec()));

        let res = db.get(b"removed").unwrap();
        assert_eq!(res, None);
    }
}

#[test]
fn disk_storage_should_retate_logs() {
    const VERSION: u8 = 10;
    let open_opts = OpenOptions::new().max_log_file_size(50);

    let files = {
        let mut db = open_opts.open(Vec::new(), true).unwrap();

        for i in 0..=VERSION {
            db.set(b"version".to_vec(), vec![i]).unwrap();
        }
        db.close().unwrap();
        db.segments
    };

    let mut has_segment_one = false;
    let mut i = 0;
    while i < files.len() {
        if files[i].id == 1 && !files[i].data.is_empty() {
            has_segment_one = true;
        }
        i += 1;
    }
    assert!(has_segment_one, "log file has not been rotated");

    {
        let mut db = open_opts.open(files, true).unwrap();

        let res = db.get(b"version").unwrap();
        assert_eq!(res, Some(vec![VERSION]));
    }
}

#[test]
fn test_lock_file() {
    let _db = DiskStorage::open(Vec::new(), true).unwrap();

    // a second opener finds the directory lock already taken
    let db2 = DiskStorage::open(Vec::new(), false);
    assert_eq!(db2.is_err(), true);
    assert!(matches!(db2, Err(StoreError::AlreadyLocked)));
}

#[test]
fn open_empty_dir_scenario() {
    let mut db = open_empty();
    assert_eq!(db.len(), 0);
    assert!(db.is_empty());
    assert_eq!(db.get(b"hello").unwrap(), None);
    db.set(b"hello".to_vec(), b"world".to_vec()).unwrap();
    assert_eq!(db.len(), 1);
    assert!(!db.is_empty());
    assert_eq!(db.get(b"hello").unwrap(), Some(b"world".to_vec()));
    db.set(b"hello".to_vec(), b"underworld".to_vec()).unwrap();
    assert_eq!(db.get(b"hello").unwrap(), Some(b"underworld".to_vec()));
    db.delete(b"hello").unwrap();
    assert_eq!(db.get(b"hello").unwrap(), None);
}

#[test]
fn compaction_preserves_all_values() {
    let mut db = open_empty();
    for i in 0..1000u32 {
        let key = format!("key-{}", i).into_bytes();
        let value = format!("value-{}", i).into_bytes();
        db.set(key, value).unwrap();
    }
    // overwrite some keys so that stale records exist
    for i in 0..500u32 {
        let key = format!("key-{}", i).into_bytes();
        let value = format!("fresh-{}", i).into_bytes();
        db.set(key, value).unwrap();
    }
    let files_before = db.segments.len();
    db.compact().unwrap();
    let files_after = db.segments.len();
    assert!(files_after <= files_before + 1);
    // with the default 100 MiB threshold everything fits one output,
    // so only the rotated active segment and the output remain
    assert_eq!(files_after, 2);

    for i in 0..500u32 {
        let key = format!("key-{}", i).into_bytes();
        let expect = format!("fresh-{}", i).into_bytes();
        assert_eq!(db.get(&key).unwrap(), Some(expect));
    }
    for i in 500..1000u32 {
        let key = format!("key-{}", i).into_bytes();
        let expect = format!("value-{}", i).into_bytes();
        assert_eq!(db.get(&key).unwrap(), Some(expect));
    }
}

#[test]
fn for_each_sees_each_pair_once() {
    let mut db = open_empty();
    db.set(b"solo".to_vec(), b"value".to_vec()).unwrap();
    let pairs = db.for_each().unwrap();
    assert_eq!(pairs.len(), 1);
    assert_eq!(pairs[0].0, b"solo".to_vec());
    assert_eq!(pairs[0].1, b"value".to_vec());
}

#[test]
fn replay_from_hint_matches_data_only_replay() {
    let files = {
        let mut db = open_empty();
        db.set(b"alpha".to_vec(), b"1".to_vec()).unwrap();
        db.set(b"beta".to_vec(), b"2".to_vec()).unwrap();
        db.delete(b"beta").unwrap();
        db.set(b"gamma".to_vec(), b"3".to_vec()).unwrap();
        db.compact().unwrap();
        db.segments
    };

    // the compaction output carries a hint file
    let mut with_hint = false;
    let mut i = 0;
    while i < files.len() {
        if files[i].hint.is_some() {
            with_hint = true;
        }
        i += 1;
    }
    assert!(with_hint);

    // replay through the hint files
    let mut stripped: Vec<SegmentFile> = Vec::new();
    {
        let mut db = DiskStorage::open(files, true).unwrap();
        assert_eq!(db.len(), 2);
        assert_eq!(db.get(b"alpha").unwrap(), Some(b"1".to_vec()));
        assert_eq!(db.get(b"beta").unwrap(), None);
        assert_eq!(db.get(b"gamma").unwrap(), Some(b"3".to_vec()));
        for seg in db.segments {
            stripped.push(SegmentFile {
                id: seg.id,
                data: seg.data,
                hint: None,
            });
        }
    }

    // replay from the data files alone yields the same live keys and
    // the same values
    let mut db = DiskStorage::open(stripped, true).unwrap();
    assert_eq!(db.len(), 2);
    assert_eq!(db.get(b"alpha").unwrap(), Some(b"1".to_vec()));
    assert_eq!(db.get(b"beta").unwrap(), None);
    assert_eq!(db.get(b"gamma").unwrap(), Some(b"3".to_vec()));
}

#[test]
fn key_and_value_size_limits_are_enforced() {
    let opts = OpenOptions::new().max_key_size(4).max_value_size(6);
    let mut db = opts.open(Vec::new(), true).unwrap();

    let r = db.set(b"too-long-key".to_vec(), b"v".to_vec());
    assert!(matches!(r, Err(StoreError::KeyIsTooLarge)));

    let r = db.set(b"k".to_vec(), b"value-too-long".to_vec());
    assert!(matches!(r, Err(StoreError::ValueIsTooLarge)));

    db.set(b"key".to_vec(), b"value".to_vec()).unwrap();
    assert_eq!(db.get(b"key").unwrap(), Some(b"value".to_vec()));
}

#[test]
fn corrupt_segment_is_a_deserialize_error_on_open() {
    // a record header promising more payload than the file holds
    let mut data: Vec<u8> = Vec::new();
    data.extend_from_slice(&0u32.to_be_bytes());
    data.extend_from_slice(&7u32.to_be_bytes());
    data.extend_from_slice(&3u32.to_be_bytes());
    data.extend_from_slice(&100u32.to_be_bytes());
    data.extend_from_slice(b"abc");

    let files = vec![SegmentFile {
        id: 1,
        data,
        hint: None,
    }];
    let r = DiskStorage::open(files, true);
    assert!(matches!(r, Err(StoreError::DeserializeError)));
}

#[test]
fn segment_id_exhaustion_is_reported() {
    let files = vec![SegmentFile {
        id: u64::MAX - 1,
        data: Vec::new(),
        hint: None,
    }];
    let opts = OpenOptions::new().max_log_file_size(0);
    // the active segment receives id u64::MAX
    let mut db = opts.open(files, true).unwrap();
    db.set(b"a".to_vec(), b"1".to_vec()).unwrap();
    // the next write would have to rotate past the last id
    let r = db.set(b"b".to_vec(), b"2".to_vec());
    assert!(matches!(r, Err(StoreError::Custom(_))));
}

#[test]
fn delete_of_absent_key_is_a_silent_success() {
    let mut db = open_empty();
    db.delete(b"missing").unwrap();
    db.set(b"there".to_vec(), b"x".to_vec()).unwrap();
    db.delete(b"there").unwrap();
    assert_eq!(db.get(b"there").unwrap(), None);
    // a second delete of the same key still succeeds
    db.delete(b"there").unwrap();
    assert_eq!(db.get(b"there").unwrap(), None);
    assert_eq!(db.len(), 0);
}

#[test]
fn keys_lists_live_keys() {
    let mut db = open_empty();
    db.set(b"one".to_vec(), b"1".to_vec()).unwrap();
    db.set(b"two".to_vec(), b"2".to_vec()).unwrap();
    db.delete(b"one").unwrap();
    let keys = db.keys().unwrap();
    assert_eq!(keys, vec![b"two".to_vec()]);
    db.sync().unwrap();
}

#[test]
fn writes_after_compaction_survive_a_reopen() {
    let files = {
        let mut db = open_empty();
        db.set(b"old".to_vec(), b"kept".to_vec()).unwrap();
        db.compact().unwrap();
        db.set(b"new".to_vec(), b"added".to_vec()).unwrap();
        db.set(b"old".to_vec(), b"replaced".to_vec()).unwrap();
        db.close().unwrap();
        db.segments
    };
    let mut db = DiskStorage::open(files, true).unwrap();
    assert_eq!(db.get(b"old").unwrap(), Some(b"replaced".to_vec()));
    assert_eq!(db.get(b"new").unwrap(), Some(b"added".to_vec()));
    assert_eq!(db.len(), 2);
}

#[test]
fn compaction_twice_keeps_every_value() {
    let mut db = open_empty();
    for i in 0..20u32 {
        db.set(format!("k{}", i).into_bytes(), format!("v{}", i).into_bytes())
            .unwrap();
    }
    db.compact().unwrap();
    db.set(b"k0".to_vec(), b"fresh".to_vec()).unwrap();
    db.delete(b"k1").unwrap();
    db.compact().unwrap();
    assert_eq!(db.get(b"k0").unwrap(), Some(b"fresh".to_vec()));
    assert_eq!(db.get(b"k1").unwrap(), None);
    for i in 2..20u32 {
        let expect = format!("v{}", i).into_bytes();
        assert_eq!(db.get(format!("k{}", i).as_bytes()).unwrap(), Some(expect));
    }
}
