use std::collections::HashMap;

use rand::Rng;
use storage_engine::config::Config;
use storage_engine::LsmStorage;

fn config(base: &str, memtable_limit_bytes: usize, sstable_level_limit: usize) -> Config {
    Config::new(base.to_string(), memtable_limit_bytes, sstable_level_limit)
}

#[test]
fn storage_insert_test() {
    let mut storage = LsmStorage::new(config("storage_test", 4096, 4));
    for i in 0..10000 {
        storage.insert(i.to_string().into_bytes(), (i * 100).to_string().into_bytes());
    }
    for i in 0..10000 {
        let val = storage.get(&i.to_string().into_bytes());
        assert_eq!(Some((i * 100).to_string().into_bytes()), val);
    }
    assert_eq!(None, storage.get(&"20000".to_string().into_bytes()));
}

#[test]
fn storage_compact_test() {
    let mut rng = rand::thread_rng();
    let mut hash_map = HashMap::new();
    let mut storage = LsmStorage::new(config("storage_test", 4096, 4));
    for _i in 0..100000 {
        let key: u32 = rng.gen::<u32>() % 500;
        let key = format!("kt_{}", key).into_bytes();
        let val = format!("vt_{}", rng.gen::<u32>()).into_bytes();
        hash_map.insert(key.clone(), val.clone());
        storage.insert(key.clone(), val.clone());
        let option = storage.get(&key);
        assert_eq!(val, option.unwrap());
    }
    for (key, val) in &hash_map {
        assert_eq!(*val, storage.get(key).unwrap());
    }
}

#[test]
fn compact_cycle_preserves_reads() {
    // a tiny buffer limit freezes the buffer on every insertion, and the
    // fourth table triggers one compaction cycle
    let mut storage = LsmStorage::new(config("storage_test", 8, 4));
    for _ in 0..4 {
        storage.insert(b"key".to_vec(), b"value".to_vec());
    }
    storage.insert(b"key2".to_vec(), b"value2".to_vec());
    assert_eq!(Some(b"value".to_vec()), storage.get(b"key"));
    assert_eq!(Some(b"value2".to_vec()), storage.get(b"key2"));
}

#[test]
fn delete_hides_and_reinsert_revives() {
    let mut storage = LsmStorage::new(config("storage_test", 4096, 4));
    storage.insert(b"key".to_vec(), b"value".to_vec());
    storage.delete(b"key");
    assert_eq!(None, storage.get(b"key"));
    storage.insert(b"key".to_vec(), b"value2".to_vec());
    assert_eq!(Some(b"value2".to_vec()), storage.get(b"key"));
}

#[test]
fn delete_masks_flushed_values() {
    // the tombstone in the buffer must mask values already flushed to
    // level-zero tables
    let mut storage = LsmStorage::new(config("storage_test", 32, 100));
    for i in 0..20 {
        storage.insert(format!("k{}", i).into_bytes(), format!("v{}", i).into_bytes());
    }
    storage.delete(b"k3");
    assert_eq!(None, storage.get(b"k3"));
    assert_eq!(Some(b"v4".to_vec()), storage.get(b"k4"));
}

#[test]
fn replay_restores_journalled_mutations() {
    // simulate a crash: keep only the journal bytes, drop the store, and
    // replay them into a fresh one
    let mut storage = LsmStorage::new(config("storage_test", 1 << 20, 4));
    for i in 0..100 {
        storage.insert(format!("k{}", i).into_bytes(), format!("v{}", i).into_bytes());
    }
    storage.delete(b"k7");
    let journal = storage.wal_bytes().clone();
    drop(storage);

    let log = storage_engine::wal::CommandLog::from_bytes(journal);
    let reopened = LsmStorage::load(config("storage_test", 1 << 20, 4), log, Vec::new()).unwrap();
    for i in 0..100 {
        if i == 7 {
            assert_eq!(None, reopened.get(b"k7"));
        } else {
            assert_eq!(
                Some(format!("v{}", i).into_bytes()),
                reopened.get(format!("k{}", i).into_bytes().as_slice())
            );
        }
    }
}
