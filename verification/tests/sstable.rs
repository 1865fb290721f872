use std::collections::BTreeMap;

use storage_engine::checksums::Checksums;
use storage_engine::memtable::MemTable;
use storage_engine::sstable::{LoadError, SsTable};
use storage_engine::sstable_metadata::SsTableMetadata;

fn filled_memtable(from: i32, to: i32) -> MemTable {
    let mut memtable = MemTable::new();
    for i in from..to {
        let val = i * 100;
        memtable.insert(i.to_string().into_bytes(), val.to_string().into_bytes());
    }
    memtable
}

#[test]
fn sstable_test() {
    let memtable = filled_memtable(0, 500);
    let sstable = SsTable::from_memtable("storage_test", &memtable);
    for i in 0..500 {
        let val = sstable.get(&i.to_string().into_bytes());
        assert_eq!(true, val.is_some());
        assert_eq!((i * 100).to_string().into_bytes(), val.unwrap());
    }
    assert_eq!(None, sstable.get(&"1000".to_string().into_bytes()));
}

#[test]
fn sstable_iterator_test() {
    let mut entries = Vec::new();
    let mut memtable = MemTable::new();
    for i in 1..500 {
        let val = i * 100;
        let key = i.to_string().into_bytes();
        let val = val.to_string().into_bytes();
        entries.push((key.clone(), val.clone()));
        memtable.insert(key, val);
    }
    let sstable = SsTable::from_memtable("storage_test", &memtable);
    let mut i = 0;
    entries.sort_by(|a, b| a.0.cmp(&b.0));
    for kv in sstable.records() {
        assert_eq!(entries[i].0, kv.key);
        assert_eq!(entries[i].1, kv.value);
        i += 1;
    }
    assert_eq!(entries.len(), i);
}

/// The five persisted images of a table, as the embedding program would
/// write and read them back.
fn table_images(table: &SsTable) -> (SsTableMetadata, Vec<u8>, Vec<(Vec<u8>, u64)>, Vec<u8>, Checksums) {
    let m = table.metadata_ref();
    let metadata = SsTableMetadata {
        base_path: m.base_path.clone(),
        id: m.id,
        level: m.level,
        metadata_filename: m.metadata_filename.clone(),
        checksum_filename: m.checksum_filename.clone(),
        data_filename: m.data_filename.clone(),
        index_filename: m.index_filename.clone(),
        bloom_filter_filename: m.bloom_filter_filename.clone(),
    };
    let data = table.data_ref().clone();
    let ix = table.index_ref();
    let mut index_entries: Vec<(Vec<u8>, u64)> = Vec::new();
    let mut index_map: BTreeMap<Vec<u8>, u64> = BTreeMap::new();
    for t in 0..ix.len() {
        let (k, p) = ix.entry_at(t);
        index_entries.push((k.clone(), p));
        index_map.insert(k, p);
    }
    let index_bytes = bincode::serialize(&index_map).unwrap();
    let checksums = Checksums::new(data.as_slice(), index_bytes.as_slice());
    (metadata, data, index_entries, index_bytes, checksums)
}

#[test]
fn sstable_load_from_file_test() {
    let memtable = filled_memtable(0, 500);
    let table = SsTable::from_memtable("storage_test", &memtable);
    let (metadata, data, index_entries, index_bytes, checksums) = table_images(&table);
    let sstable =
        SsTable::load(metadata, data, index_entries, &checksums, &index_bytes).unwrap();
    for i in 0..500 {
        let val = sstable.get(&i.to_string().into_bytes());
        assert_eq!(true, val.is_some());
        assert_eq!((i * 100).to_string().into_bytes(), val.unwrap());
    }
}

#[test]
fn load_refuses_checksum_mismatch() {
    let memtable = filled_memtable(0, 50);
    let table = SsTable::from_memtable("storage_test", &memtable);
    let (metadata, mut data, index_entries, index_bytes, checksums) = table_images(&table);
    data[10] ^= 0xff;
    let r = SsTable::load(metadata, data, index_entries, &checksums, &index_bytes);
    match r {
        Err(LoadError::ChecksumMismatch) => {}
        _ => panic!("a tampered data image must be refused"),
    }
}

#[test]
fn load_refuses_bad_index_offset() {
    let memtable = filled_memtable(0, 50);
    let table = SsTable::from_memtable("storage_test", &memtable);
    let (metadata, data, mut index_entries, index_bytes, checksums) = table_images(&table);
    index_entries[0].1 += 1;
    let r = SsTable::load(metadata, data, index_entries, &checksums, &index_bytes);
    match r {
        Err(LoadError::CorruptIndex) => {}
        _ => panic!("an index pointing between records must be refused"),
    }
}

#[test]
fn filter_has_no_false_negatives_and_few_false_positives() {
    let memtable = filled_memtable(0, 500);
    let table = SsTable::from_memtable("storage_test", &memtable);
    let bloom = table.bloom_filter_ref();
    for i in 0..500 {
        assert!(bloom.contains(&i.to_string().into_bytes()));
    }
    let mut false_positives = 0;
    let trials = 2000;
    for i in 0..trials {
        let key = format!("absent_{}", i).into_bytes();
        if bloom.contains(&key) {
            false_positives += 1;
        }
    }
    // the filter targets a one-percent rate; two percent is the loose bound
    assert!(false_positives * 50 <= trials, "rate too high: {}/{}", false_positives, trials);
}

#[test]
fn checksums_verify_and_detect_tampering() {
    let data = b"some data image".to_vec();
    let index = b"some index image".to_vec();
    let sums = Checksums::new(data.as_slice(), index.as_slice());
    assert!(sums.verify(data.as_slice(), index.as_slice()));
    let mut tampered = data.clone();
    tampered[0] ^= 1;
    assert!(!sums.verify(tampered.as_slice(), index.as_slice()));
}
