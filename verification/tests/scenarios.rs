use std::collections::BTreeMap;

use storage_engine::checksums::Checksums;
use storage_engine::command::Command;
use storage_engine::config::Config;
use storage_engine::sstable::SsTable;
use storage_engine::sstable_metadata::SsTableMetadata;
use storage_engine::wal::CommandLog;
use storage_engine::LsmStorage;

/// Reloads one table from its persisted images, as an embedding program
/// would after writing the five files and reading them back.
fn reload_table(table: &SsTable) -> SsTable {
    let m = table.metadata_ref();
    let metadata = SsTableMetadata {
        base_path: m.base_path.clone(),
        id: m.id,
        level: m.level,
        metadata_filename: m.metadata_filename.clone(),
        checksum_filename: m.checksum_filename.clone(),
        data_filename: m.data_filename.clone(),
        index_filename: m.index_filename.clone(),
        bloom_filter_filename: m.bloom_filter_filename.clone(),
    };
    let data = table.data_ref().clone();
    let ix = table.index_ref();
    let mut index_entries: Vec<(Vec<u8>, u64)> = Vec::new();
    let mut index_map: BTreeMap<Vec<u8>, u64> = BTreeMap::new();
    for t in 0..ix.len() {
        let (k, p) = ix.entry_at(t);
        index_entries.push((k.clone(), p));
        index_map.insert(k, p);
    }
    let index_bytes = bincode::serialize(&index_map).unwrap();
    let checksums = Checksums::new(data.as_slice(), index_bytes.as_slice());
    SsTable::load(metadata, data, index_entries, &checksums, &index_bytes).unwrap()
}

/// Table identifiers are wall-clock milliseconds; reloading orders tables
/// by identifier, so two tables born in the same millisecond tie. Waiting
/// for the clock to move after each flush keeps the identifiers distinct.
fn let_clock_tick() {
    let start = std::time::SystemTime::now()
        .duration_since(std::time::UNIX_EPOCH)
        .unwrap()
        .as_millis();
    loop {
        let now = std::time::SystemTime::now()
            .duration_since(std::time::UNIX_EPOCH)
            .unwrap()
            .as_millis();
        if now > start {
            break;
        }
    }
}

#[test]
fn reopened_store_reads_as_before() {
    let config = Config::new("storage_test".to_string(), 256, 100);
    let mut storage = LsmStorage::new(config);
    for i in 0..200 {
        storage.insert(format!("k{}", i).into_bytes(), format!("v{}", i).into_bytes());
        if storage.memtable_size_in_bytes() == 0 {
            let_clock_tick();
        }
    }
    // the removal's tombstone stays in the buffer: the journal alone must
    // carry it across the reload
    storage.delete(b"k13");

    // persist: every table of every level, plus the journal bytes
    let mut tables: Vec<SsTable> = Vec::new();
    for level in 0..5 {
        for j in 0..storage.level_len(level) {
            tables.push(reload_table(storage.table_at(level, j)));
        }
    }
    let journal = storage.wal_bytes().clone();
    drop(storage);

    let config = Config::new("storage_test".to_string(), 256, 100);
    let reopened =
        LsmStorage::load(config, CommandLog::from_bytes(journal), tables).unwrap();
    for i in 0..200 {
        let key = format!("k{}", i).into_bytes();
        if i == 13 {
            assert_eq!(None, reopened.get(&key));
        } else {
            assert_eq!(Some(format!("v{}", i).into_bytes()), reopened.get(&key));
        }
    }
    assert_eq!(None, reopened.get(b"never-written"));
}

#[test]
fn command_parse_recognises_the_four_operations() {
    match Command::parse(b"get somekey\n") {
        Command::Get(k) => assert_eq!(b"somekey".to_vec(), k),
        _ => panic!("expected a get"),
    }
    match Command::parse(b"insert a b\n") {
        Command::Insert(k, v) => {
            assert_eq!(b"a".to_vec(), k);
            assert_eq!(b"b".to_vec(), v);
        }
        _ => panic!("expected an insert"),
    }
    match Command::parse(b"update a c\n") {
        Command::Update(k, v) => {
            assert_eq!(b"a".to_vec(), k);
            assert_eq!(b"c".to_vec(), v);
        }
        _ => panic!("expected an update"),
    }
    match Command::parse(b"delete a\n") {
        Command::Delete(k) => assert_eq!(b"a".to_vec(), k),
        _ => panic!("expected a delete"),
    }
}

#[test]
fn command_parse_rejects_the_rest() {
    assert!(matches!(Command::parse(b""), Command::NotSupported));
    assert!(matches!(Command::parse(b"   \n"), Command::NotSupported));
    assert!(matches!(Command::parse(b"frobnicate a b"), Command::NotSupported));
    assert!(matches!(Command::parse(b"get"), Command::NotSupported));
    assert!(matches!(Command::parse(b"insert onlykey"), Command::NotSupported));
}

#[test]
fn metadata_names_carry_the_identifier() {
    let m = SsTableMetadata::with_id("base".to_string(), 2, 1234567890);
    assert_eq!("metadata_1234567890.db", m.metadata_filename.as_str());
    assert_eq!("checksum_1234567890.db", m.checksum_filename.as_str());
    assert_eq!("data_1234567890.db", m.data_filename.as_str());
    assert_eq!("index_1234567890.db", m.index_filename.as_str());
    assert_eq!("bloom_1234567890.db", m.bloom_filter_filename.as_str());
    assert_eq!("base/level-2/data_1234567890.db", m.data_path().as_str());
    assert_eq!("base/level-2/metadata_1234567890.db", m.metadata_path().as_str());
}

#[test]
fn sparse_index_bounds_the_scan_window() {
    let mut ix = storage_engine::sstable_index::SstableIndex::new();
    ix.insert(b"b".to_vec(), 10);
    ix.insert(b"f".to_vec(), 50);
    ix.insert(b"m".to_vec(), 90);
    assert_eq!(Some(50), ix.get(b"f"));
    assert_eq!(None, ix.get(b"g"));
    assert_eq!((50, 90), ix.position_range(b"g", 120));
    assert_eq!((0, 10), ix.position_range(b"a", 120));
    assert_eq!((90, 120), ix.position_range(b"z", 120));
    assert_eq!((10, 50), ix.position_range(b"c", 120));
}
