use storage_engine::memtable::MemTable;
use storage_engine::wal::{CommandLog, LogRecord};

#[test]
fn size_after_insert() {
    let mut table: MemTable = MemTable::new();
    table.insert("key".as_bytes().to_vec(), "value".as_bytes().to_vec());
    assert_eq!(8, table.size_in_bytes());
    table.remove(&"key1".as_bytes().to_vec());
    assert_eq!(8, table.size_in_bytes());
    table.insert("key".as_bytes().to_vec(), "v".as_bytes().to_vec());
    assert_eq!(4, table.size_in_bytes());
    table.remove(&"key".as_bytes().to_vec());
    assert_eq!(0, table.size_in_bytes());
}

#[test]
fn restore_from_log() {
    let mut log: CommandLog = CommandLog::new();
    let records = vec![
        LogRecord::Insert("key".as_bytes().to_vec(), "value".as_bytes().to_vec()),
        LogRecord::Insert("key1".as_bytes().to_vec(), "value1".as_bytes().to_vec()),
        LogRecord::Insert("key2".as_bytes().to_vec(), "value2".as_bytes().to_vec()),
        LogRecord::Remove("key2".as_bytes().to_vec()),
    ];

    for record in records {
        log.log(&record);
    }
    let vec = log.bytes().clone();
    let mut log = CommandLog::from_bytes(vec);

    let table = MemTable::from_log(&mut log).unwrap();
    assert_eq!(
        table.get("key1".as_bytes().to_vec().as_ref()),
        Some("value1".as_bytes().to_vec().as_ref())
    );
}

#[test]
fn removal_replays_as_tombstone() {
    // a replayed removal leaves the same tombstone the live buffer held,
    // so it keeps masking older tables after a reload
    let mut log: CommandLog = CommandLog::new();
    let records = vec![
        LogRecord::Insert("key".as_bytes().to_vec(), "value".as_bytes().to_vec()),
        LogRecord::Insert("key2".as_bytes().to_vec(), "value2".as_bytes().to_vec()),
        LogRecord::Remove("key2".as_bytes().to_vec()),
    ];
    for record in records {
        log.log(&record);
    }
    let mut log = CommandLog::from_bytes(log.bytes().clone());
    let table = MemTable::from_log(&mut log).unwrap();
    assert_eq!(Some(&vec![0u8]), table.get("key2".as_bytes()));
    assert_eq!((3 + 5) + (4 + 1), table.size_in_bytes());
    assert_eq!(2, table.size());
}

#[test]
fn replacement_adjusts_counter_exactly() {
    let mut table: MemTable = MemTable::new();
    table.insert(b"alpha".to_vec(), b"one".to_vec());
    table.insert(b"beta".to_vec(), b"two".to_vec());
    assert_eq!(5 + 3 + 4 + 3, table.size_in_bytes());
    let prev = table.insert(b"alpha".to_vec(), b"longer-value".to_vec());
    assert_eq!(Some(b"one".to_vec()), prev);
    assert_eq!(5 + 12 + 4 + 3, table.size_in_bytes());
    assert_eq!(2, table.size());
}
