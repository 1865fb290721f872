use storage_engine::memtable::MemTable;
use storage_engine::wal::{CommandLog, LogRecord, WalError};

#[test]
fn write_insert_log_record() {
    let mut log: CommandLog = CommandLog::new();
    log.insert("key".as_bytes().to_vec().as_ref(), "value".as_bytes().to_vec().as_ref());
    let expected_record = LogRecord::Insert("key".as_bytes().to_vec(), "value".as_bytes().to_vec());
    let mut read_log = CommandLog::from_bytes(log.bytes().clone());
    let actual_record = read_log.next_record().unwrap();
    assert_eq!(expected_record, actual_record);
}

#[test]
fn write_remove_log_record() {
    let mut log: CommandLog = CommandLog::new();
    log.remove("key".as_bytes().to_vec().as_ref());
    let expected_record = LogRecord::Remove("key".as_bytes().to_vec());
    let mut read_log = CommandLog::from_bytes(log.bytes().clone());
    let actual_record = read_log.next_record().unwrap();
    assert_eq!(expected_record, actual_record);
}

#[test]
fn journal_round_trips_in_order() {
    let mut log: CommandLog = CommandLog::new();
    log.insert(b"a", b"1");
    log.remove(b"b");
    log.insert(b"c", b"3");
    let mut read_log = CommandLog::from_bytes(log.bytes().clone());
    assert_eq!(LogRecord::Insert(b"a".to_vec(), b"1".to_vec()), read_log.next_record().unwrap());
    assert_eq!(LogRecord::Remove(b"b".to_vec()), read_log.next_record().unwrap());
    assert_eq!(LogRecord::Insert(b"c".to_vec(), b"3".to_vec()), read_log.next_record().unwrap());
    assert_eq!(Err(WalError::UnexpectedEof), read_log.next_record());
}

#[test]
fn corrupted_checksum_is_reported() {
    let mut log: CommandLog = CommandLog::new();
    log.insert(b"key", b"value");
    let mut bytes = log.bytes().clone();
    // flip a payload byte: the stored checksum no longer matches
    let last = bytes.len() - 1;
    bytes[last] ^= 0xff;
    let mut read_log = CommandLog::from_bytes(bytes);
    match read_log.next_record() {
        Err(WalError::CorruptedData { .. }) => {}
        other => panic!("expected a corruption error, got {:?}", other),
    }
}

#[test]
fn bad_tag_is_reported() {
    let mut log: CommandLog = CommandLog::new();
    log.insert(b"key", b"value");
    let mut bytes = log.bytes().clone();
    bytes[0] = 7;
    let mut read_log = CommandLog::from_bytes(bytes);
    assert_eq!(Err(WalError::InvalidCommandType(7)), read_log.next_record());
}

#[test]
fn crc_mismatch_keeps_the_prefix() {
    // a mismatched checksum is taken for a crash mid-append: the entries
    // before it are preserved and the rest discarded
    let mut log: CommandLog = CommandLog::new();
    log.insert(b"key", b"value");
    let prefix_len = log.bytes().len();
    log.insert(b"key2", b"value2");
    let mut bytes = log.bytes().clone();
    let last = bytes.len() - 1;
    bytes[last] ^= 0xff;
    let mut read_log = CommandLog::from_bytes(bytes);
    let table = MemTable::from_log(&mut read_log).unwrap();
    assert_eq!(Some(&b"value".to_vec()), table.get(b"key"));
    assert_eq!(None, table.get(b"key2"));
    assert_eq!(1, table.size());
    assert!(prefix_len < read_log.bytes().len());
}

#[test]
fn truncated_tail_ends_replay_quietly() {
    let mut log: CommandLog = CommandLog::new();
    log.insert(b"key", b"value");
    log.insert(b"key2", b"value2");
    let mut bytes = log.bytes().clone();
    // simulate a crash mid-append: cut the second record short
    bytes.truncate(bytes.len() - 3);
    let mut read_log = CommandLog::from_bytes(bytes);
    let table = MemTable::from_log(&mut read_log).unwrap();
    assert_eq!(Some(&b"value".to_vec()), table.get(b"key"));
    assert_eq!(None, table.get(b"key2"));
}
