use tokimo_kvdb::wal::{frame, take_record, Wal};
use tokimo_kvdb::{FileOp, KvdbError, WalRecordHeader, WalRecordType};

fn log_of(wal: &Wal) -> Vec<u8> {
    wal.contents().clone()
}

#[test]
fn test_wal_basic_operations() {
    let log = {
        let mut wal = Wal::new("test.db", Vec::new()).unwrap();
        wal.log_insert(b"key1", b"value1").unwrap();
        wal.log_insert(b"key2", b"value2").unwrap();
        wal.log_delete(b"key1").unwrap();
        wal.log_commit().unwrap();
        log_of(&wal)
    };

    {
        let mut wal = Wal::new("test.db", log).unwrap();
        let records = wal.read_all().unwrap();
        assert_eq!(records.len(), 4);
        assert_eq!(records[0].record_type, WalRecordType::Insert);
        assert_eq!(records[0].key, b"key1");
        assert_eq!(records[0].value.as_deref(), Some(b"value1".as_slice()));
        assert_eq!(records[1].record_type, WalRecordType::Insert);
        assert_eq!(records[2].record_type, WalRecordType::Delete);
        assert_eq!(records[3].record_type, WalRecordType::Commit);
    }
}

#[test]
fn test_wal_checksum_corruption() {
    let mut log = {
        let mut wal = Wal::new("test.db", Vec::new()).unwrap();
        wal.log_insert(b"key", b"value").unwrap();
        log_of(&wal)
    };

    // Corrupt the checksum
    log[0..4].copy_from_slice(&[0xFF, 0xFF, 0xFF, 0xFF]);

    {
        let mut wal = Wal::new("test.db", log).unwrap();
        let result = wal.read_all();
        assert!(matches!(result, Err(KvdbError::WalCorrupted)));
    }
}

#[test]
fn test_wal_truncated_value() {
    let mut log = {
        let mut wal = Wal::new("test.db", Vec::new()).unwrap();
        wal.log_insert(b"key", b"value").unwrap();
        log_of(&wal)
    };

    // Truncate the file
    let len = log.len();
    log.truncate(len - 2);

    {
        let mut wal = Wal::new("test.db", log).unwrap();
        let result = wal.read_all();
        assert!(matches!(result, Err(KvdbError::WalCorrupted)));
    }
}

#[test]
fn test_wal_clear() {
    let mut wal = Wal::new("test.db", Vec::new()).unwrap();
    wal.log_insert(b"key", b"value").unwrap();
    wal.clear().unwrap();

    let records = wal.read_all().unwrap();
    assert!(records.is_empty());
}

#[test]
fn the_checksum_is_that_of_zip_and_png() {
    let mut wal = Wal::new("x", Vec::new()).unwrap();
    wal.log_commit().unwrap();
    let log = log_of(&wal);
    assert_eq!(&log[4..], &[3, 0, 0, 0, 0, 0, 0]);
    assert_eq!(&log[0..4], &reckoned(&log[4..]).to_le_bytes());
    assert_eq!(crc32fast::hash(b"123456789"), 0xCBF4_3926);
    assert_eq!(reckoned(b"123456789"), 0xCBF4_3926);
}

/// The checksum, reckoned bit by bit.
fn reckoned(data: &[u8]) -> u32 {
    let mut crc = 0xFFFF_FFFFu32;
    for b in data {
        crc ^= *b as u32;
        for _ in 0..8 {
            crc = if crc & 1 == 1 { (crc >> 1) ^ 0xEDB8_8320 } else { crc >> 1 };
        }
    }
    !crc
}

#[test]
fn the_checksum_is_the_one_reckoned_bit_by_bit() {
    let data: Vec<u8> = (0..5000u32).map(|i| (i * i / 7 + i) as u8).collect();
    for n in (0..300).chain([511, 512, 1023, 1024, 1025, 4095, 4096, 5000]) {
        assert_eq!(crc32fast::hash(&data[..n]), reckoned(&data[..n]));
    }
    let mut wal = Wal::new("x", Vec::new()).unwrap();
    wal.log_insert(&data[..100], &data[100..2148]).unwrap();
    let log = log_of(&wal);
    assert_eq!(&log[0..4], &reckoned(&log[4..]).to_le_bytes());
}

#[test]
fn a_record_is_framed_with_its_lengths() {
    let r = frame(WalRecordType::Insert, b"ab", Some(b"xyz"), 0x04030201);
    assert_eq!(r, vec![1, 2, 3, 4, 1, 2, 0, 3, 0, 0, 0, b'a', b'b', b'x', b'y', b'z']);
    let r = frame(WalRecordType::Delete, b"ab", None, 0);
    assert_eq!(r, vec![0, 0, 0, 0, 2, 2, 0, 0, 0, 0, 0, b'a', b'b']);
    let h = WalRecordHeader::from_bytes(&r);
    assert_eq!(h.record_type, WalRecordType::Delete);
    assert_eq!({ h.key_len }, 2);
    assert_eq!(h.as_bytes(), r[0..11].to_vec());
}

#[test]
fn a_record_counts_if_its_checksum_does() {
    let r = frame(WalRecordType::Insert, b"ab", Some(b"xyz"), 77);
    let rec = take_record(&r, 0, r.len(), 77).unwrap();
    assert_eq!(rec.key, b"ab");
    assert_eq!(rec.value, Some(b"xyz".to_vec()));
    assert!(matches!(take_record(&r, 0, r.len(), 78), Err(KvdbError::WalCorrupted)));
}

#[test]
fn a_torn_header_ends_the_log() {
    let mut wal = Wal::new("x", Vec::new()).unwrap();
    wal.log_insert(b"a", b"1").unwrap();
    wal.log_abort().unwrap();
    let mut log = log_of(&wal);
    let whole = log.len();
    log.truncate(whole - 1);
    let mut wal = Wal::new("x", log).unwrap();
    let records = wal.read_all().unwrap();
    assert_eq!(records.len(), 1);
    assert_eq!(records[0].key, b"a");
}

#[test]
fn an_empty_value_is_read_as_none() {
    let mut wal = Wal::new("x", Vec::new()).unwrap();
    wal.log_insert(b"a", b"").unwrap();
    let records = wal.read_all().unwrap();
    assert_eq!(records[0].record_type, WalRecordType::Insert);
    assert_eq!(records[0].value, None);
}

#[test]
fn an_unknown_record_type_spoils_the_log() {
    let mut wal = Wal::new("x", Vec::new()).unwrap();
    wal.log_commit().unwrap();
    let mut log = log_of(&wal);
    log[4] = 9;
    assert!(matches!(Wal::new("x", log).unwrap().read_all(), Err(KvdbError::WalCorrupted)));
}

#[test]
fn a_truncated_key_spoils_the_log() {
    let mut wal = Wal::new("x", Vec::new()).unwrap();
    wal.log_delete(b"abcdef").unwrap();
    let mut log = log_of(&wal);
    log.truncate(14);
    assert!(matches!(Wal::new("x", log).unwrap().read_all(), Err(KvdbError::WalCorrupted)));
}

#[test]
fn changes_to_the_log_are_handed_over() {
    let mut wal = Wal::new("dir/my.db", vec![7]).unwrap();
    assert_eq!(wal.file_path(), "dir/my.db.wal");
    assert_eq!(wal.end(), 1);
    wal.log_delete(b"k").unwrap();
    wal.sync().unwrap();
    wal.clear().unwrap();
    let ops = wal.take_pending();
    assert_eq!(ops.len(), 3);
    assert!(matches!(&ops[0], FileOp::Write { offset: 1, data } if data.len() == 12));
    assert!(matches!(ops[1], FileOp::Sync));
    assert!(matches!(ops[2], FileOp::SetLen { len: 0 }));
    assert_eq!(wal.end(), 0);
}
