use rand::Rng;
use tokimo_kvdb::wal::Wal;
use tokimo_kvdb::{Database, FileOp, KvdbError, Options, Request, PAGE_SIZE};

/// The files of a database.
#[derive(Clone, Default)]
struct Disk {
    data: Vec<u8>,
    log: Vec<u8>,
}

fn change(file: &mut Vec<u8>, op: FileOp) {
    match op {
        FileOp::Write { offset, data } => {
            let end = offset as usize + data.len();
            if file.len() < end {
                file.resize(end, 0);
            }
            file[offset as usize..end].copy_from_slice(&data);
        }
        FileOp::SetLen { len } => file.resize(len as usize, 0),
        FileOp::Sync => {}
    }
}

fn carry_out(disk: &mut Disk, requests: Vec<Request>) {
    for request in requests {
        match request {
            Request::Data(op) => change(&mut disk.data, op),
            Request::Log(op) => change(&mut disk.log, op),
            Request::Replace(bytes) => disk.data = bytes,
        }
    }
}

fn open(disk: &mut Disk) -> Database {
    let mut db =
        Database::open("test.db", Options::default(), disk.data.clone(), disk.log.clone()).unwrap();
    carry_out(disk, db.take_requests());
    db
}

fn close(disk: &mut Disk, db: Database) {
    let requests = db.close().unwrap();
    carry_out(disk, requests);
}

#[test]
fn test_basic_operations() {
    let mut disk = Disk::default();
    let mut db = open(&mut disk);

    db.put(b"hello", b"world").unwrap();
    db.put(b"foo", b"bar").unwrap();
    db.put(b"number", b"42").unwrap();

    assert_eq!(db.get(b"hello").unwrap(), Some(b"world".to_vec()));
    assert_eq!(db.get(b"foo").unwrap(), Some(b"bar".to_vec()));
    assert_eq!(db.get(b"number").unwrap(), Some(b"42".to_vec()));
    assert_eq!(db.get(b"missing").unwrap(), None);

    db.delete(b"foo").unwrap();
    assert_eq!(db.get(b"foo").unwrap(), None);

    db.close().unwrap();
}

#[test]
fn test_transaction_commit() {
    let mut disk = Disk::default();
    let mut db = open(&mut disk);

    db.begin_transaction().unwrap();
    db.put(b"tx_key1", b"tx_val1").unwrap();
    db.put(b"tx_key2", b"tx_val2").unwrap();
    db.commit().unwrap();

    assert_eq!(db.get(b"tx_key1").unwrap(), Some(b"tx_val1".to_vec()));
    assert_eq!(db.get(b"tx_key2").unwrap(), Some(b"tx_val2".to_vec()));

    db.close().unwrap();
}

#[test]
fn test_repeated_updates() {
    let mut disk = Disk::default();
    let mut db = open(&mut disk);

    db.put(b"key", b"version1").unwrap();
    assert_eq!(db.get(b"key").unwrap(), Some(b"version1".to_vec()));

    db.put(b"key", b"version2").unwrap();
    assert_eq!(db.get(b"key").unwrap(), Some(b"version2".to_vec()));

    db.put(b"key", b"version3").unwrap();
    assert_eq!(db.get(b"key").unwrap(), Some(b"version3".to_vec()));

    db.close().unwrap();
}

#[test]
fn test_replay_committed_wal_on_open() {
    let mut disk = Disk::default();

    // Write data and simulate crash (no proper close)
    {
        let mut db = open(&mut disk);
        db.put(b"persist_key", b"persist_val").unwrap();
        carry_out(&mut disk, db.take_requests());
        // db.close() not called — simulates crash after WAL commit
    }

    // Reopen and verify data persisted via WAL replay
    {
        let mut db = open(&mut disk);
        assert_eq!(db.get(b"persist_key").unwrap(), Some(b"persist_val".to_vec()));
        close(&mut disk, db);
    }
}

#[test]
fn test_ignore_uncommitted_wal_on_open() {
    let mut disk = Disk::default();

    // Create empty database
    {
        let db = open(&mut disk);
        close(&mut disk, db);
    }

    // Write WAL records without commit
    {
        let mut wal = Wal::new("test.db", disk.log.clone()).unwrap();
        wal.log_insert(b"uncommitted", b"data").unwrap();
        disk.log = wal.contents().clone();
        // No commit!
    }

    // Reopen — uncommitted data should be discarded
    {
        let mut db = open(&mut disk);
        assert_eq!(db.get(b"uncommitted").unwrap(), None);
        close(&mut disk, db);
    }
    assert!(disk.log.is_empty());
}

#[test]
fn test_ignore_aborted_wal_on_open() {
    let mut disk = Disk::default();

    // Create empty database
    {
        let db = open(&mut disk);
        close(&mut disk, db);
    }

    // Write WAL records with abort
    {
        let mut wal = Wal::new("test.db", disk.log.clone()).unwrap();
        wal.log_insert(b"aborted_key", b"aborted_val").unwrap();
        wal.log_abort().unwrap();
        disk.log = wal.contents().clone();
    }

    // Reopen — aborted data should be discarded
    {
        let mut db = open(&mut disk);
        assert_eq!(db.get(b"aborted_key").unwrap(), None);
        close(&mut disk, db);
    }
}

#[test]
fn test_replay_delete_on_open() {
    let mut disk = Disk::default();

    {
        let mut db = open(&mut disk);
        db.put(b"to_delete", b"value").unwrap();
        db.put(b"to_keep", b"keeper").unwrap();
        close(&mut disk, db);
    }

    {
        let mut db = open(&mut disk);
        db.delete(b"to_delete").unwrap();
        carry_out(&mut disk, db.take_requests());
        // Don't close cleanly
    }

    {
        let mut db = open(&mut disk);
        assert_eq!(db.get(b"to_delete").unwrap(), None);
        assert_eq!(db.get(b"to_keep").unwrap(), Some(b"keeper".to_vec()));
        close(&mut disk, db);
    }
}

#[test]
fn test_compact_preserves_data() {
    let mut disk = Disk::default();
    let mut db = open(&mut disk);

    db.put(b"key1", b"val1").unwrap();
    db.put(b"key2", b"val2").unwrap();
    db.put(b"key3", b"val3").unwrap();

    db.compact().unwrap();

    assert_eq!(db.get(b"key1").unwrap(), Some(b"val1".to_vec()));
    assert_eq!(db.get(b"key2").unwrap(), Some(b"val2".to_vec()));
    assert_eq!(db.get(b"key3").unwrap(), Some(b"val3".to_vec()));

    close(&mut disk, db);
    let mut db = open(&mut disk);
    assert_eq!(db.iter().unwrap().len(), 3);
}

#[test]
fn test_verify_healthy_database() {
    let mut disk = Disk::default();
    let mut db = open(&mut disk);

    for i in 0..20u32 {
        db.put(format!("k{:04}", i).as_bytes(), format!("v{:04}", i).as_bytes()).unwrap();
    }

    let stats = db.verify().unwrap();
    assert!(stats.checked_tree_pages > 0);
    assert_eq!(stats.checked_entries, 20);

    db.close().unwrap();
}

#[test]
fn test_inspect_fresh_database() {
    let mut disk = Disk::default();
    let mut db = open(&mut disk);

    let stats = db.inspect().unwrap();
    assert_eq!(stats.entry_count, 0);
    assert!(stats.page_count >= 2); // at least meta + root
    assert_eq!(stats.page_size, PAGE_SIZE as u32);

    db.close().unwrap();
}

#[test]
fn test_inspect_multi_level_tree() {
    let mut disk = Disk::default();
    let mut db = open(&mut disk);

    for i in 0..200u32 {
        db.put(format!("k{:05}", i).as_bytes(), format!("v{:05}", i).as_bytes()).unwrap();
    }

    let stats = db.inspect().unwrap();
    assert_eq!(stats.entry_count, 200);
    assert!(stats.tree_height >= 2);
    assert!(stats.internal_count > 0);

    db.close().unwrap();
}

#[test]
fn test_export_import_round_trip() {
    let mut db1 = open(&mut Disk::default());
    db1.put(b"alpha", b"one").unwrap();
    db1.put(b"beta", b"two").unwrap();
    db1.put(b"gamma", b"three").unwrap();

    let mut export_buf = Vec::new();
    let exported = db1.export_to_writer(&mut export_buf).unwrap();
    assert_eq!(exported, 3);

    let mut db2 = open(&mut Disk::default());
    let imported = db2.import_from_reader(&export_buf).unwrap();
    assert_eq!(imported, 3);

    assert_eq!(db2.get(b"alpha").unwrap(), Some(b"one".to_vec()));
    assert_eq!(db2.get(b"beta").unwrap(), Some(b"two".to_vec()));
    assert_eq!(db2.get(b"gamma").unwrap(), Some(b"three".to_vec()));

    db1.close().unwrap();
    db2.close().unwrap();
}

#[test]
fn test_export_import_binary_payloads() {
    let mut db1 = open(&mut Disk::default());
    let binary_key = vec![0x00, 0xFF, 0x80, 0x01];
    let binary_val = vec![0xDE, 0xAD, 0xBE, 0xEF];
    db1.put(&binary_key, &binary_val).unwrap();

    let mut export_buf = Vec::new();
    db1.export_to_writer(&mut export_buf).unwrap();

    let mut db2 = open(&mut Disk::default());
    db2.import_from_reader(&export_buf).unwrap();

    assert_eq!(db2.get(&binary_key).unwrap(), Some(binary_val));

    db1.close().unwrap();
    db2.close().unwrap();
}

#[test]
fn test_export_import_empty_database() {
    let mut db1 = open(&mut Disk::default());
    let mut export_buf = Vec::new();
    let exported = db1.export_to_writer(&mut export_buf).unwrap();
    assert_eq!(exported, 0);

    let mut db2 = open(&mut Disk::default());
    let imported = db2.import_from_reader(&export_buf).unwrap();
    assert_eq!(imported, 0);

    db1.close().unwrap();
    db2.close().unwrap();
}

#[test]
fn test_import_overwrites_existing() {
    let mut db1 = open(&mut Disk::default());
    db1.put(b"key", b"new_value").unwrap();

    let mut export_buf = Vec::new();
    db1.export_to_writer(&mut export_buf).unwrap();

    let mut db2 = open(&mut Disk::default());
    db2.put(b"key", b"old_value").unwrap();

    db2.import_from_reader(&export_buf).unwrap();

    assert_eq!(db2.get(b"key").unwrap(), Some(b"new_value".to_vec()));

    db1.close().unwrap();
    db2.close().unwrap();
}

#[test]
fn test_randomized_sequences() {
    let mut disk = Disk::default();
    let mut db = open(&mut disk);
    let mut model = std::collections::HashMap::new();
    let mut rng = rand::thread_rng();

    for _ in 0..500 {
        let key = format!("rk_{:04}", rng.gen_range(0..100u32));
        let value = format!("rv_{:08}", rng.gen::<u32>());

        if rng.gen_bool(0.8) {
            db.put(key.as_bytes(), value.as_bytes()).unwrap();
            model.insert(key, value);
        } else if model.contains_key(&key) {
            match db.delete(key.as_bytes()) {
                Ok(()) => {
                    model.remove(&key);
                }
                Err(KvdbError::NodeEmpty) => {} // Expected for some tree shapes
                Err(e) => panic!("unexpected error: {:?}", e),
            }
        }
    }

    // Verify model matches database
    for (key, value) in &model {
        assert_eq!(
            db.get(key.as_bytes()).unwrap(),
            Some(value.as_bytes().to_vec()),
            "mismatch for key: {}",
            key
        );
    }

    // And so does what the files hold
    close(&mut disk, db);
    let mut db = open(&mut disk);
    assert!(db.is_sound());
    assert_eq!(db.iter().unwrap().len(), model.len());
    for (key, value) in db.iter().unwrap() {
        let key = String::from_utf8(key).unwrap();
        assert_eq!(model[&key].as_bytes(), &value[..]);
    }
}

#[test]
fn test_replay_mixed_wal_batches() {
    let mut disk = Disk::default();

    // Create DB with initial data
    {
        let mut db = open(&mut disk);
        db.put(b"existing", b"data").unwrap();
        close(&mut disk, db);
    }

    // Write mixed WAL operations
    {
        let mut wal = Wal::new("test.db", disk.log.clone()).unwrap();
        // Committed batch
        wal.log_insert(b"batch1_key", b"batch1_val").unwrap();
        wal.log_commit().unwrap();
        // Uncommitted batch (should be discarded)
        wal.log_insert(b"batch2_key", b"batch2_val").unwrap();
        // No commit for batch 2
        disk.log = wal.contents().clone();
    }

    // Reopen — only committed batch should be applied
    {
        let mut db = open(&mut disk);
        assert_eq!(db.get(b"existing").unwrap(), Some(b"data".to_vec()));
        assert_eq!(db.get(b"batch1_key").unwrap(), Some(b"batch1_val".to_vec()));
        assert_eq!(db.get(b"batch2_key").unwrap(), None);
        close(&mut disk, db);
    }
}

#[test]
fn test_replay_is_idempotent() {
    let mut disk = Disk::default();

    {
        let mut db = open(&mut disk);
        db.put(b"idem_key", b"idem_val").unwrap();
        close(&mut disk, db);
    }

    // Reopen multiple times — each should see the same data
    for _ in 0..3 {
        let mut db = open(&mut disk);
        assert_eq!(db.get(b"idem_key").unwrap(), Some(b"idem_val".to_vec()));
        close(&mut disk, db);
    }
}

#[test]
fn test_iterator() {
    let mut disk = Disk::default();
    let mut db = open(&mut disk);

    db.put(b"charlie", b"3").unwrap();
    db.put(b"alpha", b"1").unwrap();
    db.put(b"bravo", b"2").unwrap();

    let entries = db.iter().unwrap();
    let keys: Vec<String> =
        entries.iter().map(|(k, _)| String::from_utf8(k.clone()).unwrap()).collect();
    assert_eq!(keys, vec!["alpha", "bravo", "charlie"]);

    db.close().unwrap();
}

#[test]
fn a_put_is_logged_then_written_then_cleared() {
    let mut disk = Disk::default();
    let mut db = open(&mut disk);
    db.put(b"k", b"v").unwrap();
    let requests = db.take_requests();
    assert_eq!(requests.len(), 5);
    assert!(matches!(&requests[0], Request::Log(FileOp::Write { offset: 0, data }) if data.len() == 13));
    assert!(matches!(&requests[1], Request::Log(FileOp::Write { offset: 13, data }) if data.len() == 11));
    assert!(matches!(&requests[2], Request::Data(FileOp::Write { offset: 4096, .. })));
    assert!(matches!(&requests[3], Request::Data(FileOp::Sync)));
    assert!(matches!(&requests[4], Request::Log(FileOp::SetLen { len: 0 })));
    carry_out(&mut disk, requests);
    assert!(disk.log.is_empty());
    assert_eq!(disk.data.len(), 2 * PAGE_SIZE);
    assert_eq!(open(&mut disk).get(b"k").unwrap(), Some(b"v".to_vec()));
}

#[test]
fn without_a_log_nothing_is_logged() {
    let options = Options { enable_wal: false };
    let mut db = Database::open("x", options, Vec::new(), b"not a log".to_vec()).unwrap();
    db.take_requests();
    db.put(b"k", b"v").unwrap();
    db.begin_transaction().unwrap();
    db.put(b"l", b"w").unwrap();
    db.commit().unwrap();
    let requests = db.take_requests();
    assert!(requests.iter().all(|r| matches!(r, Request::Data(_))));
    assert_eq!(db.verify().unwrap().checked_wal_records, 0);
}

#[test]
fn an_aborted_transaction_leaves_nothing() {
    let mut disk = Disk::default();
    let mut db = open(&mut disk);
    db.put(b"kept", b"1").unwrap();
    db.begin_transaction().unwrap();
    for i in 0..100u32 {
        db.put(format!("{:04}", i).as_bytes(), b"gone").unwrap();
    }
    db.put(b"kept", b"2").unwrap();
    db.delete(b"kept").unwrap();
    db.abort().unwrap();
    assert_eq!(db.iter().unwrap(), vec![(b"kept".to_vec(), b"1".to_vec())]);
    assert_eq!(db.stats().unwrap().page_count, 2);
    db.put(b"next", b"3").unwrap();
    close(&mut disk, db);
    assert!(disk.log.is_empty());
    let mut db = open(&mut disk);
    assert_eq!(
        db.iter().unwrap(),
        vec![(b"kept".to_vec(), b"1".to_vec()), (b"next".to_vec(), b"3".to_vec())]
    );
}

#[test]
fn transactions_do_not_nest() {
    let mut db = open(&mut Disk::default());
    assert_eq!(db.commit(), Err(KvdbError::NoActiveTransaction));
    assert_eq!(db.abort(), Err(KvdbError::NoActiveTransaction));
    db.begin_transaction().unwrap();
    assert_eq!(db.begin_transaction(), Err(KvdbError::TransactionAlreadyActive));
    db.commit().unwrap();
    assert_eq!(db.commit(), Err(KvdbError::NoActiveTransaction));
    db.begin_transaction().unwrap();
    db.abort().unwrap();
    assert_eq!(db.abort(), Err(KvdbError::NoActiveTransaction));
}

#[test]
fn a_crash_in_a_transaction_leaves_nothing() {
    let mut disk = Disk::default();
    let mut db = open(&mut disk);
    db.put(b"a", b"1").unwrap();
    db.begin_transaction().unwrap();
    db.put(b"b", b"2").unwrap();
    db.delete(b"a").unwrap();
    carry_out(&mut disk, db.take_requests());
    assert!(!disk.log.is_empty());
    let mut db = open(&mut disk);
    assert_eq!(db.iter().unwrap(), vec![(b"a".to_vec(), b"1".to_vec())]);
    assert!(disk.log.is_empty());
}

#[test]
fn a_crash_after_the_commit_is_recovered() {
    let mut disk = Disk::default();
    let mut db = open(&mut disk);
    db.put(b"a", b"1").unwrap();
    carry_out(&mut disk, db.take_requests());
    db.begin_transaction().unwrap();
    db.put(b"b", b"2").unwrap();
    db.put(b"c", b"3").unwrap();
    db.delete(b"a").unwrap();
    db.commit().unwrap();
    // Only what goes to the log before the first page reaches the disk.
    let requests = db.take_requests();
    let first_page = requests.iter().position(|r| matches!(r, Request::Data(_))).unwrap();
    assert!(matches!(requests[first_page - 1], Request::Log(FileOp::Sync)));
    let logged: Vec<Request> = requests.into_iter().take(first_page).collect();
    carry_out(&mut disk, logged);
    let mut db = open(&mut disk);
    assert_eq!(
        db.iter().unwrap(),
        vec![(b"b".to_vec(), b"2".to_vec()), (b"c".to_vec(), b"3".to_vec())]
    );
    assert!(disk.log.is_empty());
}

#[test]
fn a_crash_before_the_log_is_emptied_is_recovered() {
    let mut disk = Disk::default();
    let mut db = open(&mut disk);
    for i in 0..80u32 {
        db.put(format!("{:03}", i).as_bytes(), b"x").unwrap();
    }
    carry_out(&mut disk, db.take_requests());
    db.put(b"040", b"y").unwrap();
    let mut requests = db.take_requests();
    requests.pop();
    carry_out(&mut disk, requests);
    assert!(!disk.log.is_empty());
    let mut again = open(&mut disk);
    assert_eq!(again.iter().unwrap(), db.iter().unwrap());
}

#[test]
fn a_spoiled_log_commits_nothing_and_is_emptied() {
    let mut disk = Disk::default();
    let mut db = open(&mut disk);
    db.put(b"a", b"1").unwrap();
    close(&mut disk, db);
    let mut wal = Wal::new("test.db", Vec::new()).unwrap();
    wal.log_insert(b"b", b"2").unwrap();
    wal.log_commit().unwrap();
    disk.log = wal.contents().clone();
    disk.log[12] ^= 1;
    let mut db = open(&mut disk);
    assert_eq!(db.iter().unwrap(), vec![(b"a".to_vec(), b"1".to_vec())]);
    assert!(disk.log.is_empty());
    assert_eq!(db.verify().unwrap().checked_wal_records, 0);
}

/// Carries out the requests up to the one that forces the log to disk.
fn crash_after_commit(disk: &mut Disk, requests: Vec<Request>) {
    for request in requests {
        match request {
            Request::Log(FileOp::Sync) => break,
            other => carry_out(disk, vec![other]),
        }
    }
}

#[test]
fn what_is_committed_after_a_torn_or_spoiled_log_survives() {
    for log in [vec![1u8, 2, 3, 4, 5], vec![9u8; 40]] {
        let mut disk = Disk::default();
        let mut db = open(&mut disk);
        db.put(b"a", b"1").unwrap();
        carry_out(&mut disk, db.take_requests());
        disk.log = log;
        let mut db = open(&mut disk);
        assert!(disk.log.is_empty());
        db.begin_transaction().unwrap();
        db.put(b"b", b"2").unwrap();
        db.delete(b"a").unwrap();
        db.commit().unwrap();
        crash_after_commit(&mut disk, db.take_requests());
        assert!(!disk.log.is_empty());
        let mut db = open(&mut disk);
        assert_eq!(db.iter().unwrap(), vec![(b"b".to_vec(), b"2".to_vec())]);
        assert!(disk.log.is_empty());
    }
}

#[test]
fn an_empty_log_asks_for_nothing() {
    let mut disk = Disk::default();
    open(&mut disk);
    let mut db =
        Database::open("test.db", Options::default(), disk.data.clone(), Vec::new()).unwrap();
    assert!(db.take_requests().is_empty());
}

#[test]
fn a_batch_is_replayed_in_the_order_of_the_log() {
    let mut disk = Disk::default();
    let mut db = open(&mut disk);
    db.put(b"k", b"old").unwrap();
    close(&mut disk, db);
    let mut wal = Wal::new("test.db", Vec::new()).unwrap();
    wal.log_delete(b"k").unwrap();
    wal.log_insert(b"k", b"new").unwrap();
    wal.log_insert(b"other", b"0").unwrap();
    wal.log_delete(b"other").unwrap();
    wal.log_commit().unwrap();
    disk.log = wal.contents().clone();
    let mut db = open(&mut disk);
    assert_eq!(db.iter().unwrap(), vec![(b"k".to_vec(), b"new".to_vec())]);
}

#[test]
fn several_batches_are_replayed_one_after_the_other() {
    let mut disk = Disk::default();
    let mut wal = Wal::new("test.db", Vec::new()).unwrap();
    wal.log_insert(b"a", b"1").unwrap();
    wal.log_insert(b"b", b"1").unwrap();
    wal.log_commit().unwrap();
    wal.log_insert(b"a", b"2").unwrap();
    wal.log_abort().unwrap();
    wal.log_delete(b"b").unwrap();
    wal.log_insert(b"c", b"3").unwrap();
    wal.log_commit().unwrap();
    wal.log_delete(b"a").unwrap();
    disk.log = wal.contents().clone();
    let mut db = open(&mut disk);
    assert_eq!(
        db.iter().unwrap(),
        vec![(b"a".to_vec(), b"1".to_vec()), (b"c".to_vec(), b"3".to_vec())]
    );
}

#[test]
fn a_logged_empty_value_is_replayed() {
    let mut disk = Disk::default();
    let db = open(&mut disk);
    close(&mut disk, db);
    let mut wal = Wal::new("test.db", Vec::new()).unwrap();
    wal.log_insert(b"k", b"").unwrap();
    wal.log_delete(b"absent").unwrap();
    wal.log_commit().unwrap();
    disk.log = wal.contents().clone();
    let mut db = open(&mut disk);
    assert_eq!(db.get(b"k").unwrap(), Some(vec![]));
    assert!(disk.log.is_empty());
}

#[test]
fn a_logged_key_of_the_wrong_size_stops_the_opening() {
    let mut wal = Wal::new("test.db", Vec::new()).unwrap();
    wal.log_insert(&vec![1u8; 1025], b"v").unwrap();
    wal.log_commit().unwrap();
    let log = wal.contents().clone();
    let wrong = Some(KvdbError::InvalidArgument("key or value size".to_string()));
    assert_eq!(Database::open("x", Options::default(), Vec::new(), log.clone()).err(), wrong);
    let checked = Database::open_checked("x", Options::default(), Vec::new(), log.clone());
    assert_eq!(checked.unwrap().err(), wrong);
    // Without the commit it is not looked at.
    let log = log[..log.len() - 11].to_vec();
    assert!(Database::open("x", Options::default(), Vec::new(), log).is_ok());
}

#[test]
fn a_log_of_large_values_is_done() {
    let mut wal = Wal::new("test.db", Vec::new()).unwrap();
    for i in 0..64u32 {
        wal.log_insert(format!("{:03}", i).as_bytes(), b"x").unwrap();
    }
    wal.log_insert(b"000", &vec![1u8; 2048]).unwrap();
    wal.log_insert(b"001", &vec![1u8; 2048]).unwrap();
    wal.log_commit().unwrap();
    let log = wal.contents().clone();
    let checked = Database::open_checked("x", Options::default(), Vec::new(), log.clone());
    let mut db = checked.unwrap().unwrap();
    assert_eq!(db.get(b"001").unwrap(), Some(vec![1u8; 2048]));
    let off = Options { enable_wal: false };
    let mut db = Database::open_checked("x", off, Vec::new(), log).unwrap().unwrap();
    assert_eq!(db.get(b"001").unwrap(), None);
}

#[test]
fn a_log_that_cannot_be_done_is_told() {
    // Nothing can be done to a file that is no database.
    let mut wal = Wal::new("test.db", Vec::new()).unwrap();
    wal.log_delete(b"k").unwrap();
    wal.log_commit().unwrap();
    let log = wal.contents().clone();
    assert!(Database::open_checked("x", Options::default(), vec![1, 2, 3], log).is_none());
}

#[test]
fn sizes_are_checked_at_the_door() {
    let mut db = open(&mut Disk::default());
    let key = KvdbError::InvalidArgument("key size".to_string());
    let both = KvdbError::InvalidArgument("key or value size".to_string());
    assert_eq!(db.get(b""), Err(KvdbError::InvalidArgument("key size".to_string())));
    assert_eq!(db.get(&vec![0u8; 1025]).unwrap_err(), key);
    assert_eq!(db.delete(b"").unwrap_err(), key);
    assert_eq!(db.delete(&vec![0u8; 1025]).unwrap_err(), key);
    assert_eq!(db.put(b"", b"").unwrap_err(), both);
    assert_eq!(db.put(&vec![0u8; 1025], b"").unwrap_err(), both);
    assert_eq!(db.put(b"k", &vec![0u8; 2049]).unwrap_err(), both);
    db.put(b"k", b"").unwrap();
    assert_eq!(db.get(b"k").unwrap(), Some(Vec::new()));
}

/// A database with two leaves, the first of which holds the key "000" alone.
fn with_a_lonely_key(disk: &mut Disk) -> Database {
    let mut db = open(disk);
    for i in 0..65u32 {
        db.put(format!("{:03}", i).as_bytes(), b"x").unwrap();
    }
    for i in 1..32u32 {
        db.delete(format!("{:03}", i).as_bytes()).unwrap();
    }
    carry_out(disk, db.take_requests());
    db
}

#[test]
fn a_refused_deletion_leaves_no_trace() {
    let mut disk = Disk::default();
    let mut db = with_a_lonely_key(&mut disk);
    let pairs = db.iter().unwrap();
    assert_eq!(db.delete(b"000"), Err(KvdbError::NodeEmpty));
    assert_eq!(db.delete(b"040x"), Err(KvdbError::KeyNotFound));
    assert!(db.take_requests().is_empty());
    assert_eq!(db.verify().unwrap().checked_wal_records, 0);
    db.begin_transaction().unwrap();
    db.delete(b"040").unwrap();
    assert_eq!(db.verify().unwrap().checked_wal_records, 1);
    db.take_requests();
    assert_eq!(db.delete(b"000"), Err(KvdbError::NodeEmpty));
    assert_eq!(db.delete(b"040"), Err(KvdbError::KeyNotFound));
    assert!(db.take_requests().is_empty());
    assert_eq!(db.verify().unwrap().checked_wal_records, 1);
    db.abort().unwrap();
    assert_eq!(db.iter().unwrap(), pairs);
}

#[test]
fn a_refused_deletion_is_not_made_up_for_after_a_crash() {
    let mut disk = Disk::default();
    let mut db = with_a_lonely_key(&mut disk);
    db.begin_transaction().unwrap();
    assert_eq!(db.delete(b"000"), Err(KvdbError::NodeEmpty));
    db.put(b"001", b"y").unwrap();
    db.commit().unwrap();
    let pairs = db.iter().unwrap();
    let mut crashed = disk.clone();
    let requests = db.take_requests();
    crash_after_commit(&mut crashed, requests);
    let mut again = open(&mut crashed);
    assert_eq!(again.get(b"000").unwrap(), Some(b"x".to_vec()));
    assert_eq!(again.iter().unwrap(), pairs);
}

#[test]
fn a_transaction_that_is_replayed_twice_is_done_once() {
    let mut disk = Disk::default();
    let mut db = with_a_lonely_key(&mut disk);
    let mut wal = Wal::new("test.db", Vec::new()).unwrap();
    wal.log_delete(b"000").unwrap();
    wal.log_insert(b"050", b"y").unwrap();
    wal.log_delete(b"051").unwrap();
    wal.log_commit().unwrap();
    close(&mut disk, db);
    disk.log = wal.contents().clone();
    let mut once = open(&mut disk);
    assert_eq!(once.get(b"000").unwrap(), Some(b"x".to_vec()));
    assert_eq!(once.get(b"050").unwrap(), Some(b"y".to_vec()));
    assert_eq!(once.get(b"051").unwrap(), None);
    disk.log = wal.contents().clone();
    db = open(&mut disk);
    assert_eq!(db.iter().unwrap(), once.iter().unwrap());
}

#[test]
fn the_log_is_empty_outside_a_transaction() {
    let mut disk = Disk::default();
    let mut db = open(&mut disk);
    db.put(b"a", b"1").unwrap();
    db.put(b"b", b"1").unwrap();
    db.delete(b"a").unwrap();
    carry_out(&mut disk, db.take_requests());
    assert!(disk.log.is_empty());
    db.begin_transaction().unwrap();
    db.put(b"c", b"2").unwrap();
    carry_out(&mut disk, db.take_requests());
    assert_eq!(disk.log.len(), 11 + 2);
    db.abort().unwrap();
    carry_out(&mut disk, db.take_requests());
    assert!(disk.log.is_empty());
}

#[test]
fn transactions_begin_and_end_in_turn() {
    let mut db = open(&mut Disk::default());
    assert_eq!(db.commit(), Err(KvdbError::NoActiveTransaction));
    assert_eq!(db.abort(), Err(KvdbError::NoActiveTransaction));
    for i in 0..4 {
        assert_eq!(db.begin_transaction(), Ok(()));
        assert_eq!(db.begin_transaction(), Err(KvdbError::TransactionAlreadyActive));
        let end = if i % 2 == 0 { db.commit() } else { db.abort() };
        assert_eq!(end, Ok(()));
        assert_eq!(db.abort(), Err(KvdbError::NoActiveTransaction));
        assert_eq!(db.commit(), Err(KvdbError::NoActiveTransaction));
    }
}

#[test]
fn a_root_that_splits_gets_a_new_root_above_it() {
    let mut db = open(&mut Disk::default());
    let mut last = db.inspect().unwrap();
    let mut rises = Vec::new();
    for i in 0..3000u32 {
        db.put(format!("{:05}", i).as_bytes(), &[7u8; 20]).unwrap();
        let now = db.inspect().unwrap();
        if now.root_page_id == last.root_page_id {
            assert_eq!(now.tree_height, last.tree_height);
        } else {
            assert_eq!(now.tree_height, last.tree_height + 1);
            rises.push((i, now.root_page_id));
        }
        last = now;
    }
    assert_eq!(rises[0], (64, 3));
    assert_eq!(last.tree_height, 1 + rises.len() as u32);
    assert!(rises.len() >= 2);
}

#[test]
fn the_offset_in_the_metadata_is_kept_until_the_file_is_rebuilt() {
    let mut disk = Disk::default();
    open(&mut disk);
    disk.data[40] = 7;
    let mut wal = Wal::new("test.db", Vec::new()).unwrap();
    wal.log_insert(b"logged", b"1").unwrap();
    wal.log_commit().unwrap();
    disk.log = wal.contents().clone();
    let mut db = open(&mut disk);
    assert_eq!(db.inspect().unwrap().wal_offset, 7);
    for i in 0..100u32 {
        db.put(format!("{:03}", i).as_bytes(), b"x").unwrap();
    }
    db.delete(b"050").unwrap();
    let mut export = Vec::new();
    db.export_to_writer(&mut export).unwrap();
    db.import_from_reader(&export).unwrap();
    assert_eq!(db.inspect().unwrap().wal_offset, 7);
    db.compact().unwrap();
    assert_eq!(db.inspect().unwrap().wal_offset, 0);
}

#[test]
fn statistics_count_pages_and_bytes() {
    let mut db = open(&mut Disk::default());
    let stats = db.stats().unwrap();
    assert_eq!((stats.page_count, stats.page_size, stats.db_size), (2, 4096, 8192));
    for i in 0..65u32 {
        db.put(format!("{:03}", i).as_bytes(), b"x").unwrap();
    }
    let stats = db.stats().unwrap();
    assert_eq!((stats.page_count, stats.page_size, stats.db_size), (4, 4096, 16384));
    let all = db.inspect().unwrap();
    assert_eq!(all.root_page_id, 3);
    assert_eq!(all.freelist_page, u64::MAX);
    assert_eq!(all.freelist_page_count, 0);
    assert_eq!(all.last_page_id, 3);
    assert_eq!(all.wal_offset, 0);
    assert_eq!((all.tree_height, all.node_count, all.leaf_count, all.internal_count), (2, 3, 2, 1));
    assert_eq!((all.page_count, all.db_size, all.entry_count), (4, 16384, 65));
    let checked = db.verify().unwrap();
    assert_eq!((checked.checked_tree_pages, checked.checked_entries), (3, 66));
}

#[test]
fn the_scan_counts_and_calls() {
    let mut db = open(&mut Disk::default());
    for i in 0..100u32 {
        db.put(format!("{:03}", i).as_bytes(), &[i as u8]).unwrap();
    }
    let mut sum = 0u32;
    let n = db.for_each(|_, v| sum += v[0] as u32).unwrap();
    assert_eq!(n, 100);
    assert_eq!(sum, 4950);
}

#[test]
fn compaction_drops_pages_that_are_not_needed() {
    let mut disk = Disk::default();
    let mut db = open(&mut disk);
    for i in 0..300u32 {
        db.put(format!("{:04}", i).as_bytes(), &vec![7u8; 200]).unwrap();
    }
    for i in 0..300u32 {
        let _ = db.delete(format!("{:04}", i).as_bytes());
    }
    let before = db.stats().unwrap().page_count;
    let entries = db.iter().unwrap();
    assert!(db.is_compactable());
    let stats = db.compact().unwrap();
    assert!(stats.page_count < before);
    assert_eq!(stats.db_size, stats.page_count * 4096);
    assert_eq!(db.iter().unwrap(), entries);
    let requests = db.take_requests();
    assert!(matches!(&requests[requests.len() - 2], Request::Replace(b) if b.len() as u64 == stats.db_size));
    carry_out(&mut disk, requests);
    let mut db = open(&mut disk);
    assert!(db.is_sound());
    assert_eq!(db.iter().unwrap(), entries);
}

#[test]
fn the_export_format_is_fixed() {
    let mut db = open(&mut Disk::default());
    db.put(b"ab", b"xyz").unwrap();
    db.put(b"c", b"").unwrap();
    let mut out = vec![9u8];
    assert_eq!(db.export_to_writer(&mut out).unwrap(), 2);
    let mut expected = vec![9u8];
    expected.extend_from_slice(b"TKDB_EXP");
    expected.extend_from_slice(&[1, 0, 0, 0]);
    expected.extend_from_slice(&[2, 0, 3, 0, 0, 0]);
    expected.extend_from_slice(b"abxyz");
    expected.extend_from_slice(&[1, 0, 0, 0, 0, 0]);
    expected.extend_from_slice(b"c");
    assert_eq!(out, expected);
}

#[test]
fn what_is_no_export_is_rejected() {
    let mut db = open(&mut Disk::default());
    let short = KvdbError::IoError("failed to fill whole buffer".to_string());
    let invalid = |s: &str| KvdbError::InvalidArgument(s.to_string());
    assert_eq!(db.import_from_reader(b"TKDB").unwrap_err(), short);
    assert_eq!(db.import_from_reader(b"TKDB_EXQ").unwrap_err(), invalid("invalid export file"));
    assert_eq!(db.import_from_reader(b"TKDB_EXP\x01").unwrap_err(), short);
    assert_eq!(
        db.import_from_reader(b"TKDB_EXP\x02\0\0\0").unwrap_err(),
        invalid("unsupported export version")
    );
    assert_eq!(db.import_from_reader(b"TKDB_EXP\x01\0\0\0").unwrap(), 0);
    // One byte is no start of a pair; two are.
    assert_eq!(db.import_from_reader(b"TKDB_EXP\x01\0\0\0\x01").unwrap(), 0);
    assert_eq!(db.import_from_reader(b"TKDB_EXP\x01\0\0\0\x01\0").unwrap_err(), short);
    let bad = invalid("invalid record size");
    assert_eq!(db.import_from_reader(b"TKDB_EXP\x01\0\0\0\0\0\0\0\0\0").unwrap_err(), bad);
    assert_eq!(db.import_from_reader(b"TKDB_EXP\x01\0\0\0\x01\x04\0\0\0\0").unwrap_err(), bad);
    assert_eq!(db.import_from_reader(b"TKDB_EXP\x01\0\0\0\x01\0\x01\x08\0\0").unwrap_err(), bad);
    assert_eq!(db.iter().unwrap(), vec![]);
    // The pairs before the fault stay.
    let e = db.import_from_reader(b"TKDB_EXP\x01\0\0\0\x01\0\x01\0\0\0kv\x01\0\x01\0\0\0k");
    assert_eq!(e.unwrap_err(), short);
    assert_eq!(db.iter().unwrap(), vec![(b"k".to_vec(), b"v".to_vec())]);
}

#[test]
fn an_import_of_large_values_has_room() {
    let mut db = open(&mut Disk::default());
    for i in 0..64u32 {
        db.put(format!("{:03}", i).as_bytes(), b"x").unwrap();
    }
    let mut file = b"TKDB_EXP\x01\0\0\0".to_vec();
    for k in [b"000", b"001"] {
        file.extend_from_slice(&[3, 0, 0, 8, 0, 0]);
        file.extend_from_slice(k);
        file.extend_from_slice(&vec![7u8; 2048]);
    }
    assert!(db.has_room_for(b"000", &vec![7u8; 2048]));
    assert_eq!(db.try_import(&file), Some(Ok(2)));
    assert_eq!(db.get(b"000").unwrap(), Some(vec![7u8; 2048]));
    assert_eq!(db.get(b"001").unwrap(), Some(vec![7u8; 2048]));
    assert!(db.is_sound());
}

#[test]
fn a_corrupted_database_is_found_out() {
    let mut disk = Disk::default();
    let mut db = open(&mut disk);
    db.put(b"aa", b"1").unwrap();
    db.put(b"bb", b"2").unwrap();
    close(&mut disk, db);
    // The keys lie at 517 and 520 of the root page.
    let mut bad = disk.clone();
    bad.data[PAGE_SIZE + 517] = b'z';
    let mut db = open(&mut bad);
    assert!(!db.is_sound());
    assert!(matches!(db.verify(), Err(KvdbError::CorruptedData)));
    let mut bad = disk.clone();
    bad.data[0] = 0;
    let mut db = open(&mut bad);
    assert!(!db.is_sound());
    assert!(matches!(db.verify(), Err(KvdbError::CorruptedData)));
    let mut db = open(&mut disk);
    assert!(db.is_sound());
    assert!(db.verify().is_ok());
}

#[test]
fn closing_writes_what_is_left() {
    let mut disk = Disk::default();
    let mut db = open(&mut disk);
    db.begin_transaction().unwrap();
    db.put(b"k", b"v").unwrap();
    close(&mut disk, db);
    let mut db = open(&mut disk);
    assert_eq!(db.get(b"k").unwrap(), Some(b"v".to_vec()));
}

#[test]
fn the_files_keep_up_with_the_database() {
    let mut disk = Disk::default();
    let mut db = open(&mut disk);
    for round in 0..6u32 {
        db.begin_transaction().unwrap();
        for i in 0..40u32 {
            let k = format!("{:04}", (i * 37 + round * 11) % 200);
            db.put(k.as_bytes(), &round.to_le_bytes()).unwrap();
        }
        if round % 3 == 2 {
            db.abort().unwrap();
        } else {
            db.commit().unwrap();
        }
        if round == 3 {
            db.compact().unwrap();
        }
        carry_out(&mut disk, db.take_requests());
        let mut copy = open(&mut disk.clone());
        assert_eq!(copy.iter().unwrap(), db.iter().unwrap());
    }
}

#[test]
fn a_commit_is_all_or_nothing() {
    let mut disk = Disk::default();
    let mut db = open(&mut disk);
    db.put(b"a", b"1").unwrap();
    carry_out(&mut disk, db.take_requests());
    let before = db.iter().unwrap();
    let mut wal = Wal::new("test.db", Vec::new()).unwrap();
    wal.log_insert(b"b", b"2").unwrap();
    wal.log_insert(b"c", b"333").unwrap();
    wal.log_delete(b"a").unwrap();
    wal.log_commit().unwrap();
    let log = wal.contents().clone();
    for n in 0..log.len() {
        let mut cut = Disk { data: disk.data.clone(), log: log[..n].to_vec() };
        assert_eq!(open(&mut cut).iter().unwrap(), before, "cut off at {}", n);
    }
    let mut whole = Disk { data: disk.data.clone(), log };
    assert_eq!(
        open(&mut whole).iter().unwrap(),
        vec![(b"b".to_vec(), b"2".to_vec()), (b"c".to_vec(), b"333".to_vec())]
    );
}

#[test]
fn deletions_between_puts_are_recovered() {
    let mut disk = Disk::default();
    let mut db = open(&mut disk);
    for k in ["a", "b", "c"] {
        db.put(k.as_bytes(), b"old").unwrap();
    }
    carry_out(&mut disk, db.take_requests());
    db.begin_transaction().unwrap();
    db.delete(b"a").unwrap();
    db.put(b"d", b"new").unwrap();
    db.delete(b"b").unwrap();
    db.put(b"c", b"new").unwrap();
    db.commit().unwrap();
    let requests = db.take_requests();
    let first_page = requests.iter().position(|r| matches!(r, Request::Data(_))).unwrap();
    carry_out(&mut disk, requests.into_iter().take(first_page).collect());
    assert_eq!(open(&mut disk).iter().unwrap(), db.iter().unwrap());
}

/// A database whose root, page 3, has the leaves in pages 1 and 2 below it.
fn two_leaves() -> Vec<u8> {
    let mut disk = Disk::default();
    let mut db = open(&mut disk);
    for i in 0..65u32 {
        db.put(format!("{:03}", i).as_bytes(), b"x").unwrap();
    }
    close(&mut disk, db);
    assert_eq!(disk.data.len(), 4 * PAGE_SIZE);
    disk.data
}

fn sound_with(at: usize, bytes: &[u8]) -> bool {
    let mut disk = Disk { data: two_leaves(), log: Vec::new() };
    disk.data[at..at + bytes.len()].copy_from_slice(bytes);
    open(&mut disk).is_sound()
}

#[test]
fn soundness_is_told_exactly() {
    let root = 3 * PAGE_SIZE;
    let children = root + 3576;
    // Nothing is changed, or something that does not matter.
    assert!(sound_with(0, &[]));
    assert!(sound_with(40, &[7]));
    assert!(sound_with(100, &[7]));
    assert!(sound_with(PAGE_SIZE + 3, &[7]));
    assert!(sound_with(children + 16, &[7]));
    // The version, the page size and the last page.
    assert!(!sound_with(8, &[2]));
    assert!(!sound_with(12, &[0, 8]));
    assert!(!sound_with(32, &[2]));
    assert!(!sound_with(32, &[0]));
    assert!(sound_with(32, &[9]));
    assert!(!sound_with(32, &[0xff; 8]));
    // A root that is a leaf is sound as well, one behind the last page is not.
    assert!(sound_with(16, &[1]));
    assert!(!sound_with(16, &[4]));
    assert!(!sound_with(16, &[0]));
    // A free page that is in use, that was never used, and that does not end the list.
    assert!(!sound_with(24, &2u64.to_le_bytes()));
    assert!(!sound_with(24, &9u64.to_le_bytes()));
    assert!(!sound_with(24, &0u64.to_le_bytes()));
    // A child twice, the root below itself, leaves in the wrong order, and none.
    assert!(!sound_with(children + 8, &[1]));
    assert!(!sound_with(children + 8, &[3]));
    assert!(!sound_with(children, &[2, 0, 0, 0, 0, 0, 0, 0, 1]));
    assert!(!sound_with(children, &[0]));
    // A separator above the keys of its leaf, or with a value.
    assert!(!sound_with(root + 517, b"9"));
    assert!(!sound_with(root + 11, &[1]));
    // Kinds, and numbers of keys.
    assert!(sound_with(root, &[1]));
    assert!(!sound_with(root, &[3]));
    assert!(!sound_with(PAGE_SIZE, &[2]));
    assert!(!sound_with(root + 1, &[0]));
    assert!(!sound_with(PAGE_SIZE + 1, &[65]));
    // Keys out of order, out of the page, and with a gap.
    assert!(!sound_with(PAGE_SIZE + 517, b"9"));
    assert!(!sound_with(PAGE_SIZE + 6, &[0x20]));
    assert!(sound_with(PAGE_SIZE + 1, &[31]));
    assert!(!sound_with(PAGE_SIZE + 7, &[2]));
}

#[test]
fn the_log_room_shrinks_by_what_is_logged() {
    let mut disk = Disk::default();
    let mut db = open(&mut disk);
    assert_eq!(db.log_room_left(), usize::MAX);

    db.begin_transaction().unwrap();
    db.put(b"key", b"value").unwrap();
    assert_eq!(db.log_room_left(), usize::MAX - 19);
    db.delete(b"key").unwrap();
    assert_eq!(db.log_room_left(), usize::MAX - 33);
    db.commit().unwrap();
    assert_eq!(db.log_room_left(), usize::MAX);
}

#[test]
fn what_can_be_read_of_a_damaged_file_is_told() {
    let mut disk = Disk::default();
    let mut db = open(&mut disk);
    db.put(b"aa", b"1").unwrap();
    db.put(b"bb", b"2").unwrap();
    close(&mut disk, db);
    let whole = disk.data.clone();
    let mut db = open(&mut disk);
    assert!(db.is_sound() && db.is_walkable() && db.is_searchable());
    assert!(db.is_measurable() && db.is_inspectable());
    // Bytes between the header and the data are told apart: a gap in front of the first key.
    disk.data = whole.clone();
    disk.data[PAGE_SIZE + 517..PAGE_SIZE + 523].copy_from_slice(b"aa1bb2");
    disk.data[PAGE_SIZE + 600..PAGE_SIZE + 603].copy_from_slice(b"bb2");
    disk.data[PAGE_SIZE + 13..PAGE_SIZE + 15].copy_from_slice(&600u16.to_le_bytes());
    disk.data[PAGE_SIZE + 17..PAGE_SIZE + 19].copy_from_slice(&602u16.to_le_bytes());
    let mut db = open(&mut disk);
    assert!(!db.is_sound());
    assert!(db.is_searchable() && db.is_inspectable());
    assert_eq!(db.get(b"bb").unwrap(), Some(b"2".to_vec()));
    assert_eq!(db.iter().unwrap().len(), 2);
    assert_eq!(db.inspect().unwrap().entry_count, 2);
    // Keys out of order can be listed, not looked up.
    disk.data = whole.clone();
    disk.data[PAGE_SIZE + 517..PAGE_SIZE + 519].copy_from_slice(b"zz");
    let mut db = open(&mut disk);
    assert!(db.is_walkable() && !db.is_searchable() && db.is_inspectable());
    assert_eq!(db.iter().unwrap()[0].0, b"zz".to_vec());
    assert_eq!(db.verify().unwrap_err(), KvdbError::CorruptedData);
    // A page that is no node cannot be read.
    disk.data = whole;
    disk.data[PAGE_SIZE] = 7;
    let mut db = open(&mut disk);
    assert!(!db.is_walkable() && !db.is_searchable() && !db.is_inspectable());
    assert!(db.is_measurable());
    assert_eq!(db.stats().unwrap().page_count, 2);
}

#[test]
fn a_compacted_database_has_a_page_for_each_node() {
    let mut db = open(&mut Disk::default());
    for i in 0..500u32 {
        db.put(format!("{:05}", i).as_bytes(), &vec![7u8; (i % 90) as usize]).unwrap();
    }
    for i in 0..500u32 {
        if i % 3 != 0 {
            let _ = db.delete(format!("{:05}", i).as_bytes());
        }
    }
    let pairs = db.iter().unwrap();
    let stats = db.compact().unwrap();
    assert_eq!(stats.page_count, db.inspect().unwrap().node_count + 1);
    assert_eq!(db.iter().unwrap(), pairs);
    assert_eq!(db.compact().unwrap().page_count, stats.page_count);
    assert_eq!(db.iter().unwrap(), pairs);
}

#[test]
fn a_second_import_changes_nothing() {
    let mut db = open(&mut Disk::default());
    for i in 0..200u32 {
        db.put(format!("{:05}", i).as_bytes(), &vec![7u8; (i * 10) as usize]).unwrap();
    }
    let mut file = Vec::new();
    db.export_to_writer(&mut file).unwrap();
    let mut other = open(&mut Disk::default());
    other.put(b"00003", b"old").unwrap();
    assert_eq!(other.import_from_reader(&file), Ok(200));
    let pairs = other.iter().unwrap();
    let nodes = other.inspect().unwrap().node_count;
    assert_eq!(other.import_from_reader(&file), Ok(200));
    assert_eq!(other.iter().unwrap(), pairs);
    assert_eq!(other.inspect().unwrap().node_count, nodes);
}

#[test]
fn a_committed_transaction_survives_a_crash_before_its_pages_are_written() {
    let mut disk = Disk::default();
    let mut db = open(&mut disk);
    db.put(b"k", b"old").unwrap();
    db.put(b"gone", b"1").unwrap();
    carry_out(&mut disk, db.take_requests());
    db.begin_transaction().unwrap();
    db.delete(b"k").unwrap();
    db.put(b"k", b"new").unwrap();
    db.put(b"empty", b"").unwrap();
    db.delete(b"gone").unwrap();
    assert_eq!(db.delete(b"absent"), Err(KvdbError::KeyNotFound));
    db.put(b"large", &[5u8; 2048]).unwrap();
    db.commit().unwrap();
    let pairs = db.iter().unwrap();
    // The log is forced to disk before the first page is written.
    let mut crashed = disk.clone();
    for request in db.take_requests() {
        match request {
            Request::Log(FileOp::Sync) => break,
            other => carry_out(&mut crashed, vec![other]),
        }
    }
    assert_eq!(crashed.data, disk.data);
    let mut db = open(&mut crashed);
    assert_eq!(db.iter().unwrap(), pairs);
    assert_eq!(db.get(b"k").unwrap(), Some(b"new".to_vec()));
    assert_eq!(db.get(b"empty").unwrap(), Some(vec![]));
    assert_eq!(db.get(b"gone").unwrap(), None);
    assert!(crashed.log.is_empty());
}

#[test]
fn a_crash_undoes_a_transaction_however_much_is_logged() {
    let mut disk = Disk::default();
    let mut db = open(&mut disk);
    db.put(b"a", b"1").unwrap();
    db.put(b"b", b"2").unwrap();
    carry_out(&mut disk, db.take_requests());
    let pairs = db.iter().unwrap();
    db.begin_transaction().unwrap();
    db.delete(b"a").unwrap();
    db.put(b"c", b"3").unwrap();
    carry_out(&mut disk, db.take_requests());
    for n in 0..=disk.log.len() {
        let mut crashed = disk.clone();
        crashed.log.truncate(n);
        let mut again = open(&mut crashed);
        assert_eq!(again.iter().unwrap(), pairs);
        assert!(crashed.log.is_empty());
    }
}

#[test]
fn a_change_is_made_whole_or_not_at_all() {
    let mut disk = Disk::default();
    let mut db = open(&mut disk);
    db.put(b"a", b"1").unwrap();
    carry_out(&mut disk, db.take_requests());
    let pairs = db.iter().unwrap();
    db.put(b"b", b"2").unwrap();
    let mut logged = disk.clone();
    for request in db.take_requests() {
        match request {
            Request::Data(_) => break,
            other => carry_out(&mut logged, vec![other]),
        }
    }
    assert_eq!(logged.log.len(), 11 + 2 + 11);
    for n in 0..=logged.log.len() {
        let mut crashed = logged.clone();
        crashed.log.truncate(n);
        let mut again = open(&mut crashed);
        if n < logged.log.len() {
            assert_eq!(again.iter().unwrap(), pairs);
        } else {
            assert_eq!(again.iter().unwrap(), db.iter().unwrap());
        }
    }
}

#[test]
fn closing_within_a_transaction_keeps_what_was_put() {
    let mut disk = Disk::default();
    let mut db = open(&mut disk);
    db.begin_transaction().unwrap();
    db.put(b"a", b"1").unwrap();
    close(&mut disk, db);
    let mut db = open(&mut disk);
    assert_eq!(db.iter().unwrap(), vec![(b"a".to_vec(), b"1".to_vec())]);
    assert!(disk.log.is_empty());
}
