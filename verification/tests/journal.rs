use mem_stream::journal::{journal_db, JournalCommand, JournalEntry, JournalMsg, KvStore};

fn appended(msgs: Vec<JournalMsg>) -> Vec<JournalEntry> {
    let mut r = Vec::new();
    for m in msgs {
        match m {
            JournalMsg::Append(e) => r.push(e),
            JournalMsg::Flush => r.clear(),
            JournalMsg::Shutdown => {}
        }
    }
    r
}

#[test]
fn journal_full_cycle() {
    let db_id = "test_cycle";
    let mut store = KvStore::new();
    store.set(db_id, "k1".to_string(), b"hello".to_vec(), 0).unwrap();
    store.set(db_id, "k2".to_string(), b"world".to_vec(), 0).unwrap();

    let v1 = store.get(db_id, "k1".to_string()).unwrap().unwrap();
    assert_eq!(v1.val, b"hello");

    let keys = store.keys(db_id).unwrap();
    assert_eq!(keys.len(), 2);

    store.del(db_id, "k1".to_string()).unwrap();
    assert!(store.get(db_id, "k1".to_string()).unwrap().is_none());

    store.flush(db_id).unwrap();
    assert!(store.keys(db_id).unwrap().is_empty());
}

#[test]
fn test_aof_persistence() {
    let db_id = "test_aof_persistence_isolated";
    let journal;
    {
        let mut store = KvStore::new();
        store.set(db_id, "key1".to_string(), b"val1".to_vec(), 0).unwrap();
        store.set(db_id, "key2".to_string(), b"val2".to_vec(), 0).unwrap();
        store.del(db_id, "key2".to_string()).unwrap();
        store.shutdown(db_id);
        journal = appended(store.take_messages(db_id));
    }

    let mut store2 = KvStore::new();
    store2.load_db(db_id, &journal);
    let v1 = store2.get(db_id, "key1".to_string()).unwrap().unwrap();
    assert_eq!(v1.val, b"val1");

    let v2 = store2.get(db_id, "key2".to_string()).unwrap();
    assert!(v2.is_none());
}

#[test]
fn journal_bench_kv_realistic() {
    let total: usize = 1_000_000;
    let unique_keys: usize = 200_000;
    let db = "bench_db";

    let mut store = KvStore::new();
    for i in 0..total {
        let key = format!("key:{}", i % unique_keys);
        let val = format!("value:{}", i).into_bytes();
        store.set(db, key, val, 0).unwrap();
    }

    let delete_count = unique_keys / 10;
    for i in 0..delete_count {
        let key = format!("key:{}", i);
        let _ = store.del(db, key);
    }

    let read_count = 500_000;
    let mut hits = 0usize;
    for i in 0..read_count {
        let key = format!("key:{}", i % unique_keys);
        if store.get(db, key).unwrap().is_some() {
            hits += 1;
        }
    }
    // Of each round of 200,000 reads the first 20,000 miss.
    assert_eq!(hits, 440_000);

    store.shutdown(db);
    let journal = appended(store.take_messages(db));
    drop(store);
    let mut store2 = KvStore::new();
    store2.load_db(db, &journal);

    let verify_count = 1000;
    let mut ok = 0usize;
    for i in delete_count..delete_count + verify_count {
        let key = format!("key:{}", i % unique_keys);
        if store2.get(db, key).unwrap().is_some() {
            ok += 1;
        }
    }
    assert_eq!(ok, verify_count);

    store2.flush(db).unwrap();
    assert!(store2.keys(db).unwrap().is_empty());
}

#[test]
fn writes_are_journaled_and_reads_are_not() {
    let mut store = KvStore::new();
    store.set_at("d", "k".to_string(), b"v".to_vec(), 50, 1_000);
    assert_eq!(store.get_at("d", "k".to_string(), 1_050).unwrap().ttl, 1_050);
    store.flush("d").unwrap();
    store.shutdown("d");
    let msgs = store.take_messages("d");
    assert_eq!(msgs.len(), 3);
    assert!(matches!(&msgs[0], JournalMsg::Append(e)
        if e.command == JournalCommand::SET && e.key == "k" && e.entry.as_ref().unwrap().val == b"v"));
    assert!(matches!(&msgs[1], JournalMsg::Flush));
    assert!(matches!(&msgs[2], JournalMsg::Shutdown));
    assert!(store.take_messages("d").is_empty());
}

#[test]
fn a_write_that_says_nothing_is_passed_over() {
    let mut store = KvStore::new();
    store.load_db(
        "d",
        &vec![
            JournalEntry {
                command: JournalCommand::SET,
                key: "k".to_string(),
                entry: None,
            },
            JournalEntry {
                command: JournalCommand::DEL,
                key: "none".to_string(),
                entry: None,
            },
        ],
    );
    assert!(store.keys("d").unwrap().is_empty());
    assert_eq!(store.databases(), vec!["d"]);
    assert_eq!(store.create_db("d").unwrap_err().message(), "database d already exists");
    assert_eq!(store.del("d", "k".to_string()).unwrap_err().message(), "k not found");
}

#[test]
fn journals_are_found_by_their_ending() {
    assert_eq!(journal_db("users.aof"), Some("users".to_string()));
    assert_eq!(journal_db("users.aof.aof"), Some("users".to_string()));
    assert_eq!(journal_db(".aof"), Some(String::new()));
    assert_eq!(journal_db("users.txt"), None);
    assert_eq!(journal_db("aof"), None);
}
