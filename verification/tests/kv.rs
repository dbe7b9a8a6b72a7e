use mem_stream::kv::{KvError, KvStore};
use std::time::{Duration, Instant};

#[test]
fn kv_test_full_cycle() {
    let mut store = KvStore::new();

    store.set("db", "k1".to_string(), b"hello".to_vec(), 0).unwrap();
    store.set("db", "k2".to_string(), b"world".to_vec(), 0).unwrap();

    let v1 = store.get("db", "k1".to_string()).unwrap().unwrap();
    assert_eq!(v1.val, b"hello");

    let keys = store.keys("db").unwrap();
    assert_eq!(keys.len(), 2);

    store.del("db", "k1").unwrap();
    assert!(store.get("db", "k1".to_string()).unwrap().is_none());

    store.flush("db").unwrap();
    assert!(store.keys("db").unwrap().is_empty());
}

#[test]
fn test_ttl_expiry() {
    let mut store = KvStore::new();
    store.set("db", "k1".to_string(), b"v".to_vec(), 1).unwrap();
    let start = Instant::now();
    while start.elapsed() < Duration::from_millis(5) {}
    assert!(store.get("db", "k1".to_string()).unwrap().is_none());
}

#[test]
fn test_create_db_duplicate() {
    let mut store = KvStore::new();
    store.create_db("mydb").unwrap();
    assert!(store.create_db("mydb").is_err());
}

#[test]
fn kv_bench_kv_realistic() {
    let total: usize = 5_000_000;
    let unique_keys: usize = 2_000_000;
    let db = "bench_db";

    let mut store = KvStore::new();

    let start = Instant::now();
    for i in 0..total {
        let key = format!("key:{}", i % unique_keys);
        let val = format!("value:{}", i).into_bytes();
        store.set(db, key, val, 0).unwrap();
    }
    println!("[BENCH] Write done: {:?}", start.elapsed());

    let delete_count = unique_keys / 10;
    for i in 0..delete_count {
        let _ = store.del(db, &format!("key:{}", i));
    }

    let read_count = 500_000;
    let mut hits = 0usize;
    let mut misses = 0usize;
    for i in 0..read_count {
        let key = format!("key:{}", i % unique_keys);
        match store.get(db, key).unwrap() {
            Some(_) => hits += 1,
            None => misses += 1,
        }
    }
    assert_eq!(hits + misses, read_count);

    store.flush(db).unwrap();
    assert!(store.keys(db).unwrap().is_empty());
}

#[test]
fn expiry_is_judged_by_the_clock_that_is_given() {
    let mut store = KvStore::new();
    store.set_at("db", "k".to_string(), b"v".to_vec(), 100, 1_000, 1_001);
    let e = store.get_at("db", "k", 1_100, 1_050).unwrap();
    assert_eq!((e.ttl, e.used_count, e.last_used), (1_100, 1, 1_050));
    let e = store.get_at("db", "k", 1_100, 1_060).unwrap();
    assert_eq!((e.used_count, e.last_used), (2, 1_060));
    assert!(store.get_at("db", "k", 1_101, 1_101).is_none());
    assert!(store.keys("db").unwrap().is_empty());
    store.set_at("db", "k".to_string(), b"v".to_vec(), 0, 1_000, 1_000);
    assert!(store.get_at("db", "k", i64::MAX, 0).is_some());
}

#[test]
fn databases_are_isolated() {
    let mut store = KvStore::new();
    store.set("a", "k".to_string(), b"1".to_vec(), 0).unwrap();
    store.set("b", "k".to_string(), b"2".to_vec(), 0).unwrap();
    store.flush("a").unwrap();
    assert_eq!(store.get("b", "k".to_string()).unwrap().unwrap().val, b"2");
}

#[test]
fn a_write_to_a_full_database_evicts_the_keys_used_least() {
    let mut store = KvStore::new();
    for i in 0..1024 {
        store.set_at("db", format!("k{}", i), b"v".to_vec(), 0, 0, i);
    }
    for i in 0..1024 {
        if i % 2 == 0 {
            store.get_at("db", &format!("k{}", i), 0, 5_000).unwrap();
        }
    }
    store.set_at("db", "new".to_string(), b"v".to_vec(), 0, 0, 9_000);
    let keys = store.keys("db").unwrap();
    // 1024 / 5 = 204 keys are looked at, 204 / 4 = 51 go, 1 comes.
    assert_eq!(keys.len(), 1024 - 51 + 1);
    assert!(keys.contains(&"new".to_string()));
    for i in 0..1024 {
        if i % 2 == 0 {
            assert!(keys.contains(&format!("k{}", i)));
        }
    }
}

#[test]
fn kv_errors_say_what_they_are() {
    let mut store = KvStore::new();
    let e = store.del("db", "k").unwrap_err();
    assert!(matches!(&e, KvError::KeyNotFound(k) if k == "k"));
    assert_eq!(e.message(), "k not found");
    let e = store.create_db("db").unwrap_err();
    assert_eq!(e.message(), "database db already exists");
}
