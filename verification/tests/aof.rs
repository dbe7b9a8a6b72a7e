use mem_stream::aof::{
    load_aof, load_aof_separated, records, AofEntries, AofEntry, EntryCategory,
};
use mem_stream::b64::{from_base64, to_base64};

fn load(entries: Vec<AofEntry>) -> AofEntries {
    load_aof_separated(entries.into_iter().map(Some).collect())
}

/// Reads the records of a log that holds nothing but flushes.
fn load_flushes(contents: &str) -> AofEntries {
    let mut parsed = Vec::new();
    for line in records(contents) {
        let value: Option<serde_json::Value> = serde_json::from_str(&line).ok();
        parsed.push(value.map(|v| {
            assert_eq!(v["op"], "KvFlush");
            AofEntry::KvFlush {
                db: v["db"].as_str().unwrap().to_string(),
            }
        }));
    }
    load_aof_separated(parsed)
}

#[test]
fn test_kv_entries_routed_correctly() {
    let loaded = load(vec![
        AofEntry::KvSet {
            db: "d".into(),
            key: "k".into(),
            val: vec![1],
            ttl: 0,
        },
        AofEntry::KvDel {
            db: "d".into(),
            key: "k".into(),
        },
        AofEntry::KvFlush { db: "d".into() },
    ]);

    assert_eq!(loaded.kv_entries.len(), 3);
    assert!(loaded.log_entries.is_empty());
    assert!(loaded.list_entries.is_empty());

    assert!(
        matches!(&loaded.kv_entries[0], AofEntry::KvSet { db, key, val, ttl }
            if db == "d" && key == "k" && val == &[1] && *ttl == 0)
    );
    assert!(matches!(&loaded.kv_entries[1], AofEntry::KvDel { db, key }
        if db == "d" && key == "k"));
    assert!(matches!(&loaded.kv_entries[2], AofEntry::KvFlush { db } if db == "d"));
}

#[test]
fn test_log_entries_routed_correctly() {
    let loaded = load(vec![
        AofEntry::LogCreateGroup { name: "g".into() },
        AofEntry::LogAdd {
            group: "g".into(),
            timestamp: 1,
            payload: vec![9],
        },
        AofEntry::LogAddRange {
            group: "g".into(),
            entries: vec![(1, vec![1]), (2, vec![2])],
        },
        AofEntry::LogRemove {
            group: "g".into(),
            up_to_id: 5,
        },
        AofEntry::LogDropGroup { name: "g".into() },
    ]);

    assert_eq!(loaded.log_entries.len(), 5);
    assert!(loaded.kv_entries.is_empty());
    assert!(loaded.list_entries.is_empty());

    assert!(matches!(&loaded.log_entries[0], AofEntry::LogCreateGroup { name } if name == "g"));
    assert!(
        matches!(&loaded.log_entries[3], AofEntry::LogRemove { group, up_to_id }
            if group == "g" && *up_to_id == 5)
    );
}

#[test]
fn test_list_entries_routed_correctly() {
    let loaded = load(vec![
        AofEntry::ListPush {
            key: "l".into(),
            payload: vec![1],
        },
        AofEntry::ListPushRange {
            key: "l".into(),
            items: vec![vec![1], vec![2]],
        },
        AofEntry::ListPop { key: "l".into() },
        AofEntry::ListPopRange {
            key: "l".into(),
            start: 0,
            end: 3,
        },
        AofEntry::ListPopCount {
            key: "l".into(),
            count: 2,
        },
        AofEntry::ListFlush { key: "l".into() },
    ]);

    assert_eq!(loaded.list_entries.len(), 6);
    assert!(loaded.kv_entries.is_empty());
    assert!(loaded.log_entries.is_empty());

    assert!(matches!(&loaded.list_entries[2], AofEntry::ListPop { key } if key == "l"));
    assert!(
        matches!(&loaded.list_entries[3], AofEntry::ListPopRange { key, start, end }
            if key == "l" && *start == 0 && *end == 3)
    );
}

#[test]
fn test_mixed_entries_total_count() {
    let loaded = load(vec![
        AofEntry::KvSet {
            db: "d".into(),
            key: "k".into(),
            val: vec![1, 2],
            ttl: 10,
        },
        AofEntry::LogCreateGroup { name: "g1".into() },
        AofEntry::LogAdd {
            group: "g".into(),
            timestamp: 100,
            payload: vec![9],
        },
        AofEntry::ListPush {
            key: "l".into(),
            payload: vec![3, 4],
        },
        AofEntry::ListPop { key: "l".into() },
    ]);

    assert_eq!(loaded.kv_entries.len(), 1);
    assert_eq!(loaded.log_entries.len(), 2);
    assert_eq!(loaded.list_entries.len(), 2);
    assert_eq!(loaded.len(), 5);
}

#[test]
fn no_entries_are_empty() {
    assert!(AofEntries::default().is_empty());
    assert_eq!(AofEntries::default().len(), 0);
    let mut e = AofEntries::default();
    e.push(AofEntry::KvFlush { db: "d".into() });
    assert!(!e.is_empty());
}

#[test]
fn entries_know_their_store_and_are_copied_whole() {
    let e = AofEntry::LogAddRange {
        group: "g".into(),
        entries: vec![(7, vec![1, 2])],
    };
    assert_eq!(e.category(), EntryCategory::Log);
    assert!(matches!(e.copy(), AofEntry::LogAddRange { group, entries }
        if group == "g" && entries == vec![(7, vec![1, 2])]));
    let e = AofEntry::ListPushRange {
        key: "l".into(),
        items: vec![vec![1], vec![]],
    };
    assert_eq!(e.category(), EntryCategory::List);
    assert!(matches!(e.copy(), AofEntry::ListPushRange { key, items }
        if key == "l" && items == vec![vec![1], vec![]]));
    assert_eq!(AofEntry::KvFlush { db: "d".into() }.category(), EntryCategory::Kv);
}

#[test]
fn base64_known_values() {
    assert_eq!(to_base64(b""), "");
    assert_eq!(to_base64(b"f"), "Zg==");
    assert_eq!(to_base64(b"fo"), "Zm8=");
    assert_eq!(to_base64(b"foo"), "Zm9v");
    assert_eq!(to_base64(b"foobar"), "Zm9vYmFy");
    assert_eq!(to_base64(&[0xfb, 0xff, 0xbf]), "+/+/");
    assert_eq!(from_base64(b"Zm9vYg=="), b"foob");
    assert_eq!(from_base64(b"Zm9vYmE="), b"fooba");
    // A group that is not complete is ignored.
    assert_eq!(from_base64(b"Zm9vYm"), b"foo");
}

#[test]
fn base64_round_trip_of_every_length() {
    let mut bytes: Vec<u8> = Vec::new();
    for i in 0..300u32 {
        assert_eq!(from_base64(to_base64(&bytes).as_bytes()), bytes);
        bytes.push((i * 37 % 256) as u8);
    }
}

#[test]
fn test_corrupt_lines_are_skipped() {
    let entries = load_flushes(
        "{\"op\":\"KvFlush\",\"db\":\"x\"}\nNOT_JSON\n{\"op\":\"KvFlush\",\"db\":\"y\"}\n",
    );
    assert_eq!(entries.kv_entries.len(), 2);
}

#[test]
fn test_empty_lines_are_skipped() {
    let entries = load_flushes("\n\n{\"op\":\"KvFlush\",\"db\":\"x\"}\n\n");
    assert_eq!(entries.kv_entries.len(), 1);
}

#[test]
fn records_are_the_lines_that_hold_something() {
    assert_eq!(records(" a \r\n\t\n\u{3000}b c\u{a0}\nd"), vec!["a", "b c", "d"]);
    assert_eq!(records(""), Vec::<String>::new());
    assert_eq!(records("\n \n"), Vec::<String>::new());
}

#[test]
fn entries_are_loaded_in_order() {
    let r = load_aof(vec![
        Some(AofEntry::KvFlush { db: "a".into() }),
        None,
        Some(AofEntry::ListPop { key: "b".into() }),
        None,
    ]);
    assert_eq!(r.len(), 2);
    assert!(matches!(&r[0], AofEntry::KvFlush { db } if db == "a"));
    assert!(matches!(&r[1], AofEntry::ListPop { key } if key == "b"));
}
