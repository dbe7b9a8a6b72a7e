use mem_stream::aof::{load_aof_separated, AofEntry};
use mem_stream::db::{DBError, DB};
use mem_stream::groups::GroupManager;

fn fill(db: &mut DB) {
    db.kv_set("d".into(), "k1".into(), b"v1".to_vec(), 0).unwrap();
    db.kv_set("d".into(), "k2".into(), b"v2".to_vec(), 0).unwrap();
    db.kv_set("e".into(), "k3".into(), b"v3".to_vec(), 0).unwrap();
    db.kv_del("d".into(), "k1".into()).unwrap();
    db.kv_flush("e".into()).unwrap();
    db.log_create_group("g").unwrap();
    db.log_create_group("h").unwrap();
    assert_eq!(db.log_add("g", 1, b"one").unwrap(), 1);
    assert_eq!(db.log_add_range("g", &[(2, &b"two"[..]), (3, &b"three"[..])]).unwrap(), (2, 3));
    db.log_remove("g", 2).unwrap();
    db.log_drop_group("h").unwrap();
    db.list_push("l".into(), b"1".to_vec()).unwrap();
    db.list_push_range(
        "l".into(),
        vec![b"2".to_vec(), b"3".to_vec(), b"4".to_vec(), b"5".to_vec(), b"6".to_vec()],
    )
    .unwrap();
    assert_eq!(db.list_pop("l".into()).unwrap(), b"1");
    assert_eq!(db.list_pop_count("l".into(), 2).unwrap(), vec![b"2".to_vec(), b"3".to_vec()]);
    assert_eq!(db.list_pop_range("l".into(), 1, 2).unwrap(), vec![b"5".to_vec()]);
    db.list_push("m".into(), b"x".to_vec()).unwrap();
    db.list_flush("m".into()).unwrap();
}

fn check(db: &mut DB) {
    assert!(db.kv_get("d".into(), "k1".into()).unwrap().is_none());
    assert_eq!(db.kv_get("d".into(), "k2".into()).unwrap().unwrap().val, b"v2");
    assert!(db.kv_keys("e".into()).unwrap().is_empty());
    assert_eq!(db.log_list_groups().unwrap(), vec!["g"]);
    assert!(db.log_read("g", 1).is_err());
    assert_eq!(db.log_read("g", 2).unwrap(), (2, 2, b"two".to_vec()));
    assert_eq!(db.log_read_range("g", 1, 9).unwrap().len(), 2);
    let stats = db.log_group_stats("g").unwrap();
    assert_eq!((stats.total_entries, stats.total_segments, stats.next_id), (2, 8, 4));
    assert_eq!(db.list_len("l".into()).unwrap(), 2);
    assert_eq!(db.list_length("m"), Some(0));
    assert_eq!(db.list_pop_count("l".into(), 2).unwrap(), vec![b"4".to_vec(), b"6".to_vec()]);
}

#[test]
fn every_write_is_logged_and_the_log_rebuilds_the_stores() {
    let mut db = DB::new(GroupManager::new(), true);
    fill(&mut db);
    let log = db.take_aof();
    assert_eq!(log.len(), 18);
    assert_eq!(db.take_events().len(), 18);
    check(&mut db);
    drop(db);

    let copies: Vec<AofEntry> = log.iter().map(|e| e.copy()).collect();
    let mut follower = DB::new(GroupManager::new(), false);
    follower.apply_aof(copies).unwrap();
    check(&mut follower);
    drop(follower);

    let mut again = DB::new(GroupManager::new(), false);
    again
        .load_and_apply(load_aof_separated(log.into_iter().map(Some).collect()))
        .unwrap();
    check(&mut again);
}

#[test]
fn what_is_refused_is_not_logged() {
    let mut db = DB::new(GroupManager::new(), true);
    assert!(db.kv_del("d".into(), "k".into()).is_err());
    assert!(db.log_add("g", 1, b"x").is_err());
    assert!(db.list_pop("l".into()).is_err());
    assert!(db.list_push("l".into(), vec![0; 70_000]).is_err());
    assert!(db.take_aof().is_empty());
    assert!(db.take_events().is_empty());
}

#[test]
fn a_database_that_nobody_listens_to_keeps_no_events() {
    let mut db = DB::new(GroupManager::new(), false);
    db.kv_set("d".into(), "k".into(), b"v".to_vec(), 0).unwrap();
    assert!(db.take_events().is_empty());
    assert_eq!(db.take_aof().len(), 1);
    assert!(db.take_aof().is_empty());
}

#[test]
fn entries_that_cannot_be_applied_are_told_beforehand() {
    let mut db = DB::new(GroupManager::new(), false);
    db.list_push("l".into(), b"1".to_vec()).unwrap();
    assert!(db.admits_entry(&AofEntry::ListPop { key: "l".into() }));
    assert!(!db.admits_entry(&AofEntry::ListPopCount { key: "l".into(), count: 2 }));
    assert!(!db.admits_entry(&AofEntry::ListPopRange { key: "l".into(), start: 1, end: 0 }));
    assert!(db.admits_entry(&AofEntry::ListPopRange { key: "l".into(), start: 1, end: 9 }));
    assert!(db.admits_entry(&AofEntry::ListPop { key: "none".into() }));
    db.list_flush("l".into()).unwrap();
    assert!(!db.admits_entry(&AofEntry::ListPop { key: "l".into() }));
    assert!(!db.has_group("g"));
    db.log_create_group("g").unwrap();
    assert!(db.has_group("g"));
    assert!(db.groups().contains("g"));
}

fn text<T>(r: Result<T, DBError>) -> String {
    match r {
        Ok(_) => panic!("no error"),
        Err(e) => e.message(),
    }
}

#[test]
fn database_errors_say_what_failed() {
    let mut db = DB::new(GroupManager::new(), false);
    assert_eq!(text(db.log_drop_group("g")), "failed to drop group: group 'g' not found");
    assert_eq!(text(db.log_add("g", 1, b"")), "failed to append to log: group 'g' not found");
    assert_eq!(
        text(db.log_add_range("g", &[(1, &b""[..])])),
        "failed to append range to log: group 'g' not found"
    );
    assert_eq!(text(db.log_read("g", 1)), "failed to read from log: group 'g' not found");
    assert_eq!(
        text(db.log_read_range("g", 1, 2)),
        "failed to read range from log: group 'g' not found"
    );
    assert_eq!(text(db.log_remove("g", 1)), "failed to remove from log: group 'g' not found");
    assert_eq!(text(db.log_group_stats("g")), "failed to read group stats: group 'g' not found");
    db.log_create_group("g").unwrap();
    assert_eq!(
        text(db.log_create_group("g")),
        "failed to create group: group 'g' already exists"
    );
    assert_eq!(text(db.kv_del("d".into(), "k".into())), "failed to del key: k not found");
    assert_eq!(text(db.list_pop("l".into())), "failed to pop: key not found");
    assert_eq!(text(db.list_pop_range("l".into(), 0, 1)), "failed to pop range: key not found");
    assert_eq!(text(db.list_pop_count("l".into(), 1)), "failed to pop count: key not found");
    assert_eq!(text(db.list_flush("l".into())), "failed to flush list: key not found");
    assert_eq!(
        text(db.list_push("l".into(), vec![0; 70_000])),
        "failed to push: entry exceeds segment capacity"
    );
    assert_eq!(
        text(db.list_push_range("l".into(), vec![vec![0; 70_000]])),
        "failed to push range: entry exceeds segment capacity"
    );
}

#[test]
fn the_part_of_a_range_that_stays_is_logged() {
    let mut db = DB::new(GroupManager::new(), true);
    db.log_create_group("g").unwrap();
    let big = vec![0u8; 70_000];
    assert!(db
        .log_add_range("g", &[(1, &b"a"[..]), (2, &b"b"[..]), (3, &big[..]), (4, &b"c"[..])])
        .is_err());
    assert!(db.log_add_range("g", &[(3, &big[..])]).is_err());
    assert!(db
        .list_push_range("l".into(), vec![b"1".to_vec(), big.clone(), b"2".to_vec()])
        .is_err());
    assert!(db.list_push_range("l".into(), vec![big]).is_err());
    let log = db.take_aof();
    assert_eq!(log.len(), 3);
    assert_eq!(db.take_events().len(), 3);
    assert!(matches!(&log[1], AofEntry::LogAddRange { group, entries }
        if group == "g" && *entries == vec![(1, b"a".to_vec()), (2, b"b".to_vec())]));
    assert!(matches!(&log[2], AofEntry::ListPushRange { key, items }
        if key == "l" && *items == vec![b"1".to_vec()]));
    drop(db);
    let mut again = DB::new(GroupManager::new(), false);
    again.try_apply_aof(log).unwrap();
    assert_eq!(again.log_group_stats("g").unwrap().total_entries, 2);
    assert_eq!(again.list_length("l"), Some(1));
}

#[test]
fn a_log_that_pops_too_much_is_not_loaded_to_its_end() {
    let mut db = DB::new(GroupManager::new(), false);
    let push = AofEntry::ListPush { key: "l".into(), payload: b"1".to_vec() };
    let pop = AofEntry::ListPop { key: "l".into() };
    let set = AofEntry::KvSet { db: "d".into(), key: "k".into(), val: b"v".to_vec(), ttl: 0 };
    let log = vec![push.copy(), pop.copy(), pop, set, push];
    let e = db
        .load_and_apply(load_aof_separated(log.into_iter().map(Some).collect()))
        .unwrap_err();
    assert_eq!(e.at, 2);
    assert_eq!(db.list_length("l"), Some(0));
    assert!(db.kv_get("d".into(), "k".into()).unwrap().is_some());
    assert!(db.take_aof().is_empty());
}
