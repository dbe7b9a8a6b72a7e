use mem_stream::groups::{GroupError, GroupManager};
use mem_stream::seg_log::LogError;
use mem_stream::snapshot::SnapshotError;

#[test]
fn groups_test_full_cycle() {
    let mut m = GroupManager::new();

    assert!(m.create_group("g1").is_ok());
    assert!(m.create_group("g2").is_ok());
    assert!(m.create_group("g1").is_err());

    let a1 = m.add("g1", 100, b"aaa").unwrap();
    let a2 = m.add("g1", 200, b"bbb").unwrap();
    let a3 = m.add("g1", 300, b"ccc").unwrap();
    assert_eq!(a1, 1);
    assert_eq!(a2, 2);
    assert_eq!(a3, 3);

    let (rid, rts, rdata) = m.read("g1", a2).unwrap();
    assert_eq!(rid, 2);
    assert_eq!(rts, 200);
    assert_eq!(rdata, b"bbb");

    assert!(m.read("g1", 999).is_err());
    assert!(m.add("ghost", 0, b"x").is_err());
    assert!(m.read("ghost", 1).is_err());

    let (first, last) = m
        .add_range("g1", &[(400, &b"ddd"[..]), (500, &b"eee"[..]), (600, &b"fff"[..])])
        .unwrap();
    assert_eq!(first, 4);
    assert_eq!(last, 6);

    let range = m.read_range("g1", 2, 5).unwrap();
    assert_eq!(range.len(), 4);
    assert_eq!(range[0].0, 2);
    assert_eq!(range[3].0, 5);

    assert!(m.read_range("g1", 900, 999).unwrap().is_empty());

    let b1 = m.add("g2", 10, b"isolated").unwrap();
    assert_eq!(b1, 1);
    let (_, _, d) = m.read("g2", 1).unwrap();
    assert_eq!(d, b"isolated");

    m.remove("g1", 4).unwrap();
    assert!(m.read("g1", 1).is_err());
    assert!(m.read("g1", 2).is_err());
    assert!(m.read("g1", 3).is_err());
    assert!(m.read("g1", 4).is_ok());
    assert!(m.read("g1", 6).is_ok());

    let (_, _, kept) = m.read("g2", 1).unwrap();
    assert_eq!(kept, b"isolated");

    let stats = m.group_stats("g1").unwrap();
    assert_eq!(stats.total_entries, 3);
    assert_eq!(stats.next_id, 7);

    let mut groups = m.list_groups();
    groups.sort();
    assert_eq!(groups, vec!["g1", "g2"]);

    m.drop_group("g2").unwrap();
    assert!(m.drop_group("g2").is_err());
    assert!(m.read("g2", 1).is_err());
    assert_eq!(m.list_groups().len(), 1);

    let post = m.add("g1", 700, b"after-trim").unwrap();
    assert_eq!(post, 7);
    let (_, _, pd) = m.read("g1", 7).unwrap();
    assert_eq!(pd, b"after-trim");
}

#[test]
fn a_range_is_read_from_the_log_where_the_cache_lacks_an_entry() {
    let mut m = GroupManager::new();
    m.create_group("g").unwrap();
    m.add("g", 1, b"a").unwrap();
    m.add("g", 2, b"b").unwrap();
    let r = m.read_range("g", 1, 2).unwrap();
    assert_eq!(r, vec![(1, 1, b"a".to_vec()), (2, 2, b"b".to_vec())]);
    let r = m.read_range("g", 0, 5).unwrap();
    assert_eq!(r.len(), 2);
    let r = m.read_range("g", u64::MAX, u64::MAX).unwrap();
    assert!(r.is_empty());
}

#[test]
fn a_group_comes_back_from_its_snapshot() {
    let mut m = GroupManager::new();
    m.create_group("g").unwrap();
    for i in 0..100u64 {
        m.add("g", i, format!("entry {}", i).as_bytes()).unwrap();
    }
    m.remove("g", 51).unwrap();
    let (bytes, segments) = m.group_snapshot("g").unwrap();
    assert_eq!(segments, 8);
    let mut n = GroupManager::new();
    n.load_group("g", Some(bytes)).unwrap();
    n.load_group("h", None).unwrap();
    assert_eq!(n.group_stats("g").unwrap().total_entries, 50);
    assert_eq!(n.group_stats("g").unwrap().next_id, 101);
    assert_eq!(n.read("g", 77).unwrap(), m.read("g", 77).unwrap());
    assert!(n.read("g", 50).is_err());
    assert_eq!(n.group_stats("h").unwrap().total_entries, 0);
    assert!(n.group_snapshot("x").is_none());
    assert!(matches!(
        n.load_group("bad", Some(b"no snapshot".to_vec())),
        Err(SnapshotError::Corrupt)
    ));
    assert!(!n.contains("bad"));
}

#[test]
fn group_errors_say_what_they_are() {
    let mut m = GroupManager::new();
    m.create_group("g").unwrap();
    assert_eq!(m.create_group("g").unwrap_err().message(), "group 'g' already exists");
    assert_eq!(m.drop_group("x").unwrap_err().message(), "group 'x' not found");
    assert_eq!(
        m.read("g", 1).unwrap_err().message(),
        "log error: entry not found"
    );
    let e = m.add_range("g", &[]).unwrap_err();
    assert!(matches!(e, GroupError::LogError(LogError::EntryNotFound)));
    let big = vec![0u8; 70_000];
    let e = m.add_range("g", &[(1, &b"a"[..]), (2, &big[..])]).unwrap_err();
    assert!(matches!(e, GroupError::LogError(LogError::EntryTooLarge)));
    assert_eq!(m.group_stats("g").unwrap().total_entries, 1);
    let e: GroupError = GroupError::from(LogError::EntryTooLarge);
    assert_eq!(e.message(), "log error: entry exceeds segment capacity");
}

#[test]
fn trimmed_entries_leave_the_cache_too() {
    let mut m = GroupManager::new();
    m.create_group("g").unwrap();
    for i in 0..200u64 {
        m.add("g", i, &vec![i as u8; 2000]).unwrap();
    }
    m.remove("g", 150).unwrap();
    assert!(m.read("g", 149).is_err());
    assert_eq!(m.read("g", 150).unwrap(), (150, 149, vec![149u8; 2000]));
    assert_eq!(m.read_range("g", 100, 160).unwrap().len(), 11);
}
