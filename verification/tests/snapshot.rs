use mem_stream::seg_log::{LogError, SegLog, SEGMENT_SIZE};
use mem_stream::snapshot::{
    first_completed, meta_file, snapshot_file, snapshot_meta, snapshot_stamps, SnapshotError,
};

#[test]
fn a_snapshot_brings_the_log_back() {
    let mut log = SegLog::new("g".to_string());
    for i in 0..200u64 {
        log.append(i * 3, &vec![i as u8; (i * 17 % 900) as usize]).unwrap();
    }
    log.trim(20);
    let bytes = log.snapshot();
    let mut again = SegLog::new("g".to_string());
    again.load_snapshot(&bytes).unwrap();
    assert_eq!(again.entries(), log.entries());
    assert_eq!(again.next_id(), log.next_id());
    assert_eq!(again.read_range(1, 300), log.read_range(1, 300));
    assert!(again.read(19).is_err());
}

#[test]
fn an_empty_log_has_a_snapshot() {
    let bytes = SegLog::new("g".to_string()).snapshot();
    let mut again = SegLog::new("g".to_string());
    again.load_snapshot(&bytes).unwrap();
    assert_eq!(again.total_entries(), 0);
    assert_eq!(again.next_id(), 1);
}

#[test]
fn what_is_no_snapshot_is_refused() {
    let mut log = SegLog::new("g".to_string());
    let e = log.load_snapshot(b"\xff\xff\xff\xff").unwrap_err();
    assert!(matches!(e, SnapshotError::Corrupt));
    assert_eq!(e.message(), "bitcode error");
    let e = log
        .load_entries(&vec![(4, 1, 1, vec![1]), (5, 1, 1, vec![0; SEGMENT_SIZE])])
        .unwrap_err();
    assert!(matches!(
        e,
        SnapshotError::Entry {
            id: 5,
            error: LogError::EntryTooLarge
        }
    ));
    assert_eq!(e.message(), "failed to load entry id 5: entry exceeds segment capacity");
}

#[test]
fn snapshots_are_found_by_their_names() {
    assert_eq!(snapshot_file("g", 1700000000), "g_snapshot_1700000000.bin");
    assert_eq!(meta_file("g", -5), "g_snapshot_-5.meta.json");
    let names: Vec<String> = [
        "g_snapshot_12.meta.json",
        "g_snapshot_7.meta.json",
        "g_snapshot_12.bin",
        "h_snapshot_99.meta.json",
        "g_snapshot_x.meta.json",
        "g_snapshot_+30.meta.json",
        "g_snapshot_99999999999999999999.meta.json",
    ]
    .iter()
    .map(|s| s.to_string())
    .collect();
    assert_eq!(snapshot_stamps(&names, "g"), vec![30, 12, 7]);
}

#[test]
fn the_newest_complete_snapshot_is_taken() {
    let done = snapshot_meta("g\"1", 12, 8);
    assert_eq!(
        done,
        "{\"completed\":true,\"group\":\"g\\\"1\",\"timestamp\":12,\"total_segments\":8}"
    );
    let half = "{\"completed\":false}".to_string();
    assert_eq!(
        first_completed(
            &vec![5, 4, 3, 2],
            &vec![None, Some(half.clone()), Some(done.clone()), Some(done)]
        ),
        Some(3)
    );
    assert_eq!(
        first_completed(&vec![5, 4], &vec![Some("nothing".to_string()), Some(half)]),
        None
    );
    assert_eq!(first_completed(&vec![], &vec![]), None);
}

#[test]
fn a_log_that_was_not_filled_in_order_comes_back_too() {
    let mut log = SegLog::new("g".to_string());
    for id in [30u64, 10, 20, 0] {
        log.append_with_id(id, id * 2, &vec![id as u8; 40_000]).unwrap();
    }
    let mut again = SegLog::new("g".to_string());
    again.load_snapshot(&log.snapshot()).unwrap();
    assert_eq!(again.total_entries(), log.total_entries());
    assert_eq!(again.next_id(), 31);
    for id in 0..40 {
        assert_eq!(again.read(id).ok(), log.read(id).ok());
    }
}
