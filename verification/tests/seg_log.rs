use mem_stream::seg_log::{LogError, SegLog, HEADER_SIZE, SEGMENT_SIZE};
use std::time::Instant;

fn payload_of(i: u64) -> String {
    format!(
        "sensor:temp-{} value:{}.{} unit:c",
        i % 10,
        20 + (i % 15),
        i % 100
    )
}

#[test]
fn seg_log_test_full_lifecycle() {
    let mut log = SegLog::new("test_group".to_string());
    let entry_count = 1000u64;

    for i in 0..entry_count {
        let ts = 1700000000000 + i * 50;
        log.append(ts, payload_of(i).as_bytes()).unwrap();
    }
    assert_eq!(log.total_entries(), entry_count);

    for &id in &[1u64, 50, 250, 500, 750, 999, 1000] {
        let (read_id, read_ts, data) = log.read(id).unwrap();
        assert_eq!(read_id, id);
        let i = id - 1;
        assert_eq!(read_ts, 1700000000000 + i * 50);
        assert_eq!(data, payload_of(i).as_bytes(), "payload mismatch at id={}", id);
    }

    let range = log.read_range(100, 109);
    assert_eq!(range.len(), 10);
    for (idx, (id, _, _)) in range.iter().enumerate() {
        assert_eq!(*id, 100 + idx as u64);
    }

    log.trim(501);
    assert_eq!(log.total_entries(), 500);
    assert!(log.read(1).is_err(), "trimmed entry must be gone");
    assert!(log.read(500).is_err(), "trimmed entry must be gone");
    assert!(log.read(501).is_ok(), "entry at cutoff boundary must survive");

    let new_id = log.append(9999999999999, b"post-trim-event").unwrap();
    assert_eq!(
        new_id,
        entry_count + 1,
        "ID counter must continue, not reset after trim"
    );
    let (_, _, data) = log.read(new_id).unwrap();
    assert_eq!(data, b"post-trim-event");

    let bytes = log.snapshot();
    let mut loaded_log = SegLog::new("test_group".to_string());
    loaded_log.load_snapshot(&bytes).expect("snapshot load failed");

    assert_eq!(loaded_log.total_entries(), log.total_entries());
    for &id in &[501u64, 600, 750, new_id] {
        let (orig_id, orig_ts, orig_data) = log.read(id).unwrap();
        let (loaded_id, loaded_ts, loaded_data) = loaded_log.read(id).unwrap();
        assert_eq!(orig_id, loaded_id, "id mismatch after snapshot load");
        assert_eq!(orig_ts, loaded_ts, "timestamp mismatch after snapshot load");
        assert_eq!(orig_data, loaded_data, "payload mismatch after snapshot load");
    }
    assert!(loaded_log.read(1).is_err());
    assert!(loaded_log.read(500).is_err());
    assert!(loaded_log.read(100).is_err());
    assert!(loaded_log.read(501).is_ok());
    assert!(loaded_log.read(new_id).is_ok());
}

#[test]
fn seg_log_test_segment_boundary_integrity() {
    let mut log = SegLog::new("test_group".to_string());
    let payload_size = 1000;
    let count = 500u64;

    for i in 0..count {
        let fill_byte = (i & 0xFF) as u8;
        let payload = vec![fill_byte; payload_size];
        log.append(i, &payload).unwrap();
    }

    assert!(
        log.total_segments() > 1,
        "test must span multiple segments to be meaningful"
    );

    for id in 1..=count {
        let (_, ts, data) = log.read(id).unwrap();
        let i = id - 1;
        assert_eq!(ts, i);
        assert_eq!(data.len(), payload_size);
        let expected_byte = (i & 0xFF) as u8;
        assert!(data.iter().all(|&b| b == expected_byte));
    }
}

#[test]
fn seg_log_test_wire_format_and_zero_copy() {
    let mut log = SegLog::new("test_group".to_string());
    let ts: u64 = 0xAABB_CCDD_1122_3344;
    let payload = b"wire-fmt";
    let id = log.append(ts, payload).unwrap();

    let raw = log.get_raw_entry_slice(id).unwrap();
    assert_eq!(raw.len(), HEADER_SIZE + payload.len());

    let raw_id = u64::from_le_bytes(raw[0..8].try_into().unwrap());
    let raw_ts = u64::from_le_bytes(raw[8..16].try_into().unwrap());
    let raw_len = u32::from_le_bytes(raw[16..20].try_into().unwrap()) as usize;
    let raw_payload = &raw[HEADER_SIZE..HEADER_SIZE + raw_len];

    let (s_id, s_ts, s_payload) = log.read(id).unwrap();
    assert_eq!(raw_id, s_id);
    assert_eq!(raw_ts, s_ts);
    assert_eq!(raw_ts, ts, "timestamp must survive LE roundtrip exactly");
    assert_eq!(raw_payload, s_payload.as_slice());
    assert_eq!(raw_payload, payload);
}

#[test]
fn seg_log_test_edge_cases() {
    let mut log = SegLog::new("test_group".to_string());
    let id1 = log.append(0, b"").unwrap();
    let (_, _, d) = log.read(id1).unwrap();
    assert!(d.is_empty());

    let max_payload = vec![0xFFu8; SEGMENT_SIZE - HEADER_SIZE];
    let id2 = log.append(u64::MAX, &max_payload).unwrap();
    let (_, ts, d) = log.read(id2).unwrap();
    assert_eq!(ts, u64::MAX);
    assert_eq!(d.len(), SEGMENT_SIZE - HEADER_SIZE);

    let oversized = vec![0u8; SEGMENT_SIZE - HEADER_SIZE + 1];
    assert!(log.append(1, &oversized).is_err());

    assert!(log.read(0).is_err());
    assert!(log.read(9999).is_err());
    assert!(log.get_raw_entry_slice(9999).is_err());
    assert!(log.read_range(5000, 6000).is_empty());
}

#[test]
fn seg_log_test_drop_safety() {
    drop(SegLog::new("test_group".to_string()));

    let mut log = SegLog::new("test_group".to_string());
    for _ in 0..300 {
        log.append(1, &vec![0u8; 2000]).unwrap();
    }
    log.trim(200);
    drop(log);
}

fn xorshift64(state: &mut u64) -> u64 {
    *state ^= *state << 13;
    *state ^= *state >> 7;
    *state ^= *state << 17;
    *state
}

#[test]
fn bench_seg_log() {
    const TOTAL_OPS: u64 = 500_000;
    const NUM_KEYS: u64 = 50;
    const SMALL_PAYLOAD: usize = 64;
    const LARGE_PAYLOAD: usize = 4096;

    let mut rng: u64 = 0xDEAD_BEEF_CAFE_1234;
    let mut log = SegLog::new("bench".to_string());

    let payload = vec![0xABu8; SMALL_PAYLOAD];
    let t = Instant::now();
    for i in 0..TOTAL_OPS / 2 {
        let ts = 1_700_000_000_000 + i * 10;
        log.append(ts, &payload).unwrap();
    }
    println!(
        "[append:small] {} ops in {:?} | segments: {}",
        TOTAL_OPS / 2,
        t.elapsed(),
        log.total_segments()
    );

    let large_payload = vec![0xCDu8; LARGE_PAYLOAD];
    let mut large_ids = Vec::new();
    for i in 0..1000u64 {
        let id = log.append(9_000_000 + i, &large_payload).unwrap();
        large_ids.push(id);
    }

    let max_id = log.next_id() - 1;
    let mut hits = 0u64;
    for _ in 0..100_000 {
        let id = (xorshift64(&mut rng) % max_id) + 1;
        if log.read(id).is_ok() {
            hits += 1;
        }
    }
    assert_eq!(hits, 100_000);

    for (start, end) in [(1, 100), (100, 500), (1000, 2000), (5000, 5999)] {
        let results = log.read_range(start, end);
        assert_eq!(results.len() as u64, end - start + 1);
    }

    let mut key_last_id: Vec<u64> = vec![0; NUM_KEYS as usize];
    for _ in 0..TOTAL_OPS / 2 {
        let key = xorshift64(&mut rng) % NUM_KEYS;
        let ts = xorshift64(&mut rng);
        let size = (xorshift64(&mut rng) % 512 + 32) as usize;
        let payload = vec![(key & 0xFF) as u8; size];
        let id = log.append(ts, &payload).unwrap();
        key_last_id[key as usize] = id;
    }

    for (key, &id) in key_last_id.iter().enumerate() {
        if id == 0 {
            continue;
        }
        let (read_id, _, data) = log.read(id).unwrap();
        assert_eq!(read_id, id);
        assert_eq!(data[0], (key & 0xFF) as u8);
    }

    let cutoff = max_id / 2;
    let before = log.total_entries();
    let trimmed = log.trim(cutoff);
    let after = log.total_entries();
    assert_eq!(before - after, trimmed.len() as u64);

    assert!(log.read(1).is_err());
    assert!(log.read(cutoff).is_ok());

    let pre_trim_next = log.next_id();
    let id_post = log.append(u64::MAX, b"post-trim").unwrap();
    assert_eq!(id_post, pre_trim_next);
    let (_, ts, data) = log.read(id_post).unwrap();
    assert_eq!(ts, u64::MAX);
    assert_eq!(data, b"post-trim");
}

#[test]
fn append_fills_the_rest_of_a_segment_exactly() {
    let mut log = SegLog::new("g".to_string());
    assert_eq!(log.total_segments(), 8);
    assert_eq!(log.active_segment_bytes(), 0);
    log.append(1, &vec![7u8; 100]).unwrap();
    assert_eq!(log.active_segment_bytes(), 120);
    log.append(2, &vec![7u8; SEGMENT_SIZE - 140]).unwrap();
    assert_eq!(log.active_segment_bytes(), SEGMENT_SIZE);
    log.append(3, b"x").unwrap();
    assert_eq!(log.active_segment_bytes(), 21);
    assert_eq!(log.total_segments(), 8);
    assert_eq!(log.read(2).unwrap().2.len(), SEGMENT_SIZE - 140);
    assert_eq!(log.identifier(), "g");
}

#[test]
fn segments_are_added_on_demand() {
    let mut log = SegLog::new("g".to_string());
    for _ in 0..9 {
        log.append(1, &vec![1u8; SEGMENT_SIZE - HEADER_SIZE]).unwrap();
    }
    assert_eq!(log.total_segments(), 9);
    log.allocate_seg().unwrap();
    assert_eq!(log.total_segments(), 10);
}

#[test]
fn entry_too_large_is_refused_and_changes_nothing() {
    let mut log = SegLog::new("g".to_string());
    let e = log.append(1, &vec![0u8; SEGMENT_SIZE]).unwrap_err();
    assert!(matches!(e, LogError::EntryTooLarge));
    assert_eq!(e.message(), "entry exceeds segment capacity");
    assert_eq!(log.total_entries(), 0);
    assert_eq!(log.next_id(), 1);
    assert!(matches!(log.read(1), Err(LogError::EntryNotFound)));
}

#[test]
fn append_with_id_moves_the_next_id_past_it() {
    let mut log = SegLog::new("g".to_string());
    assert_eq!(log.append_with_id(10, 5, b"ten").unwrap(), 10);
    assert_eq!(log.next_id(), 11);
    assert_eq!(log.append_with_id(3, 6, b"three").unwrap(), 3);
    assert_eq!(log.next_id(), 11);
    assert_eq!(log.append(7, b"eleven").unwrap(), 11);
    assert_eq!(log.total_entries(), 3);
    let all = log.read_range(0, u64::MAX);
    let ids: Vec<u64> = all.iter().map(|e| e.0).collect();
    assert_eq!(ids, vec![3, 10, 11]);
}

#[test]
fn trim_gives_the_ids_that_it_drops() {
    let mut log = SegLog::new("g".to_string());
    for i in 0..5u64 {
        log.append(i, b"p").unwrap();
    }
    assert_eq!(log.trim(4), vec![1, 2, 3]);
    assert_eq!(log.trim(4), Vec::<u64>::new());
    assert_eq!(log.total_entries(), 2);
}

#[test]
fn errors_say_what_they_are() {
    assert_eq!(LogError::SegmentLimitReached.message(), "max segment count reached");
    assert_eq!(LogError::EntryNotFound.message(), "entry not found");
    assert_eq!(
        LogError::AllocationFailed.message(),
        "failed to allocate memory for segment"
    );
    assert_eq!(LogError::MaxSegmentsReached.message(), "maximum segments reached");
    assert_eq!(
        LogError::WriteLockUnavailable.message(),
        "write lock is currently held by another operation"
    );
    assert_eq!(
        LogError::SnapshotFailed("disk".to_string()).message(),
        "snapshot failed: disk"
    );
}
