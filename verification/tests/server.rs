use mem_stream::aof::AofEntry;
use mem_stream::client::{
    add_frame, add_range_frame, check_status, create_group_frame, drop_group_frame, extract_err,
    group_stats_frame, kv_del_frame, kv_flush_frame, kv_get_frame, kv_keys_frame, kv_set_frame,
    l_flush_frame, l_len_frame, l_pop_count_frame, l_pop_frame, l_pop_range_frame, l_push_frame,
    l_push_range_frame, list_groups_frame, read_entries, read_entry, read_frame, read_groups,
    read_keys, read_range_frame, read_stats, read_u64, read_u64_pair, read_value, read_values,
    remove_frame,
};
use mem_stream::db::DB;
use mem_stream::groups::GroupManager;
use mem_stream::pipeline::PipelineManager;
use mem_stream::proto::{parse_command, Command, ParseError};
use mem_stream::response::ResponseBuilder;
use mem_stream::server::{admits, handle_command, parse_failure, Handled};

struct Server {
    db: DB,
    pipelines: PipelineManager,
    rb: ResponseBuilder,
}

impl Server {
    fn new() -> Self {
        Server {
            db: DB::new(GroupManager::new(), false),
            pipelines: PipelineManager::new(),
            rb: ResponseBuilder::new(),
        }
    }

    fn run(&mut self, cmd: Command<'_>) -> Vec<u8> {
        assert!(admits(&self.db, &cmd));
        match handle_command(&mut self.db, &mut self.pipelines, cmd, &mut self.rb) {
            Handled::Reply(r) => {
                let n = u32::from_le_bytes(r[0..4].try_into().unwrap()) as usize;
                assert_eq!(n, r.len() - 4);
                r[4..].to_vec()
            }
            _ => panic!("no reply"),
        }
    }

    fn send(&mut self, frame: Vec<u8>) -> Vec<u8> {
        let cmd = parse_command(&frame).unwrap();
        self.run(cmd)
    }
}

#[test]
fn a_client_works_with_groups() {
    let mut s = Server::new();
    assert_eq!(check_status(&s.send(create_group_frame("g"))), Ok(()));
    assert_eq!(
        check_status(&s.send(create_group_frame("g"))).unwrap_err(),
        "failed to create group: group 'g' already exists"
    );
    assert_eq!(read_u64(&s.send(add_frame("g", 100, b"aaa"))), Some(Ok(1)));
    assert_eq!(
        read_u64_pair(&s.send(add_range_frame("g", &[(200, &b"bb"[..]), (300, &b""[..])]))),
        Some(Ok((2, 3)))
    );
    assert_eq!(
        read_entry(&s.send(read_frame("g", 1))),
        Some(Ok((1, 100, b"aaa".to_vec())))
    );
    assert_eq!(
        read_entry(&s.send(read_frame("g", 9))),
        Some(Err("failed to read from log: log error: entry not found".to_string()))
    );
    assert_eq!(
        read_entries(&s.send(read_range_frame("g", 1, 3))),
        Some(Ok(vec![
            (1, 100, b"aaa".to_vec()),
            (2, 200, b"bb".to_vec()),
            (3, 300, Vec::new())
        ]))
    );
    assert_eq!(read_stats(&s.send(group_stats_frame("g"))), Some(Ok((3, 8, 4))));
    assert_eq!(check_status(&s.send(remove_frame("g", 3))), Ok(()));
    assert_eq!(
        read_entries(&s.send(read_range_frame("g", 0, 10))),
        Some(Ok(vec![(3, 300, Vec::new())]))
    );
    assert_eq!(read_groups(&s.send(list_groups_frame())), Some(Ok(vec!["g".to_string()])));
    assert_eq!(check_status(&s.send(drop_group_frame("g"))), Ok(()));
    assert_eq!(read_groups(&s.send(list_groups_frame())), Some(Ok(Vec::new())));
}

#[test]
fn a_client_works_with_keys() {
    let mut s = Server::new();
    assert_eq!(check_status(&s.send(kv_set_frame("d", "k", b"v", 0))), Ok(()));
    assert_eq!(
        read_value(&s.send(kv_get_frame("d", "k"))),
        Some(Ok(Some(b"v".to_vec())))
    );
    assert_eq!(read_value(&s.send(kv_get_frame("d", "x"))), Some(Ok(None)));
    assert_eq!(read_keys(&s.send(kv_keys_frame("d"))), Some(Ok(vec!["k".to_string()])));
    assert_eq!(check_status(&s.send(kv_del_frame("d", "k"))), Ok(()));
    assert_eq!(
        check_status(&s.send(kv_del_frame("d", "k"))).unwrap_err(),
        "failed to del key: k not found"
    );
    assert_eq!(check_status(&s.send(kv_flush_frame("d"))), Ok(()));
}

#[test]
fn a_time_to_live_is_given_in_seconds() {
    let mut s = Server::new();
    assert_eq!(check_status(&s.send(kv_set_frame("d", "k", b"v", 60))), Ok(()));
    let left = s.db.kv_get("d".into(), "k".into()).unwrap().unwrap().ttl;
    assert!(left > 1_700_000_060_000);
}

#[test]
fn lists_are_served() {
    let mut s = Server::new();
    let vals: Vec<&[u8]> = vec![b"2", b"3", b"4"];
    assert_eq!(check_status(&s.run(Command::LPush { key: "l", val: b"1" })), Ok(()));
    assert_eq!(check_status(&s.run(Command::LPushRange { key: "l", vals })), Ok(()));
    assert_eq!(read_u64(&s.run(Command::LLen { key: "l" })), Some(Ok(4)));
    assert_eq!(
        read_value(&s.run(Command::LPop { key: "l" })),
        Some(Ok(Some(b"1".to_vec())))
    );
    assert_eq!(
        read_values(&s.run(Command::LPopRange { key: "l", start: 1, end: 2 })),
        Some(Ok(vec![b"3".to_vec()]))
    );
    assert_eq!(
        read_values(&s.run(Command::LPopCount { key: "l", count: 2 })),
        Some(Ok(vec![b"2".to_vec(), b"4".to_vec()]))
    );
    assert!(!admits(&s.db, &Command::LPop { key: "l" }));
    assert!(!admits(&s.db, &Command::LPopCount { key: "l", count: 1 }));
    assert_eq!(check_status(&s.run(Command::LFlush { key: "l" })), Ok(()));
    assert_eq!(
        check_status(&s.run(Command::LFlush { key: "none" })).unwrap_err(),
        "failed to flush list: key not found"
    );
}

#[test]
fn pipelines_are_started_and_acknowledged() {
    let mut s = Server::new();
    assert_eq!(read_u64(&s.run(Command::StartPipeline {})), Some(Ok(0)));
    assert_eq!(read_u64(&s.run(Command::StartPipeline {})), Some(Ok(1)));
    assert!(s.pipelines.get(1).is_some());
    assert_eq!(check_status(&s.run(Command::EndPipeline { id: 1 })), Ok(()));
    assert_eq!(check_status(&s.run(Command::HaHeartBeat {})), Ok(()));
}

#[test]
fn what_is_no_command_is_answered_with_the_reason() {
    let mut rb = ResponseBuilder::new();
    let e = parse_command(&[]).unwrap_err();
    let r = parse_failure(&e, &mut rb);
    let m = check_status(&r[4..]).unwrap_err();
    assert_eq!(m, format!("parse error: {}", e.0));
    let r = parse_failure(&ParseError("why"), &mut rb);
    assert_eq!(r, b"\x13\x00\x00\x00\x01\x10\x00parse error: why".to_vec());
}

#[test]
fn frames_of_the_client_for_lists() {
    assert_eq!(
        l_push_frame("k", b"v"),
        b"\x15\x00\x00\x01\x00k\x01\x00\x00\x00v".to_vec()
    );
    assert_eq!(
        l_push_range_frame("k", &[b"v".to_vec()]),
        b"\x16\x00\x00\x01\x00k\x01\x00\x00\x00\x01\x00\x00\x00v".to_vec()
    );
    assert_eq!(l_pop_frame("k"), b"\x17\x00\x00\x01\x00k".to_vec());
    assert_eq!(
        l_pop_range_frame("k", 1, 2),
        b"\x18\x00\x00\x01\x00k\x01\x00\x00\x00\x02\x00\x00\x00".to_vec()
    );
    assert_eq!(
        l_pop_count_frame("k", 7),
        b"\x19\x00\x00\x01\x00k\x07\x00\x00\x00".to_vec()
    );
    assert_eq!(l_len_frame("k"), b"\x20\x00\x00\x01\x00k".to_vec());
    assert_eq!(l_flush_frame("k"), b"\x21\x00\x00\x01\x00k".to_vec());
}

#[test]
fn a_client_works_with_lists() {
    let mut s = Server::new();
    assert_eq!(check_status(&s.send(l_push_frame("l", b"1"))), Ok(()));
    assert_eq!(
        check_status(&s.send(l_push_range_frame("l", &[b"2".to_vec(), b"3".to_vec()]))),
        Ok(())
    );
    assert_eq!(read_u64(&s.send(l_len_frame("l"))), Some(Ok(3)));
    assert_eq!(
        read_value(&s.send(l_pop_frame("l"))),
        Some(Ok(Some(b"1".to_vec())))
    );
    assert_eq!(
        read_values(&s.send(l_pop_range_frame("l", 1, 2))),
        Some(Ok(vec![b"3".to_vec()]))
    );
    assert_eq!(
        read_values(&s.send(l_pop_count_frame("l", 1))),
        Some(Ok(vec![b"2".to_vec()]))
    );
    assert_eq!(check_status(&s.send(l_flush_frame("l"))), Ok(()));
    assert_eq!(
        check_status(&s.send(l_flush_frame("none"))).unwrap_err(),
        "failed to flush list: key not found"
    );
}

#[test]
fn replies_that_break_off_are_noticed() {
    assert_eq!(check_status(&[]).unwrap_err(), "empty response");
    assert_eq!(check_status(&[1, 0]).unwrap_err(), "unknown error");
    assert_eq!(extract_err(ResponseBuilder::new().err("no").split_at(4).1), "no");
    assert_eq!(check_status(&[1, 9, 0, 65]).unwrap_err(), "malformed error response");
    assert_eq!(read_u64(&[]), None);
    assert_eq!(read_u64(&[0, 1, 2]), Some(Err("unknown error".to_string())));
    assert_eq!(read_u64_pair(&[0; 10]), Some(Err(String::new())));
    assert_eq!(read_entry(&[0; 20]), Some(Err(String::new())));
    let mut cut = vec![0u8; 21];
    cut[17] = 1;
    assert_eq!(read_entry(&cut), None);
    assert_eq!(read_entries(&[0, 1, 0, 0, 0, 7]), None);
    assert_eq!(read_keys(&[0, 1, 0, 0, 0, 5]), None);
    assert_eq!(read_value(&[0, 1, 0, 0, 0]), None);
    assert_eq!(read_values(&[0, 1, 0, 0, 0, 5]), None);
}

#[test]
fn what_succeeds_is_logged_and_what_is_refused_is_not() {
    let mut s = Server::new();
    s.send(create_group_frame("g"));
    s.send(create_group_frame("g"));
    s.send(add_frame("g", 1, b"x"));
    s.send(add_frame("h", 1, b"x"));
    s.send(read_frame("g", 1));
    s.send(kv_set_frame("d", "k", b"v", 2));
    s.send(kv_get_frame("d", "k"));
    s.send(kv_del_frame("d", "none"));
    s.run(Command::LPush { key: "l", val: b"1" });
    s.run(Command::LPop { key: "l" });
    s.run(Command::LPop { key: "none" });
    let log = s.db.take_aof();
    assert_eq!(log.len(), 5);
    assert!(matches!(&log[0], AofEntry::LogCreateGroup { name } if name == "g"));
    assert!(matches!(&log[1], AofEntry::LogAdd { group, timestamp: 1, payload }
        if group == "g" && payload == b"x"));
    assert!(matches!(&log[2], AofEntry::KvSet { db, key, val, ttl: 2000 }
        if db == "d" && key == "k" && val == b"v"));
    assert!(matches!(&log[3], AofEntry::ListPush { key, payload } if key == "l" && payload == b"1"));
    assert!(matches!(&log[4], AofEntry::ListPop { key } if key == "l"));
}
