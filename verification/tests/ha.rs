use mem_stream::aof::AofEntry;
use mem_stream::b64::to_base64;
use mem_stream::db::DB;
use mem_stream::groups::GroupManager;
use mem_stream::ha::{
    check_heartbeat, check_registration, check_sync, heartbeat_frame, register_frame, sync_frame,
    with_length, HaConf, HaManager,
};
use mem_stream::pipeline::PipelineManager;
use mem_stream::proto::{parse_command, Command};
use mem_stream::response::ResponseBuilder;
use mem_stream::server::{handle_command, Handled};

fn flush(db: &str) -> AofEntry {
    AofEntry::KvFlush { db: db.to_string() }
}

#[test]
fn writes_are_sent_in_batches() {
    let mut m = HaManager::new(HaConf::new(), Some(3));
    assert!(m.push_event(flush("a")).is_none());
    assert!(m.push_event(flush("b")).is_none());
    let batch = m.push_event(flush("c")).unwrap();
    assert_eq!(batch.len(), 3);
    assert!(matches!(&batch[0], AofEntry::KvFlush { db } if db == "a"));
    assert!(matches!(&batch[2], AofEntry::KvFlush { db } if db == "c"));
    assert!(m.push_event(flush("d")).is_none());
    let mut m = HaManager::new(HaConf::new(), None);
    for _ in 0..99 {
        assert!(m.push_event(flush("a")).is_none());
    }
    assert_eq!(m.push_event(flush("a")).unwrap().len(), 100);
}

#[test]
fn a_follower_is_dropped_after_too_many_misses() {
    let mut m = HaManager::new(HaConf::new(), None);
    m.register_follower("a:1", Ok(())).unwrap();
    m.register_follower("b:1", Ok(())).unwrap();
    let e = m.register_follower("c:1", Err("no route".to_string())).unwrap_err();
    assert_eq!(e, "failed to register follower: no route");
    assert_eq!(m.followers(), vec!["a:1", "b:1"]);
    for _ in 0..3 {
        m.missed_heartbeat("a:1");
        assert_eq!(m.followers(), vec!["a:1", "b:1"]);
    }
    m.missed_heartbeat("a:1");
    assert_eq!(m.followers(), vec!["b:1"]);
}

#[test]
fn frames_of_replication_parse() {
    assert!(matches!(
        parse_command(&register_frame("h:9")).unwrap(),
        Command::HaRegisterFollower { addr: "h:9" }
    ));
    assert!(matches!(
        parse_command(&heartbeat_frame()).unwrap(),
        Command::HaHeartBeat {}
    ));
    let docs = vec![to_base64(b"{}"), to_base64(b"[1]")];
    let frame = sync_frame(&docs);
    match parse_command(&frame).unwrap() {
        Command::HaSync { entries } => {
            assert_eq!(entries, vec![docs[0].as_bytes(), docs[1].as_bytes()]);
        }
        _ => panic!("another command"),
    }
    assert_eq!(with_length(b"ab"), b"\x02\x00\x00\x00ab");
}

#[test]
fn a_server_takes_what_a_leader_sends() {
    let mut db = DB::new(GroupManager::new(), false);
    let mut pipelines = PipelineManager::new();
    let mut rb = ResponseBuilder::new();
    let frame = sync_frame(&vec![to_base64(b"{\"op\":1}"), to_base64(b"")]);
    let cmd = parse_command(&frame).unwrap();
    match handle_command(&mut db, &mut pipelines, cmd, &mut rb) {
        Handled::Sync(docs) => assert_eq!(docs, vec![b"{\"op\":1}".to_vec(), Vec::new()]),
        _ => panic!("another answer"),
    }
    let frame = register_frame("h:9");
    let cmd = parse_command(&frame).unwrap();
    match handle_command(&mut db, &mut pipelines, cmd, &mut rb) {
        Handled::Register(addr) => assert_eq!(addr, "h:9"),
        _ => panic!("another answer"),
    }
    let frame = heartbeat_frame();
    let cmd = parse_command(&frame).unwrap();
    match handle_command(&mut db, &mut pipelines, cmd, &mut rb) {
        Handled::Reply(r) => assert!(check_heartbeat(&r[4..]).is_ok()),
        _ => panic!("another answer"),
    }
}

#[test]
fn replies_are_checked() {
    assert!(check_registration(&[0], "m:1").is_ok());
    assert_eq!(
        check_registration(&[1], "m:1").unwrap_err(),
        "failed to register to master with addr: m:1"
    );
    assert_eq!(
        check_heartbeat(&[1]).unwrap_err(),
        "heartbeat did not respond successfully"
    );
    assert!(check_sync(&[0]).is_ok());
    assert_eq!(check_sync(&[7]).unwrap_err(), "sync failed");
}

#[test]
fn each_round_asks_every_follower() {
    let mut m = HaManager::new(HaConf::new(), None);
    for addr in ["a:1", "b:1", "c:1"] {
        m.register_follower(addr, Ok(())).unwrap();
    }
    for _ in 0..3 {
        let asked = m.followers();
        assert_eq!(asked, vec!["a:1", "b:1", "c:1"]);
        m.heartbeat_followers(&asked, &vec![true, false, false]);
    }
    let asked = m.followers();
    m.heartbeat_followers(&asked, &vec![true, false, true]);
    assert_eq!(m.followers(), vec!["a:1", "c:1"]);
    let asked = m.followers();
    m.heartbeat_followers(&asked, &vec![true, false]);
    assert_eq!(m.followers(), vec!["a:1"]);
}
