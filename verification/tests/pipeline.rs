use mem_stream::aof::AofEntry;
use mem_stream::db::{DBError, DB};
use mem_stream::groups::GroupManager;
use mem_stream::pipeline::{
    admits_command, execute_command, execute_job, run_job, unique_resources, LockManager, Pipeline,
    PipelineCommand, PipelineError, PipelineManager, Resource,
};

/// Runs a pipeline as the only one there is.
fn run(pipeline: Pipeline, locks: &mut LockManager, db: &mut DB) -> Result<(), PipelineError> {
    locks.enqueue(pipeline.end(0));
    let (job, resources) = locks.try_pop_runnable().unwrap();
    assert!(locks.try_acquire(&resources));
    let r = execute_job(db, job.commands);
    locks.release(&resources);
    r
}

fn make_manager() -> (PipelineManager, LockManager, DB) {
    (
        PipelineManager::new(),
        LockManager::new(),
        DB::new(GroupManager::new(), false),
    )
}

#[test]
fn test_single_kv_set() {
    let (mut manager, mut locks, mut db) = make_manager();
    let id = manager.start();
    manager
        .get(id)
        .unwrap()
        .kv_set("default".into(), "k1".into(), b"v1".to_vec(), 0);
    run(manager.take(id).unwrap(), &mut locks, &mut db).unwrap();

    let val = db.kv_get("default".into(), "k1".into()).unwrap();
    assert!(val.is_some());
}

#[test]
fn test_concurrent_kv_and_list() {
    let (mut manager, mut locks, mut db) = make_manager();

    let id1 = manager.start();
    let id2 = manager.start();
    manager
        .get(id1)
        .unwrap()
        .kv_set("default".into(), "ck".into(), b"v".to_vec(), 0);
    manager
        .get(id2)
        .unwrap()
        .list_push("cl".into(), b"item".to_vec());
    locks.enqueue(manager.take(id1).unwrap().end(1));
    locks.enqueue(manager.take(id2).unwrap().end(2));

    // Both can run before either is done.
    let (job1, resources1) = locks.try_pop_runnable().unwrap();
    assert!(locks.try_acquire(&resources1));
    let (job2, resources2) = locks.try_pop_runnable().unwrap();
    assert!(locks.try_acquire(&resources2));
    execute_job(&mut db, job1.commands).unwrap();
    execute_job(&mut db, job2.commands).unwrap();
    locks.release(&resources1);
    locks.release(&resources2);

    assert!(db.kv_get("default".into(), "ck".into()).unwrap().is_some());
    assert!(db.list_pop("cl".into()).is_ok());
}

#[test]
fn test_pipeline_ordering_by_op_count() {
    let (mut manager, mut locks, mut db) = make_manager();
    for i in 0..5u32 {
        let ops = (5 - i) as usize;
        let id = manager.start();
        let p = manager.get(id).unwrap();
        for j in 0..ops {
            p.kv_set(
                "default".into(),
                format!("ord_{}_{}", i, j),
                b"v".to_vec(),
                0,
            );
        }
        locks.enqueue(manager.take(id).unwrap().end(i as u64));
    }
    let mut order = Vec::new();
    for _ in 0..5 {
        let (job, resources) = locks.try_pop_runnable().unwrap();
        assert!(locks.try_acquire(&resources));
        // The others wait for the same store.
        assert!(locks.try_pop_runnable().is_none());
        order.push((job.ticket, job.commands.len()));
        execute_job(&mut db, job.commands).unwrap();
        locks.release(&resources);
    }
    assert_eq!(order, vec![(4, 1), (3, 2), (2, 3), (1, 4), (0, 5)]);
    assert!(locks.try_pop_runnable().is_none());
}

#[test]
fn test_empty_pipeline() {
    let (mut manager, mut locks, mut db) = make_manager();
    let id = manager.start();
    assert!(run(manager.take(id).unwrap(), &mut locks, &mut db).is_ok());
}

#[test]
fn test_kv_flush() {
    let (mut manager, mut locks, mut db) = make_manager();
    db.kv_set("default".into(), "fk".into(), b"v".to_vec(), 0).unwrap();

    let id = manager.start();
    manager.get(id).unwrap().kv_flush("default".into());
    run(manager.take(id).unwrap(), &mut locks, &mut db).unwrap();

    let val = db.kv_get("default".into(), "fk".into()).unwrap();
    assert!(val.is_none());
}

#[test]
fn test_get_and_remove_pipeline() {
    let (mut manager, _locks, _db) = make_manager();
    let id = manager.start();

    assert!(manager.get(id).is_some());
    manager.remove(id);
    assert!(manager.get(id).is_none());
}

#[test]
fn a_job_that_fails_changes_nothing() {
    let mut db = DB::new(GroupManager::new(), true);
    db.kv_set("d".into(), "a".into(), b"0".to_vec(), 0).unwrap();
    db.kv_set("e".into(), "x".into(), b"9".to_vec(), 0).unwrap();
    db.list_push("l".into(), b"1".to_vec()).unwrap();
    db.list_push("m".into(), b"2".to_vec()).unwrap();
    db.list_push("m".into(), b"3".to_vec()).unwrap();
    db.log_create_group("g").unwrap();
    db.log_add("g", 5, b"one").unwrap();
    let logged = db.take_aof().len();
    assert_eq!(logged, 7);
    db.kv_set("d".into(), "z".into(), b"z".to_vec(), 0).unwrap();

    let mut manager = PipelineManager::new();
    let mut locks = LockManager::new();
    let id = manager.start();
    manager
        .get(id)
        .unwrap()
        .kv_set("d".into(), "a".into(), b"1".to_vec(), 0)
        .kv_set("new".into(), "a".into(), b"1".to_vec(), 0)
        .kv_del("d".into(), "a".into())
        .kv_flush("e".into())
        .list_push("l".into(), b"7".to_vec())
        .list_push("fresh".into(), b"8".to_vec())
        .list_pop("l".into())
        .list_flush("m".into())
        .log_add("g".into(), 6, b"two".to_vec())
        .log_add("g".into(), 7, vec![0; 65_000])
        .log_add("nowhere".into(), 1, b"x".to_vec())
        .kv_set("d".into(), "b".into(), b"2".to_vec(), 0);
    let e = run(manager.take(id).unwrap(), &mut locks, &mut db).unwrap_err();
    assert_eq!(
        e.message(),
        "pipeline exec error: failed to append to log: group 'nowhere' not found"
    );
    assert_eq!(db.kv_get("d".into(), "a".into()).unwrap().unwrap().val, b"0");
    assert_eq!(db.kv_get("e".into(), "x".into()).unwrap().unwrap().val, b"9");
    assert!(db.kv_keys("new".into()).unwrap().is_empty());
    assert!(db.kv_get("d".into(), "b".into()).unwrap().is_none());
    assert_eq!(db.list_length("l"), Some(1));
    assert_eq!(db.list_length("fresh"), None);
    assert_eq!(db.list_pop("l".into()).unwrap(), b"1");
    assert_eq!(
        db.list_pop_count("m".into(), 2).unwrap(),
        vec![b"2".to_vec(), b"3".to_vec()]
    );
    assert_eq!(db.log_read("g", 1).unwrap(), (1, 5, b"one".to_vec()));
    assert!(db.log_read("g", 2).is_err());
    let stats = db.log_group_stats("g").unwrap();
    assert_eq!((stats.total_entries, stats.total_segments, stats.next_id), (1, 8, 2));
    assert_eq!(db.log_add("g", 8, b"again").unwrap(), 2);
    assert_eq!(db.log_read("g", 2).unwrap(), (2, 8, b"again".to_vec()));
    // The write before the job, two pops and the append behind it.
    assert_eq!(db.take_aof().len(), 4);
    assert_eq!(PipelineError::SendError.message(), "pipeline channel closed");
}

#[test]
fn a_job_that_drops_a_key_that_is_not_there_changes_nothing() {
    let mut db = DB::new(GroupManager::new(), false);
    let job = vec![
        PipelineCommand::ListPush { key: "l".into(), payload: b"1".to_vec() },
        PipelineCommand::KvDel { db: "d".into(), key: "k".into() },
    ];
    assert!(matches!(
        execute_job(&mut db, job),
        Err(PipelineError::ExecError(DBError::KVDelError(_)))
    ));
    assert_eq!(db.list_length("l"), None);
    assert!(db.take_aof().is_empty());
}

#[test]
fn a_job_that_pops_an_empty_list_is_not_run() {
    let mut db = DB::new(GroupManager::new(), false);
    let job = || {
        vec![
            PipelineCommand::ListPush { key: "l".into(), payload: b"1".to_vec() },
            PipelineCommand::ListPop { key: "l".into() },
            PipelineCommand::ListPop { key: "l".into() },
        ]
    };
    assert!(run_job(&mut db, job()).is_none());
    assert_eq!(db.list_length("l"), None);
    assert!(db.take_aof().is_empty());
    db.list_push("l".into(), b"0".to_vec()).unwrap();
    assert!(matches!(run_job(&mut db, job()), Some(Ok(()))));
    assert_eq!(db.list_length("l"), Some(0));
    assert_eq!(db.take_aof().len(), 4);
}

#[test]
fn every_command_of_a_pipeline_does_its_work() {
    let (mut manager, mut locks, mut db) = make_manager();
    db.log_create_group("g").unwrap();
    db.take_aof();
    let id = manager.start();
    let p = manager.get(id).unwrap();
    p.kv_set("d".into(), "k".into(), b"v".to_vec(), 0)
        .kv_del("d".into(), "k".into())
        .kv_flush("d".into())
        .list_push("l".into(), b"1".to_vec())
        .list_push("l".into(), b"2".to_vec())
        .list_pop("l".into())
        .log_add("g".into(), 7, b"e".to_vec())
        .list_flush("l".into());
    assert_eq!(p.commands.len(), 8);
    assert_eq!(
        unique_resources(&p.commands),
        vec![Resource::Kv, Resource::List, Resource::Log]
    );
    run(manager.take(id).unwrap(), &mut locks, &mut db).unwrap();
    assert_eq!(db.take_aof().len(), 8);
    assert_eq!(db.list_length("l"), Some(0));
    assert_eq!(db.log_read("g", 1).unwrap(), (1, 7, b"e".to_vec()));
}

#[test]
fn commands_that_cannot_run_are_told_beforehand() {
    let (_manager, _locks, mut db) = make_manager();
    let pop = PipelineCommand::ListPop { key: "l".into() };
    assert!(admits_command(&db, &pop));
    assert!(matches!(
        execute_command(&mut db, PipelineCommand::ListPop { key: "l".into() }),
        Err(DBError::ListPopError(_))
    ));
    db.list_push("l".into(), b"1".to_vec()).unwrap();
    assert!(admits_command(&db, &pop));
    execute_command(&mut db, PipelineCommand::ListPop { key: "l".into() }).unwrap();
    assert!(!admits_command(&db, &pop));
    assert!(matches!(&db.take_aof()[1], AofEntry::ListPop { key } if key == "l"));
}

#[test]
fn locks_are_given_back() {
    let mut locks = LockManager::new();
    assert!(locks.try_acquire(&[Resource::Kv, Resource::Log]));
    assert!(!locks.try_acquire(&[Resource::Log]));
    assert!(locks.try_acquire(&[Resource::List]));
    locks.release(&[Resource::Kv, Resource::Log]);
    assert!(locks.try_acquire(&[Resource::Log]));
    assert!(!locks.try_acquire(&[Resource::List]));
}
