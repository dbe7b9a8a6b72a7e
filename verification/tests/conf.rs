use mem_stream::conf::{
    default_aof, default_lru, default_port, default_replica, listen_address, Conf, ReplicaConf,
    ReplicaRole, Startup,
};

#[test]
fn defaults() {
    let c = Conf::default();
    assert_eq!(c.port, 9090);
    assert_eq!(c.aof.dir, "aof/log.aof");
    assert_eq!(c.aof.max_size, 1000);
    assert_eq!(c.lru_size, 1_000_000);
    assert!(!c.replica_conf.unwrap().is_replica);
    assert_eq!(default_port(), 9090);
    assert_eq!(default_lru(), 1_000_000);
    assert_eq!(default_aof().max_size, 1000);
    assert!(default_replica().unwrap().master.is_none());
}

#[test]
fn a_server_listens_on_its_port() {
    assert_eq!(listen_address(None, 9090), "localhost:9090");
    assert_eq!(listen_address(Some("0.0.0.0:1".to_string()), 9090), "0.0.0.0:1");
}

fn replica(is_replica: bool, role: Option<ReplicaRole>) -> ReplicaConf {
    ReplicaConf {
        is_replica,
        role,
        followers: None,
        master: Some("m:1".to_string()),
        event_buffer_size: None,
    }
}

#[test]
fn what_a_server_does_at_its_start() {
    assert_eq!(replica(false, Some(ReplicaRole::Leader)).startup(), Startup::Standalone);
    assert_eq!(replica(true, Some(ReplicaRole::Leader)).startup(), Startup::Lead);
    assert_eq!(replica(true, Some(ReplicaRole::Follower)).startup(), Startup::Follow);
    assert_eq!(replica(true, None).startup(), Startup::Forward);
}
