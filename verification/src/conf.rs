//! The configuration of a server, and what it leads to.

use crate::text::{decimal, push_decimal};
use crate::views::copy_str;
use vstd::prelude::*;

verus! {

/// Where the append-only log is kept.
#[derive(Debug, Clone)]
pub struct AofConf {
    pub max_size: usize,
    pub dir: String,
}

/// What a replicated server is.
#[derive(Debug, Clone, Copy, PartialEq, Eq, Structural)]
pub enum ReplicaRole {
    Leader,
    Follower,
}

/// How a server is replicated.
#[derive(Debug)]
pub struct ReplicaConf {
    pub is_replica: bool,
    pub role: Option<ReplicaRole>,
    pub followers: Option<Vec<String>>,
    pub master: Option<String>,
    /// How many writes are sent to followers at a time.
    pub event_buffer_size: Option<usize>,
}

/// The configuration of a server.
#[derive(Debug)]
pub struct Conf {
    pub port: usize,
    pub aof: AofConf,
    pub lru_size: usize,
    pub replica_conf: Option<ReplicaConf>,
}

pub fn default_port() -> (r: usize)
    ensures
        r == 9090,
{
    9090
}

pub fn default_lru() -> (r: usize)
    ensures
        r == 1_000_000,
{
    1_000_000
}

/// Whether a server is not replicated.
pub open spec fn is_standalone(r: Option<ReplicaConf>) -> bool {
    r matches Some(c) && !c.is_replica && c.role is None && c.followers is None && c.master is None
        && c.event_buffer_size is None
}

pub fn default_replica() -> (r: Option<ReplicaConf>)
    ensures
        is_standalone(r),
{
    Some(
        ReplicaConf {
            is_replica: false,
            role: None,
            followers: None,
            master: None,
            event_buffer_size: None,
        },
    )
}

pub fn default_aof() -> (r: AofConf)
    ensures
        r.max_size == 1000,
        r.dir@ == "aof/log.aof"@,
{
    AofConf { max_size: 1000, dir: copy_str("aof/log.aof") }
}

impl Default for Conf {
    fn default() -> (r: Self)
        ensures
            r.port == 9090,
            r.aof.max_size == 1000,
            r.aof.dir@ == "aof/log.aof"@,
            r.lru_size == 1_000_000,
            is_standalone(r.replica_conf),
    {
        Conf {
            port: default_port(),
            aof: default_aof(),
            lru_size: default_lru(),
            replica_conf: default_replica(),
        }
    }
}

/// Where a server listens: at the address that is given, or at its port on this machine.
pub fn listen_address(given: Option<String>, port: usize) -> (r: String)
    ensures
        r@ == (match given {
            Some(addr) => addr@,
            None => "localhost:"@ + decimal(port as nat),
        }),
{
    match given {
        Some(addr) => addr,
        None => {
            let mut r = copy_str("localhost:");
            push_decimal(&mut r, port as u64);
            r
        },
    }
}

/// What a server does about replication when it starts.
#[derive(Debug, Clone, Copy, PartialEq, Eq, Structural)]
pub enum Startup {
    /// Nothing.
    Standalone,
    /// Sends its writes to followers, and checks on them.
    Lead,
    /// Sends its writes to followers, and registers with its master.
    Follow,
    /// Sends its writes to followers.
    Forward,
}

impl ReplicaConf {
    /// What a server does about replication when it starts. A replica has a master.
    pub fn startup(&self) -> (r: Startup)
        requires
            self.is_replica ==> self.master is Some,
        ensures
            r == (if !self.is_replica {
                Startup::Standalone
            } else {
                match self.role {
                    Some(ReplicaRole::Leader) => Startup::Lead,
                    Some(ReplicaRole::Follower) => Startup::Follow,
                    None => Startup::Forward,
                }
            }),
    {
        if !self.is_replica {
            return Startup::Standalone;
        }
        match self.role {
            Some(ReplicaRole::Leader) => Startup::Lead,
            Some(ReplicaRole::Follower) => Startup::Follow,
            None => Startup::Forward,
        }
    }
}

/// A server that is no replica does nothing about replication. One that is one acts by its role.
pub proof fn law_startup(conf: &ReplicaConf, r: Startup)
    requires
        call_ensures(ReplicaConf::startup, (conf,), r),
    ensures
        r is Standalone <==> !conf.is_replica,
        r is Lead <==> conf.is_replica && conf.role == Some(ReplicaRole::Leader),
        r is Follow <==> conf.is_replica && conf.role == Some(ReplicaRole::Follower),
        r is Forward <==> conf.is_replica && conf.role is None,
{
}

/// A server listens where it is told to, and otherwise at its port on this machine.
pub proof fn law_listen_address(given: String, port: usize, at_given: String, at_port: String)
    requires
        call_ensures(listen_address, (Some(given), port), at_given),
        call_ensures(listen_address, (None, port), at_port),
    ensures
        at_given@ == given@,
        at_port@ == "localhost:"@ + decimal(port as nat),
{
}

/// Unless it is told otherwise, a server has the port 9090, keeps its log in `aof/log.aof`, and is not
/// replicated.
pub proof fn law_default_conf(c: Conf)
    requires
        call_ensures(Conf::default, (), c),
    ensures
        c.port == 9090 && c.lru_size == 1_000_000 && c.aof.max_size == 1000,
        c.aof.dir@ == "aof/log.aof"@,
        c.replica_conf matches Some(r) && !r.is_replica && r.role is None && r.followers is None
            && r.master is None && r.event_buffer_size is None,
{
}

} // verus!
