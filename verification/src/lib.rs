//! An in-memory log, list and key-value server: storage engines, wire protocol,
//! persistence log, pipelines and replication decisions, each with a verified contract.

pub mod aof;
pub mod api;
pub mod b64;
pub mod client;
pub mod clock;
pub mod codec;
pub mod conf;
pub mod db;
pub mod exchange;
pub mod groups;
pub mod ha;
pub mod idindex;
pub mod journal;
pub mod kv;
pub mod le;
pub mod lru;
pub mod names;
pub mod payload;
pub mod pipeline;
pub mod proto;
pub mod response;
pub mod seg_list;
pub mod seg_log;
pub mod server;
pub mod snapshot;
pub mod span;
pub mod strmap;
pub mod text;
pub mod views;
pub mod wire;
