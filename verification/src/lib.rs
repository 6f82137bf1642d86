//! A replicated key-value store on the Raft consensus protocol.

pub mod actor;
pub mod agenda;
pub mod args;
pub mod bench;
pub mod client;
pub mod cluster;
pub mod codec;
pub mod completeness;
pub mod config;
pub mod deferral;
pub mod duties;
pub mod election;
pub mod following;
pub mod freshness;
pub mod growth;
pub mod history;
pub mod induction;
pub mod kv;
pub mod laws;
pub mod leading;
pub mod log;
pub mod message;
pub mod metrics;
pub mod node;
pub mod progress;
pub mod quorum;
pub mod recovery;
pub mod replicas;
pub mod replication;
pub mod safety;
pub mod service;
pub mod state;
pub mod storage;
pub mod takeover;
pub mod text;
pub mod timer;
pub mod transitions;
pub mod transport;

pub use config::RaftConfig;
pub use node::RaftNode;
pub use state::{Actions, PersistentState, Role};
