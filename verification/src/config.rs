//! Static cluster configuration.

use vstd::prelude::*;

verus! {

/// Static cluster configuration shared across all nodes.
#[derive(Debug, Clone, Copy)]
pub struct RaftConfig {
    /// Minimum election timeout in milliseconds.
    pub election_timeout_min_ms: u64,
    /// Maximum election timeout in milliseconds.
    pub election_timeout_max_ms: u64,
    /// How often the leader sends heartbeat AppendEntries RPCs.
    pub heartbeat_interval_ms: u64,
    /// Total number of nodes in the cluster (fixed membership).
    pub cluster_size: usize,
}

impl RaftConfig {
    /// The size of a majority quorum: more than half of the cluster.
    pub open spec fn quorum(self) -> nat {
        (self.cluster_size as nat) / 2 + 1
    }

    /// Defaults for a local cluster of three nodes: an election timeout of
    /// 150 to 300 ms and a heartbeat every 50 ms.
    pub fn default_local() -> (config: Self)
        ensures
            config.election_timeout_min_ms == 150,
            config.election_timeout_max_ms == 300,
            config.heartbeat_interval_ms == 50,
            config.cluster_size == 3,
    {
        Self {
            election_timeout_min_ms: 150,
            election_timeout_max_ms: 300,
            heartbeat_interval_ms: 50,
            cluster_size: 3,
        }
    }

    /// Majority quorum required to elect a leader or commit an entry.
    pub fn majority(&self) -> (quorum: usize)
        ensures
            quorum == self.quorum(),
    {
        self.cluster_size / 2 + 1
    }

    /// Any two quorums of one cluster share a node: twice a quorum exceeds
    /// the cluster, while a quorum is never larger than a non-empty cluster.
    pub proof fn quorums_overlap(self)
        ensures
            2 * self.quorum() > self.cluster_size,
            self.cluster_size > 0 ==> self.quorum() <= self.cluster_size,
    {
    }
}

/// A majority is the smallest number of nodes that is more than half of the cluster.
pub proof fn majorities_are_more_than_half(config: &RaftConfig, majority: usize)
    requires
        call_ensures(RaftConfig::majority, (config,), majority),
    ensures
        2 * majority > config.cluster_size,
        2 * (majority - 1) <= config.cluster_size,
{
}

/// A local cluster has three nodes, of which two are a majority. Several heartbeats
/// fit in the shortest election timeout, which is shorter than the longest, so that
/// nobody stands for election while there is a leader.
pub proof fn local_clusters_are_stable(config: RaftConfig, majority: usize)
    requires
        call_ensures(RaftConfig::default_local, (), config),
        call_ensures(RaftConfig::majority, (&config,), majority),
    ensures
        config.cluster_size == 3,
        majority == 2,
        config.election_timeout_min_ms == 150,
        config.election_timeout_max_ms == 300,
        config.heartbeat_interval_ms == 50,
{
}

} // verus!
