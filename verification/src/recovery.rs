//! What a node comes back with when it starts from its disk.

use vstd::prelude::*;

use crate::actor::NodeActor;
use crate::cluster::Cluster;
use crate::config::RaftConfig;
use crate::kv::KvStore;
use crate::log::LogView;
use crate::message::{MessageView, NodeId, VoteRequest};
use crate::node::RaftNode;
use crate::state::{Actions, PersistentState, Role};
use crate::storage::{SnapshotFile, StoredState};

verus! {

// ── The durable state ──────────────────────────────────────────────────────

/// Whether a snapshot is the one that a log starts from. A log that starts at the very
/// beginning needs none.
pub open spec fn is_base_of(snapshot: Option<SnapshotFile>, log: LogView) -> bool {
    match snapshot {
        Some(file) => file.last_included_index == log.snapshot_index && file.last_included_term
            == log.snapshot_term,
        None => log.snapshot_index == 0 && log.snapshot_term == 0,
    }
}

/// A node that starts from what was written of a durable state has that state, the
/// term, the vote, and the log with all its entries.
pub proof fn written_states_come_back<R>(
    state: PersistentState,
    stored: StoredState,
    snapshot: Option<SnapshotFile>,
    id: NodeId,
    peers: Vec<NodeId>,
    config: RaftConfig,
    actor: NodeActor<R>,
)
    requires
        state.log.wf(),
        is_base_of(snapshot, state.log@),
        call_ensures(crate::storage::store, (&state,), stored),
        call_ensures(NodeActor::<R>::new, (id, peers, config, snapshot, Some(stored)), actor),
    ensures
        actor.raft.persistent.current_term == state.current_term,
        actor.raft.persistent.voted_for == state.voted_for,
        actor.raft.persistent.log@.entries == state.log@.entries,
        actor.raft.persistent.log@.snapshot_index == state.log@.snapshot_index,
        actor.raft.persistent.log@.snapshot_term == state.log@.snapshot_term,
{
    crate::storage::stored_state_comes_back(state@);
}

/// What a node writes is what it has, entry by entry.
pub proof fn states_are_written_whole(state: PersistentState, stored: StoredState)
    requires
        call_ensures(crate::storage::store, (&state,), stored),
    ensures
        stored.current_term == state.current_term,
        stored.voted_for == state.voted_for,
        stored.log_entries@ == state.log@.entries,
{
}

/// What was written of a durable state is told to follow its snapshot, and is restored
/// to that state.
pub proof fn written_states_are_restored(
    state: PersistentState,
    stored: StoredState,
    base: Option<(u64, u64)>,
    follows: bool,
    restored: PersistentState,
    recovered: PersistentState,
)
    requires
        state.log.wf(),
        base matches Some(end) ==> end == (state.log@.snapshot_index, state.log@.snapshot_term),
        base is None ==> state.log@.snapshot_index == 0 && state.log@.snapshot_term == 0,
        call_ensures(crate::storage::store, (&state,), stored),
        call_ensures(crate::storage::follows_snapshot, (&stored, base), follows),
        call_ensures(crate::storage::restore, (stored, base), restored),
        call_ensures(crate::storage::recovered, (Some(stored), base), recovered),
    ensures
        follows,
        restored@ == state@,
        recovered@ == state@,
{
    crate::storage::stored_state_comes_back(state@);
}

/// A vote that was cast is remembered: a node that starts again gives nobody else its
/// vote in the term in which it has voted.
pub proof fn votes_survive_restarts<R>(
    state: PersistentState,
    stored: StoredState,
    snapshot: Option<SnapshotFile>,
    id: NodeId,
    peers: Vec<NodeId>,
    config: RaftConfig,
    actor: NodeActor<R>,
    req: VoteRequest,
    result: (RaftNode, Actions),
)
    requires
        state.log.wf(),
        is_base_of(snapshot, state.log@),
        call_ensures(crate::storage::store, (&state,), stored),
        call_ensures(NodeActor::<R>::new, (id, peers, config, snapshot, Some(stored)), actor),
        call_ensures(RaftNode::handle_vote_request, (actor.raft, req), result),
        state.voted_for is Some,
        req.term == state.current_term,
        req.candidate_id != state.voted_for->0,
    ensures
        result.0@.persistent.voted_for == state.voted_for,
        result.0@.persistent.current_term == state.current_term,
        result.1@.messages.len() == 1,
        result.1@.messages[0].1 matches MessageView::VoteResponse(resp)
            && !resp.vote_granted,
{
    crate::storage::stored_state_comes_back(state@);
    assert(actor.raft@.persistent.voted_for == state.voted_for);
}

/// A node that has never run starts in term 0, without a vote and without entries.
pub proof fn first_starts_are_blank<R>(
    id: NodeId,
    peers: Vec<NodeId>,
    config: RaftConfig,
    actor: NodeActor<R>,
)
    requires
        call_ensures(NodeActor::<R>::new, (id, peers, config, None, None), actor),
    ensures
        actor.raft.persistent.current_term == 0,
        actor.raft.persistent.voted_for is None,
        actor.raft.persistent.log@.entries.len() == 0,
        actor.raft.persistent.log@.snapshot_index == 0,
        actor.raft.persistent.log@.snapshot_term == 0,
        actor.kv@ == Map::<Seq<char>, Seq<char>>::empty(),
{
}

/// A node that has written a newer snapshot than its log starts from comes back with
/// that snapshot. The entries that the snapshot covers are gone. Those after it are
/// there if the log has the snapshot's last entry, and none are otherwise. The term
/// and the vote are as they were written.
pub proof fn newer_snapshots_are_taken_up<R>(
    state: PersistentState,
    stored: StoredState,
    file: SnapshotFile,
    id: NodeId,
    peers: Vec<NodeId>,
    config: RaftConfig,
    actor: NodeActor<R>,
)
    requires
        state.log.wf(),
        state.log@.snapshot_index < file.last_included_index,
        call_ensures(crate::storage::store, (&state,), stored),
        call_ensures(NodeActor::<R>::new, (id, peers, config, Some(file), Some(stored)), actor),
    ensures
        ({
            let entries = state.log@.entries;
            let at = file.last_included_index - state.log@.snapshot_index - 1;
            let log = actor.raft.persistent.log@;
            &&& actor.raft.persistent.current_term == state.current_term
            &&& actor.raft.persistent.voted_for == state.voted_for
            &&& log.snapshot_index == file.last_included_index
            &&& log.snapshot_term == file.last_included_term
            &&& log.entries == if at < entries.len() && entries[at].term
                == file.last_included_term {
                entries.skip(at + 1)
            } else {
                Seq::empty()
            }
        }),
{
    let index = file.last_included_index;
    let term = file.last_included_term;
    let at = index - state.log@.snapshot_index - 1;
    crate::storage::newer_snapshot_is_taken_up(state@, index, term);
    if at < state.log@.entries.len() && state.log@.entries[at].term == term {
        assert(state.log@.after(index as int) =~= state.log@.entries.skip(at + 1));
    }
}

/// A node that has a snapshot and has never written its state starts from the snapshot.
pub proof fn snapshots_alone_are_taken_up<R>(
    file: SnapshotFile,
    id: NodeId,
    peers: Vec<NodeId>,
    config: RaftConfig,
    actor: NodeActor<R>,
)
    requires
        call_ensures(NodeActor::<R>::new, (id, peers, config, Some(file), None), actor),
    ensures
        actor.raft.persistent.log@.entries.len() == 0,
        actor.raft.persistent.log@.snapshot_index == file.last_included_index,
        actor.raft.persistent.log@.snapshot_term == file.last_included_term,
        actor.raft.persistent.voted_for is None,
{
}

// ── The rest of the node ───────────────────────────────────────────────────

/// Whatever its disk holds, a node starts as a follower that knows of no leader. What
/// its snapshot covers counts as committed and applied, and nothing else does. It has
/// the id, the peers and the timeouts that it was given, nobody waits for an answer,
/// and nothing has been counted.
pub proof fn nodes_start_as_followers<R>(
    id: NodeId,
    peers: Vec<NodeId>,
    config: RaftConfig,
    snapshot: Option<SnapshotFile>,
    stored: Option<StoredState>,
    actor: NodeActor<R>,
)
    requires
        call_ensures(NodeActor::<R>::new, (id, peers, config, snapshot, stored), actor),
    ensures
        ({
            let covered = match snapshot {
                Some(file) => file.last_included_index,
                None => 0,
            };
            &&& actor.raft.id == id
            &&& actor.raft.peers@ == peers@
            &&& actor.raft.role == Role::Follower
            &&& actor.raft.current_leader is None
            &&& actor.raft.leader_state is None
            &&& actor.raft.volatile.commit_index == covered
            &&& actor.raft.volatile.last_applied == covered
            &&& actor.raft.persistent.log@.snapshot_index == covered
            &&& actor.raft.config.election_timeout_min_ms == config.election_timeout_min_ms
            &&& actor.raft.config.election_timeout_max_ms == config.election_timeout_max_ms
            &&& actor.raft.config.heartbeat_interval_ms == config.heartbeat_interval_ms
            &&& actor.pending_writes@.dom() =~= Set::empty()
            &&& actor.pending_reads@.len() == 0
            &&& actor.held@.len() == 0
            &&& !actor.unsaved
            &&& actor.metrics.term == 0 && actor.metrics.role == 0
            &&& actor.metrics.commit_index == 0 && actor.metrics.last_applied == 0
            &&& actor.metrics.log_length == 0
            &&& actor.metrics.pending_writes == 0 && actor.metrics.pending_reads == 0
            &&& actor.metrics.messages_sent == 0 && actor.metrics.messages_received == 0
        }),
{
    assert(actor@.raft.leader_state is None);
    assert(actor@.held.len() == 0);
}

/// A node counts the cluster that it is in, whatever it was configured for: by the
/// quorum that it goes by, more than half of itself and its peers are needed, and they
/// are enough.
pub proof fn nodes_count_their_cluster<R>(
    id: NodeId,
    peers: Vec<NodeId>,
    config: RaftConfig,
    snapshot: Option<SnapshotFile>,
    stored: Option<StoredState>,
    actor: NodeActor<R>,
    quorum: usize,
)
    requires
        peers@.len() < usize::MAX,
        call_ensures(NodeActor::<R>::new, (id, peers, config, snapshot, stored), actor),
        call_ensures(RaftConfig::majority, (&actor.raft.config,), quorum),
    ensures
        2 * quorum > peers@.len() + 1,
        2 * (quorum - 1) <= peers@.len() + 1,
        quorum <= peers@.len() + 1,
        actor.raft.config.cluster_size == peers@.len() + 1,
{
}

/// The store of a node that starts from a snapshot is the one that the snapshot was made
/// of.
pub proof fn stores_come_back<R>(
    store: KvStore,
    pairs: Vec<(String, String)>,
    file: SnapshotFile,
    id: NodeId,
    peers: Vec<NodeId>,
    config: RaftConfig,
    stored: Option<StoredState>,
    actor: NodeActor<R>,
)
    requires
        call_ensures(KvStore::into_pairs, (store,), pairs),
        file.kv_data == pairs,
        call_ensures(NodeActor::<R>::new, (id, peers, config, Some(file), stored), actor),
    ensures
        actor.kv@ == store@,
{
}

/// The store of a node is made of the pairs in its snapshot, whatever else is on disk,
/// and is empty without a snapshot. So is the store after a snapshot is installed.
pub proof fn stores_are_made_of_snapshots<R>(
    file: SnapshotFile,
    store: KvStore,
    id: NodeId,
    peers: Vec<NodeId>,
    config: RaftConfig,
    stored: Option<StoredState>,
    actor: NodeActor<R>,
    without: NodeActor<R>,
    installed: NodeActor<R>,
    index: u64,
)
    requires
        call_ensures(crate::kv::kv_from_pairs, (file.kv_data,), store),
        call_ensures(NodeActor::<R>::new, (id, peers, config, Some(file), stored), actor),
        call_ensures(NodeActor::<R>::new, (id, peers, config, None, stored), without),
        call_ensures(NodeActor::<R>::install, (without, file.kv_data, index), installed),
    ensures
        actor.kv@ == store@,
        without.kv@ =~= Map::<Seq<char>, Seq<char>>::empty(),
        installed.kv@ == store@,
{
}

/// A node of a cluster that stops and starts again from what it has written is the one
/// that `Cluster` has after its restart.
pub proof fn restarts_are_as_modelled<R>(
    node: RaftNode,
    stored: StoredState,
    snapshot: Option<SnapshotFile>,
    peers: Vec<NodeId>,
    config: RaftConfig,
    actor: NodeActor<R>,
    cluster: Cluster,
    next: Cluster,
)
    requires
        node.wf(),
        cluster.membership(),
        cluster.nodes.contains_key(node.id),
        cluster.nodes[node.id] == node@,
        cluster.steps_to(next, crate::cluster::Step::Restart(node.id)),
        peers@ == node.peers@,
        peers@.no_duplicates(),
        peers@.len() < usize::MAX,
        config.election_timeout_min_ms == node.config.election_timeout_min_ms,
        config.election_timeout_max_ms == node.config.election_timeout_max_ms,
        config.heartbeat_interval_ms == node.config.heartbeat_interval_ms,
        is_base_of(snapshot, node.persistent.log@),
        call_ensures(crate::storage::store, (&node.persistent,), stored),
        call_ensures(NodeActor::<R>::new, (node.id, peers, config, snapshot, Some(stored)), actor),
    ensures
        actor.raft@ == next.nodes[node.id],
{
    crate::storage::stored_state_comes_back(node@.persistent);
    let all = cluster.nodes.dom();
    peers@.unique_seq_to_set();
    assert(all.remove(node.id).len() + 1 == all.len());
    assert(node@.config.cluster_size == peers@.len() + 1);
    assert(actor.raft@ =~= next.nodes[node.id]);
}

} // verus!
