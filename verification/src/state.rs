//! Roles, durable and volatile state, and the side effects of a transition.

use std::collections::HashMap;

use vstd::prelude::*;

use crate::log::{LogView, RaftLog};
use crate::message::{
    ClientResponse, InstallSnapshotRequest, InstallSnapshotView, LogEntry, MessageView, NodeId,
    RaftMessage,
};

verus! {

/// The three roles a Raft node can occupy at any time.
#[derive(Debug, Clone, Copy, PartialEq, Eq, Structural)]
pub enum Role {
    Follower,
    Candidate,
    Leader,
}

/// Durable state, which **must** be written to stable storage before responding
/// to any RPC so it survives crashes.
#[derive(Debug)]
pub struct PersistentState {
    /// Latest term seen (monotonically increasing).
    pub current_term: u64,
    /// The node this server voted for in `current_term`, if any.
    pub voted_for: Option<NodeId>,
    /// The replicated log.
    pub log: RaftLog,
}

/// What a `PersistentState` records.
#[verifier::ext_equal]
pub struct PersistentView {
    pub current_term: u64,
    pub voted_for: Option<NodeId>,
    pub log: LogView,
}

impl PersistentView {
    /// The state of a server that has never run.
    pub open spec fn initial() -> PersistentView {
        PersistentView { current_term: 0, voted_for: None, log: LogView::based_at(0, 0) }
    }
}

impl View for PersistentState {
    type V = PersistentView;

    open spec fn view(&self) -> PersistentView {
        PersistentView {
            current_term: self.current_term,
            voted_for: self.voted_for,
            log: self.log@,
        }
    }
}

impl Clone for PersistentState {
    fn clone(&self) -> (copy: Self)
        ensures
            copy@ == self@,
    {
        PersistentState {
            current_term: self.current_term,
            voted_for: self.voted_for,
            log: self.log.clone(),
        }
    }
}

impl PersistentState {
    pub fn new() -> (state: Self)
        ensures
            state@ == PersistentView::initial(),
            state@.log.wf(),
    {
        Self { current_term: 0, voted_for: None, log: RaftLog::new() }
    }
}

impl Default for PersistentState {
    fn default() -> (state: Self)
        ensures
            state@ == PersistentView::initial(),
            state@.log.wf(),
    {
        Self::new()
    }
}

/// Volatile state kept on **all** servers (lost on restart and recomputed).
#[derive(Debug, Clone, Copy)]
pub struct VolatileState {
    /// Index of the highest log entry known to be committed.
    pub commit_index: u64,
    /// Index of the highest log entry applied to the state machine.
    pub last_applied: u64,
}

impl VolatileState {
    pub fn new() -> (state: Self)
        ensures
            state == (VolatileState { commit_index: 0, last_applied: 0 }),
    {
        Self { commit_index: 0, last_applied: 0 }
    }
}

impl Default for VolatileState {
    fn default() -> (state: Self)
        ensures
            state == (VolatileState { commit_index: 0, last_applied: 0 }),
    {
        Self::new()
    }
}

/// Volatile state kept only on the **leader** (reinitialized for each election).
///
/// A candidate keeps its vote tally here: a peer that has granted its vote has
/// `u64::MAX` as its `match_index`.
#[derive(Debug)]
pub struct LeaderState {
    /// For each peer: index of the next log entry to send.
    pub next_index: HashMap<NodeId, u64>,
    /// For each peer: index of the highest log entry known to be replicated.
    pub match_index: HashMap<NodeId, u64>,
    /// Client write requests that are in flight: log index to request id.
    pub pending_write_ids: HashMap<u64, u64>,
    /// Pending read indices: (read_index, client_request_id).
    pub pending_reads: Vec<(u64, u64)>,
    /// Tracks which peers have acknowledged the most recent heartbeat round.
    pub heartbeat_acks: HashMap<NodeId, bool>,
    /// The most recent heartbeat round; 0 before the first one.
    pub round: u64,
    /// For each peer: the latest round that it has acknowledged.
    pub acked_rounds: HashMap<NodeId, u64>,
}

/// What a `LeaderState` records.
#[verifier::ext_equal]
pub struct LeaderView {
    pub next_index: Map<NodeId, u64>,
    pub match_index: Map<NodeId, u64>,
    pub pending_write_ids: Map<u64, u64>,
    pub pending_reads: Seq<(u64, u64)>,
    pub heartbeat_acks: Map<NodeId, bool>,
    pub round: u64,
    pub acked_rounds: Map<NodeId, u64>,
}

/// The map that gives every listed peer the same value.
pub open spec fn for_each_peer<T>(peers: Seq<NodeId>, value: T) -> Map<NodeId, T> {
    Map::new(|p: NodeId| peers.contains(p), |p: NodeId| value)
}

impl LeaderView {
    /// What a leader knows of its peers at the start of its term.
    pub open spec fn initial(peers: Seq<NodeId>, last_log_index: int) -> LeaderView {
        LeaderView {
            next_index: for_each_peer(peers, (last_log_index + 1) as u64),
            match_index: for_each_peer(peers, 0),
            pending_write_ids: Map::empty(),
            pending_reads: Seq::empty(),
            heartbeat_acks: for_each_peer(peers, false),
            round: 0,
            acked_rounds: for_each_peer(peers, 0),
        }
    }

    /// The nodes whose vote is in the tally.
    pub open spec fn voters(self) -> Set<NodeId> {
        crate::quorum::at_least(self.match_index, None, u64::MAX as int)
    }

    /// The nodes known to hold the entry at `index`, apart from `own_id`.
    pub open spec fn replicas(self, own_id: NodeId, index: int) -> Set<NodeId> {
        crate::quorum::at_least(self.match_index, Some(own_id), index)
    }

    /// The nodes that have acknowledged the heartbeat round `round` or a later
    /// one, apart from `own_id`.
    pub open spec fn acknowledging(self, own_id: NodeId, round: int) -> Set<NodeId> {
        crate::quorum::at_least(self.acked_rounds, Some(own_id), round)
    }
}

impl View for LeaderState {
    type V = LeaderView;

    open spec fn view(&self) -> LeaderView {
        LeaderView {
            next_index: self.next_index@,
            match_index: self.match_index@,
            pending_write_ids: self.pending_write_ids@,
            pending_reads: self.pending_reads@,
            heartbeat_acks: self.heartbeat_acks@,
            round: self.round,
            acked_rounds: self.acked_rounds@,
        }
    }
}

impl Clone for LeaderState {
    fn clone(&self) -> (copy: Self)
        ensures
            copy@ == self@,
    {
        let mut pending_reads: Vec<(u64, u64)> = Vec::new();
        let mut i: usize = 0;
        while i < self.pending_reads.len()
            invariant
                i <= self.pending_reads@.len(),
                pending_reads@ =~= self.pending_reads@.take(i as int),
            decreases self.pending_reads@.len() - i,
        {
            pending_reads.push(self.pending_reads[i]);
            i += 1;
        }
        LeaderState {
            next_index: self.next_index.clone(),
            match_index: self.match_index.clone(),
            pending_write_ids: self.pending_write_ids.clone(),
            pending_reads,
            heartbeat_acks: self.heartbeat_acks.clone(),
            round: self.round,
            acked_rounds: self.acked_rounds.clone(),
        }
    }
}

impl LeaderState {
    pub fn new(peers: &[NodeId], last_log_index: u64) -> (state: Self)
        requires
            peers@.len() > 0 ==> last_log_index < u64::MAX,
        ensures
            state@ == LeaderView::initial(peers@, last_log_index as int),
    {
        let mut next_index: HashMap<NodeId, u64> = HashMap::new();
        let mut match_index: HashMap<NodeId, u64> = HashMap::new();
        let mut heartbeat_acks: HashMap<NodeId, bool> = HashMap::new();
        let mut acked_rounds: HashMap<NodeId, u64> = HashMap::new();
        let mut i: usize = 0;
        while i < peers.len()
            invariant
                i <= peers@.len(),
                peers@.len() > 0 ==> last_log_index < u64::MAX,
                next_index@ == for_each_peer(
                    peers@.take(i as int),
                    (last_log_index + 1) as u64,
                ),
                match_index@ == for_each_peer(peers@.take(i as int), 0u64),
                heartbeat_acks@ == for_each_peer(peers@.take(i as int), false),
                acked_rounds@ == for_each_peer(peers@.take(i as int), 0u64),
            decreases peers@.len() - i,
        {
            let peer = peers[i];
            next_index.insert(peer, last_log_index + 1);
            match_index.insert(peer, 0);
            heartbeat_acks.insert(peer, false);
            acked_rounds.insert(peer, 0);
            proof {
                let before = peers@.take(i as int);
                let after = peers@.take(i + 1);
                assert(after =~= before.push(peer));
                assert forall|p: NodeId| after.contains(p) <==> before.contains(p) || p
                    == peer by {
                    if before.contains(p) {
                        let k = before.index_of(p);
                        assert(after[k] == p);
                    }
                    if p == peer {
                        assert(after[i as int] == p);
                    }
                }
                assert(next_index@ =~= for_each_peer(after, (last_log_index + 1) as u64));
                assert(match_index@ =~= for_each_peer(after, 0u64));
                assert(heartbeat_acks@ =~= for_each_peer(after, false));
                assert(acked_rounds@ =~= for_each_peer(after, 0u64));
            }
            i += 1;
        }
        assert(peers@.take(i as int) =~= peers@);
        Self {
            next_index,
            match_index,
            pending_write_ids: HashMap::new(),
            pending_reads: Vec::new(),
            heartbeat_acks,
            round: 0,
            acked_rounds,
        }
    }
}

/// The set of side effects the server must execute after each state transition.
///
/// Returning actions rather than performing them keeps the state machine free
/// of I/O.
#[derive(Debug)]
pub struct Actions {
    /// Messages to be sent to specific peers (or back to the leader).
    pub messages: Vec<(NodeId, RaftMessage)>,
    /// Log entries that have just been committed and should be applied to
    /// the state machine.
    pub entries_to_apply: Vec<LogEntry>,
    /// If `Some`, the persistent state must be fsynced to disk before
    /// sending any of the `messages`.
    pub persist: Option<PersistentState>,
    /// Responses to unblock waiting client requests.
    pub client_responses: Vec<ClientResponse>,
    /// Whether the election timer should be reset.
    pub reset_election_timer: bool,
    /// Peers to which the leader must send an InstallSnapshot RPC: the log
    /// entries they need have been compacted away.
    pub send_snapshot_to: Vec<NodeId>,
    /// An InstallSnapshot received from the leader that the server must
    /// apply to the state machine and persist to disk.
    pub install_snapshot: Option<InstallSnapshotRequest>,
}

/// What an `Actions` asks for.
#[verifier::ext_equal]
pub struct ActionsView {
    pub messages: Seq<(NodeId, MessageView)>,
    pub entries_to_apply: Seq<LogEntry>,
    pub persist: Option<PersistentView>,
    pub client_responses: Seq<ClientResponse>,
    pub reset_election_timer: bool,
    pub send_snapshot_to: Seq<NodeId>,
    pub install_snapshot: Option<InstallSnapshotView>,
}

impl ActionsView {
    /// Nothing to do.
    pub open spec fn none() -> ActionsView {
        ActionsView {
            messages: Seq::empty(),
            entries_to_apply: Seq::empty(),
            persist: None,
            client_responses: Seq::empty(),
            reset_election_timer: false,
            send_snapshot_to: Seq::empty(),
            install_snapshot: None,
        }
    }
}

/// What addressed messages say.
pub open spec fn addressed(messages: Seq<(NodeId, RaftMessage)>) -> Seq<(NodeId, MessageView)> {
    messages.map_values(|m: (NodeId, RaftMessage)| (m.0, m.1@))
}

impl View for Actions {
    type V = ActionsView;

    open spec fn view(&self) -> ActionsView {
        ActionsView {
            messages: addressed(self.messages@),
            entries_to_apply: self.entries_to_apply@,
            persist: match self.persist {
                Some(state) => Some(state@),
                None => None,
            },
            client_responses: self.client_responses@,
            reset_election_timer: self.reset_election_timer,
            send_snapshot_to: self.send_snapshot_to@,
            install_snapshot: match self.install_snapshot {
                Some(request) => Some(request@),
                None => None,
            },
        }
    }
}

impl Default for Actions {
    fn default() -> (actions: Self)
        ensures
            actions@ == ActionsView::none(),
            actions.messages@.len() == 0,
    {
        Actions {
            messages: Vec::new(),
            entries_to_apply: Vec::new(),
            persist: None,
            client_responses: Vec::new(),
            reset_election_timer: false,
            send_snapshot_to: Vec::new(),
            install_snapshot: None,
        }
    }
}

// ── Laws ───────────────────────────────────────────────────────────────────

/// What is said of a state and of actions is what they hold, field by field.
pub proof fn states_are_what_they_hold(
    durable: PersistentState,
    leader: LeaderState,
    actions: Actions,
    k: int,
)
    requires
        0 <= k < actions.messages@.len(),
    ensures
        durable@.current_term == durable.current_term,
        durable@.voted_for == durable.voted_for,
        durable@.log == durable.log@,
        leader@.next_index == leader.next_index@,
        leader@.match_index == leader.match_index@,
        leader@.heartbeat_acks == leader.heartbeat_acks@,
        leader@.round == leader.round,
        leader@.acked_rounds == leader.acked_rounds@,
        actions@.messages.len() == actions.messages@.len(),
        actions@.messages[k] == (actions.messages@[k].0, actions.messages@[k].1@),
        actions@.entries_to_apply == actions.entries_to_apply@,
        actions@.persist is Some <==> actions.persist is Some,
        actions.persist matches Some(state) ==> actions@.persist == Some(state@),
        actions@.client_responses == actions.client_responses@,
        actions@.reset_election_timer == actions.reset_election_timer,
        actions@.send_snapshot_to == actions.send_snapshot_to@,
        actions@.install_snapshot is Some <==> actions.install_snapshot is Some,
        actions.install_snapshot matches Some(req) ==> actions@.install_snapshot == Some(req@),
{
}

/// A new state has nothing in it, and no actions ask for nothing.
pub proof fn new_states_are_empty(
    durable: PersistentState,
    volatile: VolatileState,
    actions: Actions,
)
    requires
        call_ensures(PersistentState::new, (), durable),
        call_ensures(VolatileState::new, (), volatile),
        call_ensures(Actions::default, (), actions),
    ensures
        durable.current_term == 0,
        durable.voted_for is None,
        durable.log@.entries.len() == 0,
        durable.log@.snapshot_index == 0,
        durable.log@.snapshot_term == 0,
        volatile.commit_index == 0,
        volatile.last_applied == 0,
        actions@.messages.len() == 0,
        actions@.entries_to_apply.len() == 0,
        actions@.persist is None,
        actions@.client_responses.len() == 0,
        !actions@.reset_election_timer,
        actions@.send_snapshot_to.len() == 0,
        actions@.install_snapshot is None,
{
}

/// A leader starts out with every peer expected to have the leader's log, and with none
/// known to have any of it.
pub proof fn leaders_start_hopeful(
    peers: &[NodeId],
    last_log_index: u64,
    state: LeaderState,
    peer: NodeId,
)
    requires
        last_log_index < u64::MAX,
        peers@.contains(peer),
        call_ensures(LeaderState::new, (peers, last_log_index), state),
    ensures
        state.next_index@.contains_key(peer) && state.next_index@[peer] == last_log_index + 1,
        state.match_index@.contains_key(peer) && state.match_index@[peer] == 0,
        state.heartbeat_acks@.contains_key(peer) && !state.heartbeat_acks@[peer],
        state.acked_rounds@.contains_key(peer) && state.acked_rounds@[peer] == 0,
        state.round == 0,
        state.pending_reads@.len() == 0,
{
    assert(state@.pending_reads.len() == 0);
}

/// A copy of a durable state is that state.
pub proof fn copied_states_are_alike(state: &PersistentState, copy: PersistentState)
    requires
        call_ensures(PersistentState::clone, (state,), copy),
    ensures
        copy.current_term == state.current_term,
        copy.voted_for == state.voted_for,
        copy.log@ == state.log@,
{
}

} // verus!
