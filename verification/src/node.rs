//! The Raft state machine.

use vstd::prelude::*;

use crate::config::RaftConfig;
use crate::log::RaftLog;
use crate::message::{
    AppendEntriesRequest, AppendEntriesResponse, ClientOperation, ClientRequest, ClientResponse,
    ClientResult, Command, InstallSnapshotRequest, InstallSnapshotResponse, LogEntry, NodeId,
    RaftMessage, VoteRequest, VoteResponse,
};
use crate::quorum::count_at_least;
use crate::state::{Actions, ActionsView, LeaderState, LeaderView, PersistentState, Role, VolatileState};
use crate::transitions::{Event, NodeView};

verus! {

/// The central Raft state machine.
///
/// All methods are **pure**: they take `self` by value and return
/// `(RaftNode, Actions)`. The caller is responsible for executing the `Actions`
/// (sending messages, persisting state, resetting timers, etc.).
#[derive(Debug)]
pub struct RaftNode {
    pub id: NodeId,
    pub peers: Vec<NodeId>,
    pub role: Role,
    pub persistent: PersistentState,
    pub volatile: VolatileState,
    pub leader_state: Option<LeaderState>,
    pub config: RaftConfig,
    /// Track current leader for client redirects.
    pub current_leader: Option<NodeId>,
}

impl View for RaftNode {
    type V = NodeView;

    open spec fn view(&self) -> NodeView {
        NodeView {
            id: self.id,
            peers: self.peers@,
            role: self.role,
            persistent: self.persistent@,
            volatile: self.volatile,
            leader_state: match self.leader_state {
                Some(state) => Some(state@),
                None => None,
            },
            config: self.config,
            current_leader: self.current_leader,
        }
    }
}

impl Clone for RaftNode {
    fn clone(&self) -> (copy: Self)
        ensures
            copy@ == self@,
    {
        let peers = self.peers.clone();
        assert(peers@ =~= self.peers@);
        let leader_state = match &self.leader_state {
            Some(state) => Some(state.clone()),
            None => None,
        };
        RaftNode {
            id: self.id,
            peers,
            role: self.role,
            persistent: self.persistent.clone(),
            volatile: self.volatile,
            leader_state,
            config: self.config,
            current_leader: self.current_leader,
        }
    }
}

impl RaftNode {
    /// The log is well formed, and a leader knows what to send next to each of
    /// its peers.
    pub open spec fn wf(&self) -> bool {
        self@.wf()
    }

    pub fn new(id: NodeId, peers: Vec<NodeId>, config: RaftConfig) -> (node: Self)
        ensures
            node.wf(),
            node@ == NodeView::initial(id, peers@, config),
    {
        Self {
            id,
            peers,
            role: Role::Follower,
            persistent: PersistentState::new(),
            volatile: VolatileState::new(),
            leader_state: None,
            config,
            current_leader: None,
        }
    }

    // ── Accessors ──────────────────────────────────────────────────────────

    pub fn current_term(&self) -> (term: u64)
        ensures
            term == self@.term(),
    {
        self.persistent.current_term
    }

    pub fn log(&self) -> (log: &RaftLog)
        ensures
            *log == self.persistent.log,
            log@ == self@.log(),
    {
        &self.persistent.log
    }

    pub fn is_leader(&self) -> (leader: bool)
        ensures
            leader == (self@.role == Role::Leader),
    {
        self.role == Role::Leader
    }

    // ── Election ───────────────────────────────────────────────────────────

    /// Called when the election timeout fires.
    ///
    /// Transitions: Follower → Candidate (or Candidate → new Candidate on
    /// split-vote timeout). Leaders never time out. A node without peers has
    /// its majority at once and becomes leader.
    pub fn election_timeout(self) -> (result: (Self, Actions))
        requires
            self.wf(),
            self@.admits(Event::ElectionTimeout),
        ensures
            result.0.wf(),
            (result.0@, result.1@) == self@.election_timeout(),
    {
        if self.role == Role::Leader {
            return (self, Actions::default());
        }
        let ghost before = self@;
        let mut candidate = self;
        candidate.persistent.current_term = candidate.persistent.current_term + 1;
        candidate.persistent.voted_for = Some(candidate.id);
        candidate.role = Role::Candidate;
        candidate.leader_state = None;
        candidate.current_leader = None;
        assert(candidate@ == before.candidacy());

        if candidate.peers.len() == 0 {
            return candidate.become_leader();
        }
        let request = VoteRequest {
            term: candidate.persistent.current_term,
            candidate_id: candidate.id,
            last_log_index: candidate.persistent.log.last_index(),
            last_log_term: candidate.persistent.log.last_term(),
        };
        let mut messages: Vec<(NodeId, RaftMessage)> = Vec::new();
        let mut i: usize = 0;
        while i < candidate.peers.len()
            invariant
                i <= candidate.peers@.len(),
                messages@.len() == i,
                forall|j: int|
                    0 <= j < i ==> #[trigger] messages@[j] == (
                        candidate.peers@[j],
                        RaftMessage::VoteRequest(request),
                    ),
            decreases candidate.peers@.len() - i,
        {
            messages.push((candidate.peers[i], RaftMessage::VoteRequest(request)));
            i += 1;
        }
        let mut actions = Actions::default();
        actions.messages = messages;
        actions.persist = Some(candidate.persistent.clone());
        actions.reset_election_timer = true;
        assert(actions@ =~= before.election_timeout().1);
        (candidate, actions)
    }

    fn become_leader(self) -> (result: (Self, Actions))
        requires
            self@.log().wf(),
            self@.log().last_index() < u64::MAX,
        ensures
            result.0.wf(),
            (result.0@, result.1@) == self@.become_leader(),
    {
        let ghost before = self@;
        let mut node = self;
        let last_index = node.persistent.log.last_index();
        node.role = Role::Leader;
        node.current_leader = Some(node.id);
        node.leader_state = Some(LeaderState::new(node.peers.as_slice(), last_index));
        // The new entry commits any outstanding entries of previous terms.
        let noop = LogEntry {
            term: node.persistent.current_term,
            index: last_index + 1,
            command: Command::Noop,
        };
        node.persistent.log = node.persistent.log.append(noop);
        assert(node@ =~= before.leadership());
        let mut actions = node.build_append_entries_for_all_peers();
        actions.persist = Some(node.persistent.clone());
        (node, actions)
    }

    fn build_append_entries_for_peer(&self, peer: NodeId) -> (message: AppendEntriesRequest)
        requires
            self@.log().wf(),
            self@.leader_state is Some,
            self@.leader_state->0.next_index.contains_key(peer),
        ensures
            message@ == self@.append_entries_for(peer),
    {
        let prev_log_index = self.prev_index_of(peer);
        let prev_log_term = self.persistent.log.term_at(prev_log_index);
        let entries = copy_entries(self.persistent.log.entries_after(prev_log_index));
        let round: u64 = match &self.leader_state {
            Some(state) => state.round,
            None => 0,
        };
        AppendEntriesRequest {
            term: self.persistent.current_term,
            leader_id: self.id,
            prev_log_index,
            prev_log_term,
            entries,
            leader_commit: self.volatile.commit_index,
            round,
        }
    }

    fn prev_index_of(&self, peer: NodeId) -> (index: u64)
        requires
            self@.leader_state is Some,
            self@.leader_state->0.next_index.contains_key(peer),
        ensures
            index == self@.prev_index(peer),
            index < u64::MAX,
    {
        let next: u64 = match &self.leader_state {
            Some(state) => match state.next_index.get(&peer) {
                Some(next) => *next,
                None => 0,
            },
            None => 0,
        };
        if next == 0 {
            0
        } else {
            next - 1
        }
    }

    fn build_append_entries_for_all_peers(&self) -> (actions: Actions)
        requires
            self@.log().wf(),
            self@.tracks_peers(),
        ensures
            actions@ == self@.replicate(),
    {
        broadcast use Seq::lemma_filter_push;

        let mut messages: Vec<(NodeId, RaftMessage)> = Vec::new();
        let mut send_snapshot_to: Vec<NodeId> = Vec::new();
        let ghost peers = self@.peers;
        let mut i: usize = 0;
        proof {
            reveal(Seq::filter);
            assert(peers.take(0) =~= Seq::empty());
        }
        assert(crate::state::addressed(messages@) =~= peers.take(0).filter(
            self@.in_reach(),
        ).map_values(self@.addressed_to()));
        while i < self.peers.len()
            invariant
                i <= self.peers@.len(),
                peers == self@.peers,
                self@.log().wf(),
                self@.tracks_peers(),
                crate::state::addressed(messages@) == peers.take(i as int).filter(
                    self@.in_reach(),
                ).map_values(self@.addressed_to()),
                send_snapshot_to@ == peers.take(i as int).filter(self@.lagging()),
            decreases self.peers@.len() - i,
        {
            let peer = self.peers[i];
            assert(peers.contains(peer));
            proof {
                assert(peers.take(i + 1) =~= peers.take(i as int).push(peer));
                peers.take(i as int).lemma_filter_push(peer, self@.in_reach());
                peers.take(i as int).lemma_filter_push(peer, self@.lagging());
            }
            if self.prev_index_of(peer) < self.persistent.log.snapshot_last_index() {
                send_snapshot_to.push(peer);
            } else {
                let request = self.build_append_entries_for_peer(peer);
                let ghost sent = messages@;
                messages.push((peer, RaftMessage::AppendEntriesRequest(request)));
                assert(crate::state::addressed(messages@) =~= crate::state::addressed(sent).push(
                    self@.addressed_to()(peer),
                ));
                assert(peers.take(i as int).filter(self@.in_reach()).push(peer).map_values(
                    self@.addressed_to(),
                ) =~= peers.take(i as int).filter(self@.in_reach()).map_values(
                    self@.addressed_to(),
                ).push(self@.addressed_to()(peer)));
            }
            i += 1;
        }
        assert(peers.take(i as int) =~= peers);
        let mut actions = Actions::default();
        actions.messages = messages;
        actions.send_snapshot_to = send_snapshot_to;
        assert(actions@ =~= self@.replicate());
        actions
    }

    /// Step down to follower when a higher term is observed.
    pub fn step_down(self, new_term: u64) -> (result: (Self, Actions))
        ensures
            self@.log().wf() ==> result.0.wf(),
            (result.0@, result.1@) == self@.step_down(new_term),
    {
        let mut node = self;
        node.role = Role::Follower;
        node.leader_state = None;
        node.current_leader = None;
        node.persistent.current_term = new_term;
        node.persistent.voted_for = None;
        let mut actions = Actions::default();
        actions.persist = Some(node.persistent.clone());
        actions.reset_election_timer = true;
        (node, actions)
    }

    pub fn observe_term(self, term: u64) -> (result: (Self, Actions))
        requires
            self.wf(),
        ensures
            result.0.wf(),
            (result.0@, result.1@) == self@.observe_term(term),
            result.1.messages@.len() == 0,
    {
        if term > self.persistent.current_term {
            let (node, mut actions) = self.step_down(term);
            actions.messages = Vec::new();
            assert(actions@.messages =~= Seq::empty());
            (node, actions)
        } else {
            (self, Actions::default())
        }
    }

    /// Handle an incoming RequestVote RPC.
    pub fn handle_vote_request(self, req: VoteRequest) -> (result: (Self, Actions))
        requires
            self.wf(),
        ensures
            result.0.wf(),
            (result.0@, result.1@) == self@.handle_vote_request(req),
    {
        let ghost before = self@;
        let (mut node, mut actions) = self.observe_term(req.term);
        let granted = node.can_grant_vote(&req);
        if granted {
            node.persistent.current_term = req.term;
            node.persistent.voted_for = Some(req.candidate_id);
            actions.persist = Some(node.persistent.clone());
            actions.reset_election_timer = true;
        }
        let response = VoteResponse {
            term: node.persistent.current_term,
            vote_granted: granted,
            peer_id: node.id,
        };
        actions.messages.push((req.candidate_id, RaftMessage::VoteResponse(response)));
        assert(actions@ =~= before.handle_vote_request(req).1);
        (node, actions)
    }

    fn can_grant_vote(&self, req: &VoteRequest) -> (granted: bool)
        requires
            self@.log().wf(),
        ensures
            granted == self@.grants(*req),
    {
        if req.term < self.persistent.current_term {
            return false;
        }
        if let Some(id) = self.persistent.voted_for {
            if id != req.candidate_id {
                return false;
            }
        }
        let our_last_term = self.persistent.log.last_term();
        let our_last_index = self.persistent.log.last_index();
        req.last_log_term > our_last_term || (req.last_log_term == our_last_term
            && req.last_log_index >= our_last_index)
    }

    /// Handle a VoteResponse from a peer.
    ///
    /// Each node that has granted its vote counts once, and the candidate has
    /// its own vote; with a majority it becomes leader.
    pub fn handle_vote_response(self, from: NodeId, resp: VoteResponse) -> (result: (
        Self,
        Actions,
    ))
        requires
            self.wf(),
            self@.admits(Event::VoteResponse(from, resp)),
        ensures
            result.0.wf(),
            (result.0@, result.1@) == self@.handle_vote_response(from, resp),
    {
        if resp.term > self.persistent.current_term {
            return self.step_down(resp.term);
        }
        if self.role != Role::Candidate || resp.term < self.persistent.current_term
            || !resp.vote_granted {
            return (self, Actions::default());
        }
        let ghost before = self@;
        let mut node = self;
        let mut tally = match node.leader_state.take() {
            Some(state) => state,
            None => LeaderState::new(node.peers.as_slice(), node.persistent.log.last_index()),
        };
        tally.match_index.insert(from, u64::MAX);
        assert(tally@ =~= before.tally(from));
        let votes = count_at_least(&tally.match_index, None, u64::MAX);
        let votes_needed = node.config.majority();
        node.leader_state = Some(tally);
        if votes >= votes_needed - 1 {
            node.become_leader()
        } else {
            (node, Actions::default())
        }
    }

    // ── Log replication ────────────────────────────────────────────────────

    /// Called by the leader on every heartbeat tick.
    ///
    /// Sends an AppendEntries to every peer. When `entries` is empty this
    /// acts as a heartbeat. A node without peers commits what it has instead,
    /// for no peer will ever answer.
    pub fn tick(self) -> (result: (Self, Actions))
        requires
            self.wf(),
            self@.admits(Event::Tick),
        ensures
            result.0.wf(),
            (result.0@, result.1@) == self@.tick(),
    {
        if self.role != Role::Leader {
            return (self, Actions::default());
        }
        let node = self.start_heartbeat_round();
        if node.peers.len() == 0 {
            return node.try_advance_commit();
        }
        let actions = node.build_append_entries_for_all_peers();
        (node, actions)
    }

    /// No peer has acknowledged the heartbeat round that starts here.
    fn start_heartbeat_round(self) -> (node: Self)
        requires
            self.wf(),
            self.role == Role::Leader,
            self@.has_rounds_left(),
        ensures
            node.wf(),
            node@ == self@.round_started(),
    {
        let ghost before = self@;
        let mut node = self;
        if let Some(state) = node.leader_state.take() {
            let mut state = state;
            state.round = state.round + 1;
            let ghost acks = state.heartbeat_acks@;
            let mut i: usize = 0;
            proof {
                assert(node.peers@.take(0) =~= Seq::empty());
                assert(acks =~= acks.union_prefer_right(
                    crate::state::for_each_peer(node.peers@.take(0), false),
                ));
            }
            while i < node.peers.len()
                invariant
                    i <= node.peers@.len(),
                    state@ == (LeaderView {
                        heartbeat_acks: state.heartbeat_acks@,
                        round: (before.leader_state->0.round + 1) as u64,
                        ..before.leader_state->0
                    }),
                    state.heartbeat_acks@ == acks.union_prefer_right(
                        crate::state::for_each_peer(node.peers@.take(i as int), false),
                    ),
                decreases node.peers@.len() - i,
            {
                let peer = node.peers[i];
                let ghost reset = state.heartbeat_acks@;
                state.heartbeat_acks.insert(peer, false);
                proof {
                    let earlier = node.peers@.take(i as int);
                    let later = node.peers@.take(i + 1);
                    assert(later =~= earlier.push(peer));
                    assert forall|p: NodeId| later.contains(p) <==> earlier.contains(p) || p
                        == peer by {
                        if earlier.contains(p) {
                            let k = earlier.index_of(p);
                            assert(later[k] == p);
                        }
                        if p == peer {
                            assert(later[i as int] == p);
                        }
                    }
                    assert(state.heartbeat_acks@ =~= acks.union_prefer_right(
                        crate::state::for_each_peer(later, false),
                    ));
                }
                i += 1;
            }
            assert(node.peers@.take(i as int) =~= node.peers@);
            node.leader_state = Some(state);
        }
        assert(node@ =~= before.round_started());
        assert forall|p: NodeId| #[trigger]
            node@.leader_state->0.heartbeat_acks.contains_key(p) implies node@.peers.contains(
            p,
        ) by {
            assert(before.leader_state->0.heartbeat_acks.contains_key(p) || before.peers.contains(
                p,
            ));
        }
        node
    }

    /// Whether the node is a leader that a majority of the nodes has
    /// acknowledged in the heartbeat round `round` or a later one.
    pub fn is_confirmed_since(&self, round: u64) -> (confirmed: bool)
        ensures
            confirmed == self@.confirmed_since(round),
    {
        match &self.leader_state {
            Some(state) => {
                self.role == Role::Leader && (self.peers.len() == 0 || count_at_least(
                    &state.acked_rounds,
                    Some(self.id),
                    round,
                ) >= self.config.majority() - 1)
            },
            None => false,
        }
    }

    /// Whether `id` is one of the node's peers.
    fn knows(&self, id: NodeId) -> (known: bool)
        ensures
            known == self@.peers.contains(id),
    {
        let mut i: usize = 0;
        while i < self.peers.len()
            invariant
                i <= self.peers@.len(),
                forall|j: int| 0 <= j < i ==> #[trigger] self.peers@[j] != id,
            decreases self.peers@.len() - i,
        {
            if self.peers[i] == id {
                assert(self.peers@.contains(id));
                return true;
            }
            i += 1;
        }
        false
    }

    /// Attempt to advance the leader's commit index.
    ///
    /// The new commit index is the highest index `n` such that:
    ///   1. n > commit_index
    ///   2. A majority of nodes have match_index >= n
    ///   3. log[n].term == current_term
    fn try_advance_commit(self) -> (result: (Self, Actions))
        requires
            self.wf(),
        ensures
            result.0.wf(),
            result.0@ == self@.advance_commit().0,
            result.1@ == (ActionsView {
                entries_to_apply: self@.advance_commit().1,
                ..ActionsView::none()
            }),
    {
        let ghost before = self@;
        let mut node = self;
        let mut actions = Actions::default();
        let commit_index = node.volatile.commit_index;
        if let Some(state) = &node.leader_state {
            let current_term = node.persistent.current_term;
            let majority = node.config.majority();
            let mut n = node.persistent.log.last_index();
            let alone = node.peers.len() == 0;
            while n > commit_index
                invariant_except_break
                    crate::log::highest(
                        |i: int| node@.committable(i),
                        commit_index as int,
                        node@.log().last_index(),
                    ) == crate::log::highest(
                        |i: int| node@.committable(i),
                        commit_index as int,
                        n as int,
                    ),
                invariant
                    node@.wf(),
                    node.leader_state == Some(*state),
                    current_term == node@.term(),
                    majority == node@.config.quorum(),
                    alone == (node@.peers.len() == 0),
                ensures
                    crate::log::highest(
                        |i: int| node@.committable(i),
                        commit_index as int,
                        node@.log().last_index(),
                    ) == (if n > commit_index {
                        n
                    } else {
                        commit_index
                    }),
                decreases n,
            {
                if node.persistent.log.term_at(n) == current_term && (alone || count_at_least(
                    &state.match_index,
                    Some(node.id),
                    n,
                ) >= majority - 1) {
                    assert(node@.committable(n as int));
                    break;
                }
                assert(!node@.committable(n as int));
                n = n - 1;
            }
            if n > commit_index {
                actions.entries_to_apply = node.persistent.log.entries_between(commit_index, n);
                node.volatile.commit_index = n;
            }
        }
        assert(node@ =~= before.advance_commit().0);
        assert(actions@ =~= (ActionsView {
            entries_to_apply: before.advance_commit().1,
            ..ActionsView::none()
        }));
        (node, actions)
    }

    /// Whether the log can take the entries of the request, if the node is to
    /// take them over: none of them may leave a gap.
    pub fn can_handle_append_entries(&self, req: &AppendEntriesRequest) -> (can: bool)
        requires
            self.wf(),
        ensures
            can == self@.admits(Event::AppendEntries(req@)),
    {
        if req.term < self.persistent.current_term {
            return true;
        }
        if !self.log_matches(req.prev_log_index, req.prev_log_term) {
            return self.persistent.log.term_at(req.prev_log_index) != 0
                || self.persistent.log.last_index() < u64::MAX;
        }
        self.persistent.log.merge_entries(&req.entries).is_some()
    }

    /// Handle an incoming AppendEntries RPC (follower/candidate side).
    pub fn handle_append_entries(self, req: AppendEntriesRequest) -> (result: (Self, Actions))
        requires
            self.wf(),
            self@.admits(Event::AppendEntries(req@)),
        ensures
            result.0.wf(),
            (result.0@, result.1@) == self@.handle_append_entries(req@),
    {
        let ghost before = self@;
        let (mut node, mut actions) = self.observe_term(req.term);
        let mut response = AppendEntriesResponse {
            term: node.persistent.current_term,
            success: false,
            conflict_index: None,
            conflict_term: None,
            match_index: 0,
            round: 0,
            peer_id: node.id,
        };
        if req.term < node.persistent.current_term {
            actions.messages.push((req.leader_id, RaftMessage::AppendEntriesResponse(response)));
            assert(actions@ =~= before.handle_append_entries(req@).1);
            return (node, actions);
        }
        // Valid AppendEntries from the current leader: reset election timer.
        actions.reset_election_timer = true;
        node.current_leader = Some(req.leader_id);
        response.round = req.round;

        // Log consistency check: prev entry must match.
        if !node.log_matches(req.prev_log_index, req.prev_log_term) {
            let (conflict_index, conflict_term) = node.find_conflict_hint(req.prev_log_index);
            response.conflict_index = Some(conflict_index);
            response.conflict_term = conflict_term;
            actions.messages.push((req.leader_id, RaftMessage::AppendEntriesResponse(response)));
            assert(actions@ =~= before.handle_append_entries(req@).1);
            return (node, actions);
        }
        // Append new entries, truncating any conflicting tail.
        if let Some(log) = node.persistent.log.merge_entries(&req.entries) {
            node.persistent.log = log;
        }
        let last_index = node.persistent.log.last_index();

        // Advance commit index.
        let old_commit = node.volatile.commit_index;
        let known_commit = if req.leader_commit <= last_index {
            req.leader_commit
        } else {
            last_index
        };
        if known_commit > old_commit {
            node.volatile.commit_index = known_commit;
        }
        actions.entries_to_apply = node.persistent.log.entries_between(
            old_commit,
            node.volatile.commit_index,
        );
        response.success = true;
        response.match_index = if req.entries.len() == 0 {
            req.prev_log_index
        } else {
            req.entries[req.entries.len() - 1].index
        };
        actions.messages.push((req.leader_id, RaftMessage::AppendEntriesResponse(response)));
        actions.persist = Some(node.persistent.clone());
        assert(node@ =~= before.handle_append_entries(req@).0);
        assert(actions@ =~= before.handle_append_entries(req@).1);
        (node, actions)
    }

    fn log_matches(&self, prev_index: u64, prev_term: u64) -> (matches: bool)
        requires
            self@.log().wf(),
        ensures
            matches == self@.log().matches(prev_index as int, prev_term),
    {
        prev_index == 0 || self.persistent.log.term_at(prev_index) == prev_term
    }

    fn find_conflict_hint(&self, prev_index: u64) -> (hint: (u64, Option<u64>))
        requires
            self@.log().wf(),
            self@.log().term_at(prev_index as int) == 0 ==> self@.log().last_index() < u64::MAX,
        ensures
            (hint.0 as int, hint.1) == self@.conflict_hint(prev_index as int),
    {
        let conflict_term = self.persistent.log.term_at(prev_index);
        if conflict_term == 0 {
            // prev_index beyond our log end.
            return (self.persistent.log.last_index() + 1, None);
        }
        // Walk back to find the first entry of the conflicting term.
        let ghost differs = |i: int|
            self@.log().term_at(i) != self@.log().term_at(prev_index as int);
        let mut i = prev_index;
        while i > 0 && self.persistent.log.term_at(i) == conflict_term
            invariant
                self@.log().wf(),
                i <= prev_index,
                conflict_term == self@.log().term_at(prev_index as int),
                differs == (|i: int|
                    self@.log().term_at(i) != self@.log().term_at(prev_index as int)),
                crate::log::highest(differs, 0, prev_index as int) == crate::log::highest(
                    differs,
                    0,
                    i as int,
                ),
            decreases i,
        {
            i = i - 1;
        }
        assert(self@.log().run_start(prev_index as int) == i + 1);
        assert(i < u64::MAX) by {
            assert(self@.log().term_at(prev_index as int) != 0);
            if i == prev_index && i > 0 {
                assert(false);
            }
        }
        (i + 1, Some(conflict_term))
    }

    /// Handle an AppendEntries response (leader side).
    ///
    /// A success answers for all entries up to the last one of the request. A
    /// failure moves back the next entry to send, by the hint in the response
    /// where it has one. An answer in the leader's term acknowledges the heartbeat
    /// round of the request. An answer from a node that is no peer says nothing, and
    /// neither does a success of an earlier term, which could lead to a wrong commit.
    /// After every answer the leader commits what it may.
    pub fn handle_append_entries_response(
        self,
        from: NodeId,
        resp: AppendEntriesResponse,
    ) -> (result: (Self, Actions))
        requires
            self.wf(),
            self@.admits(Event::AppendEntriesResponse(from, resp)),
        ensures
            result.0.wf(),
            (result.0@, result.1@) == self@.handle_append_entries_response(from, resp),
    {
        if resp.term > self.persistent.current_term {
            return self.step_down(resp.term);
        }
        if self.role != Role::Leader {
            return (self, Actions::default());
        }
        let ghost before = self@;
        let current = resp.term == self.persistent.current_term;
        if self.knows(from) && (current || !resp.success) {
            let node = if current {
                self.take_answer(from, resp)
            } else {
                self.take_earlier_rejection(from, resp)
            };
            node.try_advance_commit()
        } else {
            self.try_advance_commit()
        }
    }

    /// Takes note of a rejection of an earlier term.
    fn take_earlier_rejection(self, from: NodeId, resp: AppendEntriesResponse) -> (node: Self)
        requires
            self.wf(),
            self@.role == Role::Leader,
            self@.peers.contains(from),
            self@.log().last_index() < u64::MAX,
        ensures
            node.wf(),
            node@ == (NodeView {
                leader_state: Some(self@.rejected_earlier(from, resp)),
                ..self@
            }),
    {
        let ghost before = self@;
        let last_index = self.persistent.log.last_index();
        let backtracked = self.next_after_rejection(from, &resp);
        let next = if backtracked <= last_index + 1 {
            backtracked
        } else {
            last_index + 1
        };
        let mut node = self;
        if let Some(state) = node.leader_state.take() {
            let mut state = state;
            state.next_index.insert(from, next);
            assert(state@ =~= before.rejected_earlier(from, resp));
            node.leader_state = Some(state);
        }
        node
    }

    /// Takes note of an answer in the leader's term.
    fn take_answer(self, from: NodeId, resp: AppendEntriesResponse) -> (node: Self)
        requires
            self.wf(),
            self@.role == Role::Leader,
            self@.peers.contains(from),
            self@.log().last_index() < u64::MAX,
        ensures
            node.wf(),
            node@ == (NodeView { leader_state: Some(self@.answered(from, resp)), ..self@ }),
    {
        let ghost before = self@;
        let last_index = self.persistent.log.last_index();
        let backtracked: u64 = if resp.success {
            0
        } else {
            self.next_after_rejection(from, &resp)
        };
        let mut node = self;
        if let Some(state) = node.leader_state.take() {
            let mut state = state;
            if resp.round == state.round {
                state.heartbeat_acks.insert(from, true);
            }
            let acked: Option<u64> = match state.acked_rounds.get(&from) {
                Some(round) => Some(*round),
                None => None,
            };
            match acked {
                Some(round) if round >= resp.round => {},
                _ => {
                    if resp.round <= state.round {
                        state.acked_rounds.insert(from, resp.round);
                    }
                },
            }
            if resp.success {
                let sent_up_to = if resp.match_index <= last_index {
                    resp.match_index
                } else {
                    last_index
                };
                let recorded: u64 = match state.match_index.get(&from) {
                    Some(index) => *index,
                    None => 0,
                };
                let known = if recorded > sent_up_to {
                    recorded
                } else {
                    sent_up_to
                };
                state.match_index.insert(from, known);
                state.next_index.insert(
                    from,
                    if known <= last_index {
                        known + 1
                    } else {
                        last_index + 1
                    },
                );
            } else {
                state.next_index.insert(from, backtracked);
            }
            assert(state@ =~= before.answered(from, resp));
            node.leader_state = Some(state);
        }
        node
    }

    fn next_after_rejection(&self, from: NodeId, resp: &AppendEntriesResponse) -> (next: u64)
        requires
            self@.log().wf(),
            self@.log().last_index() < u64::MAX,
            self@.leader_state is Some,
            resp.conflict_index is None || resp.conflict_term is None
                ==> self@.leader_state->0.next_index.contains_key(from),
        ensures
            next == self@.backtrack(from, *resp),
    {
        match (resp.conflict_index, resp.conflict_term) {
            (Some(conflict_index), Some(conflict_term)) => {
                // Find the last entry in our log with conflict_term.
                let ghost same_term = |i: int| self@.log().term_at(i) == resp.conflict_term->0;
                let mut i = self.persistent.log.last_index();
                while i > 0 && self.persistent.log.term_at(i) != conflict_term
                    invariant
                        self@.log().wf(),
                        i <= self@.log().last_index(),
                        resp.conflict_term == Some(conflict_term),
                        same_term == (|i: int|
                            self@.log().term_at(i) == resp.conflict_term->0),
                        crate::log::highest(same_term, 0, self@.log().last_index())
                            == crate::log::highest(same_term, 0, i as int),
                    decreases i,
                {
                    i = i - 1;
                }
                if i > 0 {
                    i + 1
                } else {
                    conflict_index
                }
            },
            _ => {
                let prev = self.prev_index_of(from);
                if prev <= 1 {
                    1
                } else {
                    prev
                }
            },
        }
    }

    /// Handle a client request.
    ///
    /// If this node is not the leader, returns a redirect immediately.
    /// If it is the leader, appends the command to the log and replicates. A
    /// read starts a heartbeat round instead, which confirms that the node is
    /// still the active leader.
    pub fn handle_client_request(self, req: ClientRequest) -> (result: (Self, Actions))
        requires
            self.wf(),
            self@.admits(Event::ClientRequest(req)),
        ensures
            result.0.wf(),
            (result.0@, result.1@) == self@.handle_client_request(req),
    {
        if self.role != Role::Leader {
            let response = ClientResponse {
                id: req.id,
                result: ClientResult::NotLeader { leader_hint: self.current_leader },
            };
            let mut actions = Actions::default();
            actions.client_responses.push(response);
            assert(actions@ =~= self@.handle_client_request(req).1);
            return (self, actions);
        }
        match req.operation {
            ClientOperation::Get { .. } => {
                let node = self.start_heartbeat_round();
                let actions = node.build_append_entries_for_all_peers();
                (node, actions)
            },
            ClientOperation::Put { key, value } => self.append_and_replicate(
                Command::Put { key, value },
            ),
            ClientOperation::Delete { key } => self.append_and_replicate(Command::Delete { key }),
        }
    }

    fn append_and_replicate(self, command: Command) -> (result: (Self, Actions))
        requires
            self.wf(),
            self@.role == Role::Leader,
            self@.log().last_index() < u64::MAX,
        ensures
            result.0.wf(),
            (result.0@, result.1@) == self@.append_and_replicate(command),
    {
        let ghost before = self@;
        let mut node = self;
        let new_index = node.persistent.log.last_index() + 1;
        let entry = LogEntry { term: node.persistent.current_term, index: new_index, command };
        node.persistent.log = node.persistent.log.append(entry);
        if let Some(state) = node.leader_state.take() {
            let mut state = state;
            state.match_index.insert(node.id, new_index);
            node.leader_state = Some(state);
        }
        assert(node@ =~= before.with_command(command));
        let persist = Some(node.persistent.clone());
        if node.peers.len() == 0 {
            // No peer will ever answer: commit the entry immediately.
            let (node, mut actions) = node.try_advance_commit();
            actions.persist = persist;
            assert(actions@ =~= before.append_and_replicate(command).1);
            return (node, actions);
        }
        let mut actions = node.build_append_entries_for_all_peers();
        actions.persist = persist;
        (node, actions)
    }

    // ── Snapshots ──────────────────────────────────────────────────────────

    /// Discard the log entries up to `index`, which a snapshot has replaced.
    pub fn compact_log(self, index: u64) -> (node: Self)
        requires
            self.wf(),
        ensures
            node.wf(),
            node@ == self@.compact_log(index),
    {
        let mut node = self;
        node.persistent.log = node.persistent.log.compact_up_to(index);
        node
    }

    /// Handle an InstallSnapshot RPC (follower side).
    ///
    /// A snapshot that goes beyond the commit index replaces the log up to its
    /// last entry, and is handed on in `install_snapshot`.
    pub fn handle_install_snapshot(self, req: InstallSnapshotRequest) -> (result: (Self, Actions))
        requires
            self.wf(),
        ensures
            result.0.wf(),
            (result.0@, result.1@) == self@.handle_install_snapshot(req@),
    {
        let ghost before = self@;
        let (mut node, mut actions) = self.observe_term(req.term);
        let response = InstallSnapshotResponse {
            term: node.persistent.current_term,
            peer_id: node.id,
        };
        actions.messages.push((req.leader_id, RaftMessage::InstallSnapshotResponse(response)));
        if req.term < node.persistent.current_term {
            assert(actions@ =~= before.handle_install_snapshot(req@).1);
            return (node, actions);
        }
        actions.reset_election_timer = true;
        node.current_leader = Some(req.leader_id);
        let index = req.last_included_index;
        if index <= node.volatile.commit_index {
            assert(actions@ =~= before.handle_install_snapshot(req@).1);
            return (node, actions);
        }
        let agrees = match node.persistent.log.get(index) {
            Some(entry) => entry.term == req.last_included_term,
            None => false,
        };
        if agrees {
            node.persistent.log = node.persistent.log.compact_up_to(index);
        } else {
            node.persistent.log = RaftLog::new_with_snapshot(index, req.last_included_term);
        }
        node.volatile.commit_index = index;
        actions.persist = Some(node.persistent.clone());
        actions.install_snapshot = Some(req);
        assert(node@ =~= before.handle_install_snapshot(req@).0);
        assert(actions@ =~= before.handle_install_snapshot(req@).1);
        (node, actions)
    }

    /// Handle an InstallSnapshot response (leader side): the peer gets the
    /// entries after the snapshot next.
    pub fn handle_install_snapshot_response(
        self,
        from: NodeId,
        resp: InstallSnapshotResponse,
    ) -> (result: (Self, Actions))
        requires
            self.wf(),
            self@.admits(Event::InstallSnapshotResponse(from, resp)),
        ensures
            result.0.wf(),
            (result.0@, result.1@) == self@.handle_install_snapshot_response(from, resp),
    {
        if resp.term > self.persistent.current_term {
            return self.step_down(resp.term);
        }
        if self.role != Role::Leader || !self.knows(from) {
            return (self, Actions::default());
        }
        let ghost before = self@;
        let mut node = self;
        if let Some(state) = node.leader_state.take() {
            let mut state = state;
            state.next_index.insert(from, node.persistent.log.snapshot_last_index() + 1);
            node.leader_state = Some(state);
        }
        assert(node@ =~= before.handle_install_snapshot_response(from, resp).0);
        (node, Actions::default())
    }

    // ── What the node can handle ───────────────────────────────────────────

    /// Whether the node can handle a message: no counter overflows, and new
    /// entries leave no gap.
    pub fn can_handle(&self, from: NodeId, message: &RaftMessage) -> (can: bool)
        requires
            self.wf(),
        ensures
            can == (crate::transitions::event_of(from, message@) matches Some(event)
                ==> self@.admits(event)),
    {
        let last_index = self.persistent.log.last_index();
        let term = self.persistent.current_term;
        match message {
            RaftMessage::VoteResponse(resp) => {
                !(self.role == Role::Candidate && resp.vote_granted && resp.term == term)
                    || last_index < u64::MAX
            },
            RaftMessage::AppendEntriesRequest(req) => self.can_handle_append_entries(req),
            RaftMessage::AppendEntriesResponse(resp) => {
                !(self.role == Role::Leader && resp.term <= term) || last_index < u64::MAX
            },
            RaftMessage::InstallSnapshotResponse(_) => {
                self.role != Role::Leader || self.persistent.log.snapshot_last_index() < u64::MAX
            },
            RaftMessage::ClientRequest(req) => {
                match req.operation {
                    ClientOperation::Get { .. } => self.can_tick(),
                    _ => self.role != Role::Leader || last_index < u64::MAX,
                }
            },
            _ => true,
        }
    }

    /// Whether the node can start an election: its term, and its log if it wins
    /// at once, have room for one more.
    pub fn can_time_out(&self) -> (can: bool)
        requires
            self.wf(),
        ensures
            can == self@.admits(Event::ElectionTimeout),
    {
        self.role == Role::Leader || (self.persistent.current_term < u64::MAX && (self.peers.len()
            != 0 || self.persistent.log.last_index() < u64::MAX))
    }

    /// Whether another heartbeat round can be counted.
    pub fn can_tick(&self) -> (can: bool)
        ensures
            can == self@.admits(Event::Tick),
    {
        match &self.leader_state {
            Some(state) => self.role != Role::Leader || state.round < u64::MAX,
            None => true,
        }
    }
}

/// A copy of log entries.
fn copy_entries(entries: &[LogEntry]) -> (copy: Vec<LogEntry>)
    ensures
        copy@ == entries@,
{
    let mut copy: Vec<LogEntry> = Vec::new();
    let mut i: usize = 0;
    while i < entries.len()
        invariant
            i <= entries@.len(),
            copy@ =~= entries@.take(i as int),
        decreases entries@.len() - i,
    {
        copy.push(entries[i].clone());
        i += 1;
    }
    copy
}

} // verus!
