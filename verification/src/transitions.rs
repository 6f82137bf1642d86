//! The Raft state machine as mathematics: what a node is, and what each event
//! makes of it.

use vstd::prelude::*;

use crate::config::RaftConfig;
use crate::log::LogView;
use crate::message::{
    AppendEntriesResponse, AppendEntriesView, ClientOperation, ClientRequest, ClientResponse,
    ClientResult, Command, InstallSnapshotResponse, InstallSnapshotView, LogEntry, MessageView,
    NodeId, VoteRequest, VoteResponse,
};
use crate::state::{ActionsView, LeaderView, PersistentView, Role, VolatileState};

verus! {

/// The state of a node.
#[verifier::ext_equal]
pub struct NodeView {
    pub id: NodeId,
    pub peers: Seq<NodeId>,
    pub role: Role,
    pub persistent: PersistentView,
    pub volatile: VolatileState,
    pub leader_state: Option<LeaderView>,
    pub config: RaftConfig,
    pub current_leader: Option<NodeId>,
}

/// What can happen to a node.
pub enum Event {
    ElectionTimeout,
    Tick,
    VoteRequest(VoteRequest),
    VoteResponse(NodeId, VoteResponse),
    AppendEntries(AppendEntriesView),
    AppendEntriesResponse(NodeId, AppendEntriesResponse),
    InstallSnapshot(InstallSnapshotView),
    InstallSnapshotResponse(NodeId, InstallSnapshotResponse),
    ClientRequest(ClientRequest),
}

/// What the arrival of a message is to the node that gets it.
pub open spec fn event_of(from: NodeId, message: MessageView) -> Option<Event> {
    match message {
        MessageView::VoteRequest(req) => Some(Event::VoteRequest(req)),
        MessageView::VoteResponse(resp) => Some(Event::VoteResponse(from, resp)),
        MessageView::AppendEntriesRequest(req) => Some(Event::AppendEntries(req)),
        MessageView::AppendEntriesResponse(resp) => Some(Event::AppendEntriesResponse(from, resp)),
        MessageView::InstallSnapshotRequest(req) => Some(Event::InstallSnapshot(req)),
        MessageView::InstallSnapshotResponse(resp) => Some(
            Event::InstallSnapshotResponse(from, resp),
        ),
        MessageView::ClientRequest(req) => Some(Event::ClientRequest(req)),
        MessageView::ClientResponse(_) => None,
    }
}

impl NodeView {
    /// A node that has never run.
    pub open spec fn initial(id: NodeId, peers: Seq<NodeId>, config: RaftConfig) -> NodeView {
        NodeView {
            id,
            peers,
            role: Role::Follower,
            persistent: PersistentView::initial(),
            volatile: VolatileState { commit_index: 0, last_applied: 0 },
            leader_state: None,
            config,
            current_leader: None,
        }
    }

    /// A leader knows what to send next to each of its peers, and to nobody else.
    /// Only peers acknowledge its heartbeats, and no round before it starts.
    pub open spec fn tracks_peers(self) -> bool {
        &&& self.leader_state is Some
        &&& forall|p: NodeId| #[trigger]
            self.leader_state->0.next_index.contains_key(p) <==> self.peers.contains(p)
        &&& forall|p: NodeId| #[trigger]
            self.leader_state->0.heartbeat_acks.contains_key(p) ==> self.peers.contains(p)
        &&& forall|p: NodeId| #[trigger]
            self.leader_state->0.acked_rounds.contains_key(p) ==> self.peers.contains(p)
                && self.leader_state->0.acked_rounds[p] <= self.leader_state->0.round
    }

    pub open spec fn wf(self) -> bool {
        &&& self.persistent.log.wf()
        &&& self.role == Role::Leader ==> self.tracks_peers()
    }

    pub open spec fn term(self) -> u64 {
        self.persistent.current_term
    }

    pub open spec fn log(self) -> LogView {
        self.persistent.log
    }

    // ── Stepping down ──────────────────────────────────────────────────────

    pub open spec fn stepped_down(self, new_term: u64) -> NodeView {
        NodeView {
            role: Role::Follower,
            persistent: PersistentView {
                current_term: new_term,
                voted_for: None,
                log: self.log(),
            },
            leader_state: None,
            current_leader: None,
            ..self
        }
    }

    pub open spec fn step_down(self, new_term: u64) -> (NodeView, ActionsView) {
        (
            self.stepped_down(new_term),
            ActionsView {
                persist: Some(self.stepped_down(new_term).persistent),
                reset_election_timer: true,
                ..ActionsView::none()
            },
        )
    }

    /// What the sight of a term makes of a node, before anything else: a higher
    /// term than its own makes it a follower in that term.
    pub open spec fn observe_term(self, term: u64) -> (NodeView, ActionsView) {
        if term > self.term() {
            self.step_down(term)
        } else {
            (self, ActionsView::none())
        }
    }

    // ── Election ───────────────────────────────────────────────────────────

    pub open spec fn candidacy(self) -> NodeView {
        NodeView {
            role: Role::Candidate,
            persistent: PersistentView {
                current_term: (self.term() + 1) as u64,
                voted_for: Some(self.id),
                log: self.log(),
            },
            leader_state: None,
            current_leader: None,
            ..self
        }
    }

    /// The vote request that a candidate sends to every peer.
    pub open spec fn vote_request(self) -> VoteRequest {
        VoteRequest {
            term: self.term(),
            candidate_id: self.id,
            last_log_index: self.log().last_index() as u64,
            last_log_term: self.log().last_term(),
        }
    }

    pub open spec fn election_timeout(self) -> (NodeView, ActionsView) {
        let candidate = self.candidacy();
        if self.role == Role::Leader {
            (self, ActionsView::none())
        } else if self.peers.len() == 0 {
            candidate.become_leader()
        } else {
            (
                candidate,
                ActionsView {
                    messages: self.peers.map_values(
                        |p: NodeId| (p, MessageView::VoteRequest(candidate.vote_request())),
                    ),
                    persist: Some(candidate.persistent),
                    reset_election_timer: true,
                    ..ActionsView::none()
                },
            )
        }
    }

    /// Whether the node votes for the candidate: the candidate's term is not
    /// past, the node has not voted for another in its own term, and the
    /// candidate's log is at least as up to date as its own.
    pub open spec fn grants(self, req: VoteRequest) -> bool {
        &&& req.term >= self.term()
        &&& self.persistent.voted_for is None || self.persistent.voted_for == Some(
            req.candidate_id,
        )
        &&& self.log().no_newer_than(req.last_log_term, req.last_log_index as int)
    }

    pub open spec fn voted(self, req: VoteRequest) -> NodeView {
        NodeView {
            persistent: PersistentView {
                current_term: req.term,
                voted_for: Some(req.candidate_id),
                log: self.log(),
            },
            ..self
        }
    }

    pub open spec fn handle_vote_request(self, req: VoteRequest) -> (NodeView, ActionsView) {
        let (node, actions) = self.observe_term(req.term);
        let granted = node.grants(req);
        let after = if granted {
            node.voted(req)
        } else {
            node
        };
        let response = VoteResponse {
            term: after.term(),
            vote_granted: granted,
            peer_id: self.id,
        };
        (
            after,
            ActionsView {
                messages: seq![(req.candidate_id, MessageView::VoteResponse(response))],
                persist: if granted {
                    Some(after.persistent)
                } else {
                    actions.persist
                },
                reset_election_timer: granted || actions.reset_election_timer,
                ..ActionsView::none()
            },
        )
    }

    /// The vote tally once `from` has granted its vote.
    pub open spec fn tally(self, from: NodeId) -> LeaderView {
        let before = match self.leader_state {
            Some(state) => state,
            None => LeaderView::initial(self.peers, self.log().last_index()),
        };
        LeaderView { match_index: before.match_index.insert(from, u64::MAX), ..before }
    }

    pub open spec fn handle_vote_response(self, from: NodeId, resp: VoteResponse) -> (
        NodeView,
        ActionsView,
    ) {
        if resp.term > self.term() {
            self.step_down(resp.term)
        } else if self.role != Role::Candidate || resp.term < self.term() || !resp.vote_granted {
            (self, ActionsView::none())
        } else {
            let node = NodeView { leader_state: Some(self.tally(from)), ..self };
            // The candidate has voted for itself.
            if 1 + self.tally(from).voters().len() >= self.config.quorum() {
                node.become_leader()
            } else {
                (node, ActionsView::none())
            }
        }
    }

    /// The entry that a node appends when it becomes leader.
    pub open spec fn noop(self) -> LogEntry {
        LogEntry {
            term: self.term(),
            index: (self.log().last_index() + 1) as u64,
            command: Command::Noop,
        }
    }

    pub open spec fn leadership(self) -> NodeView {
        NodeView {
            role: Role::Leader,
            current_leader: Some(self.id),
            leader_state: Some(LeaderView::initial(self.peers, self.log().last_index())),
            persistent: PersistentView { log: self.log().push(self.noop()), ..self.persistent },
            ..self
        }
    }

    pub open spec fn become_leader(self) -> (NodeView, ActionsView) {
        let leader = self.leadership();
        (
            leader,
            ActionsView { persist: Some(leader.persistent), ..leader.replicate() },
        )
    }

    // ── Log replication, leader side ───────────────────────────────────────

    /// The index of the entry before the first one to send to `peer`.
    pub open spec fn prev_index(self, peer: NodeId) -> int {
        let next = self.leader_state->0.next_index[peer];
        if next == 0 {
            0
        } else {
            next - 1
        }
    }

    /// Whether the entries that `peer` needs have been compacted away.
    pub open spec fn needs_snapshot(self, peer: NodeId) -> bool {
        self.prev_index(peer) < self.log().snapshot_index
    }

    /// The AppendEntries request for `peer`: all entries from the next one on.
    pub open spec fn append_entries_for(self, peer: NodeId) -> AppendEntriesView {
        AppendEntriesView {
            term: self.term(),
            leader_id: self.id,
            prev_log_index: self.prev_index(peer) as u64,
            prev_log_term: self.log().term_at(self.prev_index(peer)),
            entries: self.log().after(self.prev_index(peer)),
            leader_commit: self.volatile.commit_index,
            round: self.leader_state->0.round,
        }
    }

    pub open spec fn lagging(self) -> spec_fn(NodeId) -> bool {
        |p: NodeId| self.needs_snapshot(p)
    }

    pub open spec fn in_reach(self) -> spec_fn(NodeId) -> bool {
        |p: NodeId| !self.needs_snapshot(p)
    }

    /// The AppendEntries request for `peer`, addressed.
    pub open spec fn addressed_to(self) -> spec_fn(NodeId) -> (NodeId, MessageView) {
        |p: NodeId| (p, MessageView::AppendEntriesRequest(self.append_entries_for(p)))
    }

    /// The log entries go to every peer; a peer that needs compacted entries is
    /// to get a snapshot instead.
    pub open spec fn replicate(self) -> ActionsView {
        ActionsView {
            messages: self.peers.filter(self.in_reach()).map_values(self.addressed_to()),
            send_snapshot_to: self.peers.filter(self.lagging()),
            ..ActionsView::none()
        }
    }

    /// The node at the start of the next heartbeat round: no peer has acknowledged
    /// it.
    pub open spec fn round_started(self) -> NodeView {
        match self.leader_state {
            Some(state) => NodeView {
                leader_state: Some(
                    LeaderView {
                        heartbeat_acks: state.heartbeat_acks.union_prefer_right(
                            crate::state::for_each_peer(self.peers, false),
                        ),
                        round: (state.round + 1) as u64,
                        ..state
                    },
                ),
                ..self
            },
            None => self,
        }
    }

    /// Whether the node is a leader that a majority has acknowledged in the
    /// heartbeat round `round` or a later one.
    pub open spec fn confirmed_since(self, round: u64) -> bool {
        &&& self.role == Role::Leader
        &&& self.leader_state is Some
        &&& self.peers.len() == 0 || 1 + self.leader_state->0.acknowledging(
            self.id,
            round as int,
        ).len() >= self.config.quorum()
    }

    pub open spec fn tick(self) -> (NodeView, ActionsView) {
        if self.role != Role::Leader {
            (self, ActionsView::none())
        } else {
            let node = self.round_started();
            if self.peers.len() == 0 {
                let (advanced, entries) = node.advance_commit();
                (advanced, ActionsView { entries_to_apply: entries, ..ActionsView::none() })
            } else {
                (node, node.replicate())
            }
        }
    }

    /// Whether a majority of the nodes holds the entry at `index`. The leader
    /// holds all its entries, and it counts once.
    pub open spec fn majority_holds(self, index: int) -> bool {
        &&& self.leader_state is Some
        &&& self.peers.len() == 0 || 1 + self.leader_state->0.replicas(self.id, index).len()
            >= self.config.quorum()
    }

    /// Whether the leader may commit all entries up to `index`: a majority of
    /// the nodes holds that entry, and it is one of the current term.
    pub open spec fn committable(self, index: int) -> bool {
        self.log().term_at(index) == self.term() && self.majority_holds(index)
    }

    /// The highest index that the leader may commit, if it is above the commit
    /// index.
    pub open spec fn commit_target(self) -> int {
        crate::log::highest(
            |n: int| self.committable(n),
            self.volatile.commit_index as int,
            self.log().last_index(),
        )
    }

    pub open spec fn with_commit(self, index: int) -> NodeView {
        NodeView {
            volatile: VolatileState { commit_index: index as u64, ..self.volatile },
            ..self
        }
    }

    pub open spec fn with_applied(self, index: u64) -> NodeView {
        NodeView {
            volatile: VolatileState { last_applied: index, ..self.volatile },
            ..self
        }
    }

    /// The node after it has committed what it may, and the entries that are
    /// newly committed.
    pub open spec fn advance_commit(self) -> (NodeView, Seq<LogEntry>) {
        if self.leader_state is None {
            (self, Seq::empty())
        } else {
            (
                self.with_commit(self.commit_target()),
                self.log().between(self.volatile.commit_index as int, self.commit_target()),
            )
        }
    }

    /// The next index to send to a peer that has rejected the last request.
    pub open spec fn backtrack(self, from: NodeId, resp: AppendEntriesResponse) -> int {
        if resp.conflict_index is Some && resp.conflict_term is Some {
            let same_term = crate::log::highest(
                |i: int| self.log().term_at(i) == resp.conflict_term->0,
                0,
                self.log().last_index(),
            );
            if same_term > 0 {
                same_term + 1
            } else {
                resp.conflict_index->0 as int
            }
        } else if self.prev_index(from) <= 1 {
            1
        } else {
            self.prev_index(from)
        }
    }

    /// What the leader knows of who has acknowledged its heartbeats after an answer
    /// from `from`.
    pub open spec fn acknowledged(self, from: NodeId, resp: AppendEntriesResponse) -> LeaderView {
        let state = self.leader_state->0;
        LeaderView {
            heartbeat_acks: if resp.round == state.round {
                state.heartbeat_acks.insert(from, true)
            } else {
                state.heartbeat_acks
            },
            acked_rounds: if resp.round > state.round || (state.acked_rounds.contains_key(from)
                && state.acked_rounds[from] >= resp.round) {
                state.acked_rounds
            } else {
                state.acked_rounds.insert(from, resp.round)
            },
            ..state
        }
    }

    /// What the leader knows of its peers after an answer from `from` in its term. On
    /// success the peer holds all that the request carried.
    pub open spec fn answered(self, from: NodeId, resp: AppendEntriesResponse) -> LeaderView {
        let state = self.acknowledged(from, resp);
        let last = self.log().last_index();
        if resp.success {
            let sent_up_to = crate::log::lesser(resp.match_index as int, last);
            let known = if state.match_index.contains_key(from) && state.match_index[from]
                > sent_up_to {
                state.match_index[from]
            } else {
                sent_up_to as u64
            };
            let next = crate::log::lesser(known as int, last) + 1;
            LeaderView {
                next_index: state.next_index.insert(from, next as u64),
                match_index: state.match_index.insert(from, known),
                ..state
            }
        } else {
            LeaderView {
                next_index: state.next_index.insert(from, self.backtrack(from, resp) as u64),
                ..state
            }
        }
    }

    /// What the leader knows of its peers after a rejection from `from` of an earlier
    /// term. The peer's log may still be the one that it was then, so the leader
    /// backtracks, but no further ahead than the end of its own log.
    pub open spec fn rejected_earlier(
        self,
        from: NodeId,
        resp: AppendEntriesResponse,
    ) -> LeaderView {
        let state = self.leader_state->0;
        let next = crate::log::lesser(self.backtrack(from, resp), self.log().last_index() + 1);
        LeaderView { next_index: state.next_index.insert(from, next as u64), ..state }
    }

    /// What the leader knows of its peers after an answer that is not of a later term.
    /// An answer from a node that is no peer says nothing, and neither does a success
    /// of an earlier term, which is to another leadership's request.
    pub open spec fn after_answer(self, from: NodeId, resp: AppendEntriesResponse) -> LeaderView {
        if !self.peers.contains(from) {
            self.leader_state->0
        } else if resp.term == self.term() {
            self.answered(from, resp)
        } else if resp.success {
            self.leader_state->0
        } else {
            self.rejected_earlier(from, resp)
        }
    }

    /// After every answer the leader commits what it may.
    pub open spec fn handle_append_entries_response(
        self,
        from: NodeId,
        resp: AppendEntriesResponse,
    ) -> (NodeView, ActionsView) {
        if resp.term > self.term() {
            self.step_down(resp.term)
        } else if self.role != Role::Leader || self.leader_state is None {
            (self, ActionsView::none())
        } else {
            let node = NodeView { leader_state: Some(self.after_answer(from, resp)), ..self };
            let (advanced, entries) = node.advance_commit();
            (advanced, ActionsView { entries_to_apply: entries, ..ActionsView::none() })
        }
    }

    // ── Log replication, follower side ─────────────────────────────────────

    /// The hint that goes with a rejected request: where the conflicting term
    /// starts and which term it is, or the end of the log if it is too short.
    pub open spec fn conflict_hint(self, prev_index: int) -> (int, Option<u64>) {
        if self.log().term_at(prev_index) == 0 {
            (self.log().last_index() + 1, None)
        } else {
            (self.log().run_start(prev_index), Some(self.log().term_at(prev_index)))
        }
    }

    /// The commit index that a leader's commit index leads to, in a log that
    /// ends at `last`: it follows the leader, and never goes back.
    pub open spec fn follow_commit(self, leader_commit: u64, last: int) -> int {
        let known = if leader_commit <= last {
            leader_commit as int
        } else {
            last
        };
        if known > self.volatile.commit_index {
            known
        } else {
            self.volatile.commit_index as int
        }
    }

    /// Whether the node takes over the entries of the request.
    pub open spec fn accepts(self, req: AppendEntriesView) -> bool {
        req.term >= self.term() && self.log().matches(req.prev_log_index as int, req.prev_log_term)
    }

    /// Whether the node is to answer the request with a conflict hint.
    pub open spec fn must_hint(self, req: AppendEntriesView) -> bool {
        req.term >= self.term() && !self.log().matches(
            req.prev_log_index as int,
            req.prev_log_term,
        )
    }

    /// The node after it has taken over the entries of the request.
    pub open spec fn appended(self, req: AppendEntriesView) -> NodeView {
        let log = self.log().with_entries(req.entries);
        NodeView {
            persistent: PersistentView { log, ..self.persistent },
            ..self.with_commit(self.follow_commit(req.leader_commit, log.last_index()))
        }
    }

    pub open spec fn handle_append_entries(self, req: AppendEntriesView) -> (
        NodeView,
        ActionsView,
    ) {
        let (observed, actions) = self.observe_term(req.term);
        let rejection = AppendEntriesResponse {
            term: observed.term(),
            success: false,
            conflict_index: None,
            conflict_term: None,
            match_index: 0,
            round: 0,
            peer_id: self.id,
        };
        if req.term < self.term() {
            (
                observed,
                ActionsView {
                    messages: seq![
                        (req.leader_id, MessageView::AppendEntriesResponse(rejection)),
                    ],
                    ..actions
                },
            )
        } else {
            let node = NodeView { current_leader: Some(req.leader_id), ..observed };
            if !self.log().matches(req.prev_log_index as int, req.prev_log_term) {
                let (index, term) = self.conflict_hint(req.prev_log_index as int);
                let response = AppendEntriesResponse {
                    conflict_index: Some(index as u64),
                    conflict_term: term,
                    round: req.round,
                    ..rejection
                };
                (
                    node,
                    ActionsView {
                        messages: seq![
                            (req.leader_id, MessageView::AppendEntriesResponse(response)),
                        ],
                        reset_election_timer: true,
                        ..actions
                    },
                )
            } else {
                let after = node.appended(req);
                let response = AppendEntriesResponse {
                    success: true,
                    match_index: req.end(),
                    round: req.round,
                    ..rejection
                };
                (
                    after,
                    ActionsView {
                        messages: seq![
                            (req.leader_id, MessageView::AppendEntriesResponse(response)),
                        ],
                        entries_to_apply: after.log().between(
                            self.volatile.commit_index as int,
                            after.volatile.commit_index as int,
                        ),
                        persist: Some(after.persistent),
                        reset_election_timer: true,
                        ..actions
                    },
                )
            }
        }
    }

    // ── Client requests ────────────────────────────────────────────────────

    /// The leader after it has appended `command` to its log.
    pub open spec fn with_command(self, command: Command) -> NodeView {
        let index = (self.log().last_index() + 1) as u64;
        NodeView {
            persistent: PersistentView {
                log: self.log().push(LogEntry { term: self.term(), index, command }),
                ..self.persistent
            },
            leader_state: match self.leader_state {
                Some(state) => Some(
                    LeaderView { match_index: state.match_index.insert(self.id, index), ..state },
                ),
                None => None,
            },
            ..self
        }
    }

    pub open spec fn append_and_replicate(self, command: Command) -> (NodeView, ActionsView) {
        let node = self.with_command(command);
        if self.peers.len() == 0 {
            let (advanced, entries) = node.advance_commit();
            (
                advanced,
                ActionsView {
                    persist: Some(node.persistent),
                    entries_to_apply: entries,
                    ..ActionsView::none()
                },
            )
        } else {
            (node, ActionsView { persist: Some(node.persistent), ..node.replicate() })
        }
    }

    pub open spec fn handle_client_request(self, req: ClientRequest) -> (NodeView, ActionsView) {
        if self.role != Role::Leader {
            let response = ClientResponse {
                id: req.id,
                result: ClientResult::NotLeader { leader_hint: self.current_leader },
            };
            (self, ActionsView { client_responses: seq![response], ..ActionsView::none() })
        } else {
            match req.operation {
                ClientOperation::Get { .. } => (
                    self.round_started(),
                    self.round_started().replicate(),
                ),
                ClientOperation::Put { key, value } => self.append_and_replicate(
                    Command::Put { key, value },
                ),
                ClientOperation::Delete { key } => self.append_and_replicate(
                    Command::Delete { key },
                ),
            }
        }
    }

    // ── Snapshots ──────────────────────────────────────────────────────────

    /// The node after its log has been compacted up to `index`.
    pub open spec fn compact_log(self, index: u64) -> NodeView {
        NodeView {
            persistent: PersistentView { log: self.log().compacted(index), ..self.persistent },
            ..self
        }
    }

    /// The log after a snapshot has been installed: entries that follow the
    /// snapshot stay if the log agrees with it, and the rest goes.
    pub open spec fn log_with_snapshot(self, req: InstallSnapshotView) -> LogView {
        if self.log().holds(req.last_included_index as int) && self.log().term_at(
            req.last_included_index as int,
        ) == req.last_included_term {
            self.log().compacted(req.last_included_index)
        } else {
            LogView::based_at(req.last_included_index, req.last_included_term)
        }
    }

    /// A snapshot from the leader is installed if it goes beyond what is known
    /// to be committed.
    pub open spec fn handle_install_snapshot(self, req: InstallSnapshotView) -> (
        NodeView,
        ActionsView,
    ) {
        let (observed, actions) = self.observe_term(req.term);
        let response = InstallSnapshotResponse { term: observed.term(), peer_id: self.id };
        let messages = seq![(req.leader_id, MessageView::InstallSnapshotResponse(response))];
        if req.term < self.term() {
            (observed, ActionsView { messages, ..actions })
        } else {
            let node = NodeView { current_leader: Some(req.leader_id), ..observed };
            if req.last_included_index <= self.volatile.commit_index {
                (node, ActionsView { messages, reset_election_timer: true, ..actions })
            } else {
                let after = NodeView {
                    persistent: PersistentView {
                        log: node.log_with_snapshot(req),
                        ..node.persistent
                    },
                    ..node.with_commit(req.last_included_index as int)
                };
                (
                    after,
                    ActionsView {
                        messages,
                        persist: Some(after.persistent),
                        reset_election_timer: true,
                        install_snapshot: Some(req),
                        ..actions
                    },
                )
            }
        }
    }

    /// A peer that has the snapshot gets the entries after it next.
    pub open spec fn handle_install_snapshot_response(
        self,
        from: NodeId,
        resp: InstallSnapshotResponse,
    ) -> (NodeView, ActionsView) {
        if resp.term > self.term() {
            self.step_down(resp.term)
        } else if self.role != Role::Leader || self.leader_state is None || !self.peers.contains(
            from,
        ) {
            (self, ActionsView::none())
        } else {
            let state = self.leader_state->0;
            let next = (self.log().snapshot_index + 1) as u64;
            (
                NodeView {
                    leader_state: Some(
                        LeaderView { next_index: state.next_index.insert(from, next), ..state },
                    ),
                    ..self
                },
                ActionsView::none(),
            )
        }
    }

    // ── Events ─────────────────────────────────────────────────────────────

    /// What an event makes of the node.
    pub open spec fn on(self, event: Event) -> (NodeView, ActionsView) {
        match event {
            Event::ElectionTimeout => self.election_timeout(),
            Event::Tick => self.tick(),
            Event::VoteRequest(req) => self.handle_vote_request(req),
            Event::VoteResponse(from, resp) => self.handle_vote_response(from, resp),
            Event::AppendEntries(req) => self.handle_append_entries(req),
            Event::AppendEntriesResponse(from, resp) => self.handle_append_entries_response(
                from,
                resp,
            ),
            Event::InstallSnapshot(req) => self.handle_install_snapshot(req),
            Event::InstallSnapshotResponse(from, resp) => self.handle_install_snapshot_response(
                from,
                resp,
            ),
            Event::ClientRequest(req) => self.handle_client_request(req),
        }
    }

    /// Whether another heartbeat round can be counted.
    pub open spec fn has_rounds_left(self) -> bool {
        self.role == Role::Leader && self.leader_state is Some ==> self.leader_state->0.round
            < u64::MAX
    }

    /// Whether the node can handle the event: no counter overflows, and new entries
    /// leave no gap.
    pub open spec fn admits(self, event: Event) -> bool {
        let last = self.log().last_index();
        match event {
            Event::ElectionTimeout => {
                &&& self.role != Role::Leader ==> self.term() < u64::MAX
                &&& self.role != Role::Leader && self.peers.len() == 0 ==> last < u64::MAX
            },
            Event::Tick => self.has_rounds_left(),
            Event::VoteRequest(_) => true,
            Event::VoteResponse(_, resp) => self.role == Role::Candidate && resp.vote_granted
                && resp.term == self.term() ==> last < u64::MAX,
            Event::AppendEntries(req) => {
                &&& self.accepts(req) ==> self.log().takes_all(req.entries)
                &&& self.must_hint(req) && self.log().term_at(req.prev_log_index as int) == 0
                    ==> last < u64::MAX
            },
            Event::AppendEntriesResponse(from, resp) => self.role == Role::Leader && resp.term
                <= self.term() ==> last < u64::MAX,
            Event::InstallSnapshot(_) => true,
            Event::InstallSnapshotResponse(_, _) => self.role == Role::Leader
                ==> self.log().snapshot_index < u64::MAX,
            Event::ClientRequest(req) => if req.operation is Get {
                self.has_rounds_left()
            } else {
                self.role == Role::Leader ==> last < u64::MAX
            },
        }
    }
}

} // verus!
