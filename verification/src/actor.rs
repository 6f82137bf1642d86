//! The node actor: drives the Raft state machine and the key-value store, and
//! keeps the client requests that wait for an answer.
//!
//! The actor decides; whoever runs it performs the input and output that it asks
//! for, and hands the outcome back.

use std::collections::HashMap;
use vstd::prelude::*;

use crate::config::RaftConfig;
use crate::kv::{kv_from_pairs, KvStore};
use crate::log::{LogView, RaftLog};
use crate::message::{
    ClientOperation, ClientRequest, ClientResponse, ClientResult, InstallSnapshotRequest,
    InstallSnapshotView, LogEntry, MessageView, NodeId, RaftMessage, ResponseView, ResultView,
};
use crate::metrics::Metrics;
use crate::node::RaftNode;
use crate::state::{Actions, ActionsView, PersistentState, PersistentView, Role, VolatileState};
use crate::storage::{recovered, SnapshotFile, StoredState};
use crate::transitions::{Event, NodeView};
use crate::transport::Incoming;

verus! {

/// The log is compacted when it exceeds this many entries.
pub const SNAPSHOT_THRESHOLD: usize = 100;

/// A write request from a client that waits for its entry to be committed.
#[derive(Debug)]
pub struct PendingWrite<R> {
    pub request_id: u64,
    /// The term in which the entry was appended.
    pub term: u64,
    pub reply: R,
}

/// A read request from a client that waits for the read-index protocol.
#[derive(Debug)]
pub struct PendingRead<R> {
    pub key: String,
    pub request_id: u64,
    pub read_index: u64,
    /// The heartbeat round that started with the read.
    pub round: u64,
    pub reply: R,
}

/// The top-level node actor. `R` is the way back to a waiting client.
#[derive(Debug)]
pub struct NodeActor<R> {
    pub raft: RaftNode,
    pub kv: KvStore,
    /// Pending writes by the log index of their entry.
    pub pending_writes: HashMap<u64, PendingWrite<R>>,
    /// Pending reads in the order of their arrival.
    pub pending_reads: Vec<PendingRead<R>>,
    /// Whether the durable state has changed since it was last written to disk.
    pub unsaved: bool,
    /// Answers to writes that go out once the durable state is on disk.
    pub held: Vec<Reply<R>>,
    pub metrics: Metrics,
}

/// The state of a node actor.
#[verifier::ext_equal]
#[verifier::reject_recursive_types(R)]
pub struct ActorView<R> {
    pub raft: NodeView,
    pub kv: Map<Seq<char>, Seq<char>>,
    pub pending_writes: Map<u64, PendingWrite<R>>,
    pub pending_reads: Seq<PendingRead<R>>,
    pub unsaved: bool,
    pub held: Seq<(R, ResponseView)>,
    pub metrics: Metrics,
}

/// An answer on its way to a client.
pub type Reply<R> = (R, ClientResponse);

/// The contents of a list of answers.
pub open spec fn contents_of<R>(replies: Seq<Reply<R>>) -> Seq<(R, ResponseView)> {
    replies.map_values(|reply: Reply<R>| (reply.0, reply.1@))
}

/// The answer to a request that was carried out.
pub open spec fn success(id: u64, value: Option<Seq<char>>) -> ResponseView {
    ResponseView { id, result: ResultView::Success(value) }
}

/// The answer of a node that is not the leader.
pub open spec fn redirection(id: u64, leader_hint: Option<NodeId>) -> ResponseView {
    ResponseView { id, result: ResultView::NotLeader { leader_hint } }
}

impl<R> View for NodeActor<R> {
    type V = ActorView<R>;

    open spec fn view(&self) -> ActorView<R> {
        ActorView {
            raft: self.raft@,
            kv: self.kv@,
            pending_writes: self.pending_writes@,
            pending_reads: self.pending_reads@,
            unsaved: self.unsaved,
            held: contents_of(self.held@),
            metrics: self.metrics,
        }
    }
}

// ── What the actor does ────────────────────────────────────────────────────

impl<R> ActorView<R> {
    /// The actor of a node that has started with what its files hold: entries
    /// that the snapshot covers count as committed and applied.
    pub open spec fn started(
        id: NodeId,
        peers: Seq<NodeId>,
        config: RaftConfig,
        kv: Map<Seq<char>, Seq<char>>,
        persistent: PersistentView,
    ) -> ActorView<R> {
        let base = persistent.log.snapshot_index;
        ActorView {
            raft: NodeView {
                persistent,
                volatile: VolatileState { commit_index: base, last_applied: base },
                ..NodeView::initial(
                    id,
                    peers,
                    RaftConfig { cluster_size: (peers.len() + 1) as usize, ..config },
                )
            },
            kv,
            pending_writes: Map::empty(),
            pending_reads: Seq::empty(),
            unsaved: false,
            held: Seq::empty(),
            metrics: Metrics::zero(),
        }
    }

    pub open spec fn with_raft(self, raft: NodeView) -> ActorView<R> {
        ActorView { raft, ..self }
    }

    /// The actor with one more message received.
    pub open spec fn message_counted(self) -> ActorView<R> {
        ActorView {
            metrics: Metrics {
                messages_received: crate::metrics::counted(self.metrics.messages_received, 1),
                ..self.metrics
            },
            ..self
        }
    }

    /// The actor with so many more messages sent.
    pub open spec fn messages_counted(self, count: int) -> ActorView<R> {
        ActorView {
            metrics: Metrics {
                messages_sent: crate::metrics::counted(self.metrics.messages_sent, count),
                ..self.metrics
            },
            ..self
        }
    }

    /// A request that reaches a node that is not the leader is turned away. A
    /// read is noted with the commit index of the moment, and starts a heartbeat
    /// round. A write is noted under the index that its entry gets.
    pub open spec fn handle_client(self, req: ClientRequest, reply: R) -> (
        ActorView<R>,
        ActionsView,
        Seq<(R, ResponseView)>,
    ) {
        if self.raft.role != Role::Leader {
            (
                self,
                ActionsView::none(),
                seq![(reply, redirection(req.id, self.raft.current_leader))],
            )
        } else {
            match req.operation {
                ClientOperation::Get { key } => {
                    let (raft, actions) = self.raft.tick();
                    let read = PendingRead {
                        key,
                        request_id: req.id,
                        read_index: self.raft.volatile.commit_index,
                        round: raft.leader_state->0.round,
                        reply,
                    };
                    (
                        ActorView { raft, pending_reads: self.pending_reads.push(read), ..self },
                        actions,
                        Seq::empty(),
                    )
                },
                _ => {
                    let (raft, actions) = self.raft.handle_client_request(req);
                    let index = (self.raft.log().last_index() + 1) as u64;
                    let write = PendingWrite {
                        request_id: req.id,
                        term: self.raft.term(),
                        reply,
                    };
                    (
                        ActorView {
                            raft,
                            pending_writes: self.pending_writes.insert(index, write),
                            ..self
                        },
                        actions,
                        Seq::empty(),
                    )
                },
            }
        }
    }

    /// The actor after a committed entry has been applied. The write that waits
    /// for this entry is answered; a write that waits for another entry with the
    /// same index is lost.
    pub open spec fn applied(self, entry: LogEntry) -> (ActorView<R>, Seq<(R, ResponseView)>) {
        let (kv, value) = crate::kv::applied(self.kv, entry.command);
        let replies = if self.pending_writes.contains_key(entry.index)
            && self.pending_writes[entry.index].term == entry.term {
            let write = self.pending_writes[entry.index];
            seq![(write.reply, success(write.request_id, value))]
        } else {
            Seq::empty()
        };
        (
            ActorView {
                raft: self.raft.with_applied(entry.index),
                kv,
                pending_writes: self.pending_writes.remove(entry.index),
                ..self
            },
            replies,
        )
    }

    /// The actor after committed entries have been applied, and the answers.
    pub open spec fn applied_all(self, entries: Seq<LogEntry>) -> (
        ActorView<R>,
        Seq<(R, ResponseView)>,
    )
        decreases entries.len(),
    {
        if entries.len() == 0 {
            (self, Seq::empty())
        } else {
            let (before, replies) = self.applied_all(entries.drop_last());
            let (after, more) = before.applied(entries.last());
            (after, replies + more)
        }
    }

    /// Whether the node may serve reads at all: it leads, and an entry of its own
    /// term is applied, and so all that was committed before it led.
    pub open spec fn serves_reads(self) -> bool {
        &&& self.raft.role == Role::Leader
        &&& self.raft.log().term_at(self.raft.volatile.last_applied as int) == self.raft.term()
    }

    /// Whether a pending read can be served: its index is applied, and a majority
    /// has confirmed the leader since the read came.
    pub open spec fn ready(self) -> spec_fn(PendingRead<R>) -> bool {
        |read: PendingRead<R>|
            self.raft.volatile.last_applied >= read.read_index && self.raft.confirmed_since(
                read.round,
            )
    }

    pub open spec fn waiting(self) -> spec_fn(PendingRead<R>) -> bool {
        |read: PendingRead<R>| !(self.ready())(read)
    }

    /// The answer to a read.
    pub open spec fn answer(self) -> spec_fn(PendingRead<R>) -> (R, ResponseView) {
        |read: PendingRead<R>|
            (read.reply, success(read.request_id, crate::kv::lookup(self.kv, read.key@)))
    }

    /// The reads that are ready are served, in the order of their arrival, by a
    /// leader that may serve reads. No other node serves them.
    pub open spec fn reads_drained(self) -> (ActorView<R>, Seq<(R, ResponseView)>) {
        if self.serves_reads() {
            (
                ActorView { pending_reads: self.pending_reads.filter(self.waiting()), ..self },
                self.pending_reads.filter(self.ready()).map_values(self.answer()),
            )
        } else {
            (self, Seq::empty())
        }
    }

    /// The actor with the durable state on disk.
    pub open spec fn saved(self) -> ActorView<R> {
        ActorView { unsaved: false, ..self }
    }

    /// The actor after committed entries have been applied, while the durable state
    /// is not on disk: the answers wait.
    pub open spec fn held_back(self, entries: Seq<LogEntry>) -> ActorView<R> {
        let (applied, writes) = self.applied_all(entries);
        ActorView { unsaved: true, held: self.held + writes, ..applied }
    }

    /// The actor after committed entries have been applied, and the answers: those
    /// that have waited, those to writes, and those to reads.
    pub open spec fn answered(self, entries: Seq<LogEntry>) -> (
        ActorView<R>,
        Seq<(R, ResponseView)>,
    ) {
        let (applied, writes) = self.applied_all(entries);
        let (drained, reads) = applied.reads_drained();
        (ActorView { held: Seq::empty(), ..drained }, self.held + writes + reads)
    }

    /// The actor after the state machine has been replaced by that of a snapshot:
    /// all that the snapshot covers is applied.
    pub open spec fn replaced(self, kv: Map<Seq<char>, Seq<char>>, index: u64) -> ActorView<R> {
        ActorView { raft: self.raft.with_applied(index), kv, ..self }
    }

    /// Whether the log has grown past the threshold and there is something to
    /// compact.
    pub open spec fn snapshot_due(self) -> bool {
        &&& self.raft.log().entries.len() > SNAPSHOT_THRESHOLD
        &&& self.raft.volatile.last_applied > self.raft.log().snapshot_index
    }

    /// The metrics of the moment.
    pub open spec fn measured(self) -> Metrics {
        Metrics {
            term: self.raft.term(),
            role: match self.raft.role {
                Role::Follower => 0,
                Role::Candidate => 1,
                Role::Leader => 2,
            },
            commit_index: self.raft.volatile.commit_index,
            last_applied: self.raft.volatile.last_applied,
            log_length: self.raft.log().entries.len() as u64,
            pending_writes: self.pending_writes.dom().len() as u64,
            pending_reads: self.pending_reads.len() as u64,
            ..self.metrics
        }
    }
}

// ── The actor ──────────────────────────────────────────────────────────────

/// The index and term that a snapshot covers.
pub open spec fn base_in(snapshot: Option<SnapshotFile>) -> Option<(u64, u64)> {
    match snapshot {
        Some(file) => Some((file.last_included_index, file.last_included_term)),
        None => None,
    }
}

/// The key-value pairs that a snapshot holds.
pub open spec fn kv_in(snapshot: Option<SnapshotFile>) -> Map<Seq<char>, Seq<char>> {
    match snapshot {
        Some(file) => crate::kv::map_of(crate::kv::texts(file.kv_data@)),
        None => Map::empty(),
    }
}

/// The durable state that a node starts with: what its state file stands for, on top
/// of its snapshot. A node that has stopped before it wrote its state for the first
/// time has at most a snapshot.
pub open spec fn durable_in(
    snapshot: Option<SnapshotFile>,
    stored: Option<StoredState>,
) -> PersistentView {
    match stored {
        Some(file) => crate::storage::restored_form(file@, base_in(snapshot)),
        None => {
            let (index, term) = crate::storage::base_of(base_in(snapshot));
            PersistentView { log: LogView::based_at(index, term), ..PersistentView::initial() }
        },
    }
}

impl<R> NodeActor<R> {
    /// The actor of a node that starts with what its files hold.
    pub fn new(
        id: NodeId,
        peers: Vec<NodeId>,
        config: RaftConfig,
        snapshot: Option<SnapshotFile>,
        stored: Option<StoredState>,
    ) -> (actor: Self)
        requires
            peers@.len() < usize::MAX,
            durable_in(snapshot, stored).log.wf(),
        ensures
            actor.raft.wf(),
            actor@ == ActorView::<R>::started(
                id,
                peers@,
                config,
                kv_in(snapshot),
                durable_in(snapshot, stored),
            ),
    {
        let (kv, snapshot_base): (KvStore, Option<(u64, u64)>) = match snapshot {
            Some(file) => (
                kv_from_pairs(file.kv_data),
                Some((file.last_included_index, file.last_included_term)),
            ),
            None => (KvStore::new(), None),
        };
        let config = RaftConfig {
            election_timeout_min_ms: config.election_timeout_min_ms,
            election_timeout_max_ms: config.election_timeout_max_ms,
            heartbeat_interval_ms: config.heartbeat_interval_ms,
            cluster_size: peers.len() + 1,
        };
        let mut raft = RaftNode::new(id, peers, config);
        raft.persistent = match (stored, snapshot_base) {
            (None, Some((index, term))) => PersistentState {
                current_term: 0,
                voted_for: None,
                log: RaftLog::new_with_snapshot(index, term),
            },
            (stored, _) => recovered(stored, snapshot_base),
        };
        // What the snapshot covers is not applied again.
        let base = raft.persistent.log.snapshot_last_index();
        raft.volatile = VolatileState { commit_index: base, last_applied: base };
        let actor = NodeActor {
            raft,
            kv,
            pending_writes: HashMap::new(),
            pending_reads: Vec::new(),
            unsaved: false,
            held: Vec::new(),
            metrics: Metrics::new(),
        };
        assert(contents_of(actor.held@) =~= Seq::empty());
        actor
    }

    /// The node's live metrics.
    pub fn metrics(&self) -> (metrics: Metrics)
        ensures
            metrics == self.metrics,
    {
        self.metrics
    }

    /// Handles a message from a peer. The answer to a client is none for a
    /// server, and nothing follows from it.
    pub fn handle_incoming(self, incoming: Incoming) -> (result: (Self, Option<Actions>))
        requires
            self.raft.wf(),
            crate::transitions::event_of(incoming.from, incoming.message@) matches Some(event)
                ==> self.raft@.admits(event),
        ensures
            result.0.raft.wf(),
            match crate::transitions::event_of(incoming.from, incoming.message@) {
                Some(event) => {
                    &&& result.0@ == self@.message_counted().with_raft(self@.raft.on(event).0)
                    &&& result.1 matches Some(actions) && actions@ == self@.raft.on(event).1
                },
                None => result.0@ == self@.message_counted() && result.1 is None,
            },
    {
        let from = incoming.from;
        let mut actor = self;
        actor.metrics.messages_received = actor.metrics.messages_received.wrapping_add(1);
        let raft = actor.raft;
        let (raft, actions) = match incoming.message {
            RaftMessage::VoteRequest(req) => raft.handle_vote_request(req),
            RaftMessage::VoteResponse(resp) => raft.handle_vote_response(from, resp),
            RaftMessage::AppendEntriesRequest(req) => raft.handle_append_entries(req),
            RaftMessage::AppendEntriesResponse(resp) => raft.handle_append_entries_response(
                from,
                resp,
            ),
            RaftMessage::InstallSnapshotRequest(req) => raft.handle_install_snapshot(req),
            RaftMessage::InstallSnapshotResponse(resp) => raft.handle_install_snapshot_response(
                from,
                resp,
            ),
            RaftMessage::ClientRequest(req) => raft.handle_client_request(req),
            RaftMessage::ClientResponse(_) => {
                actor.raft = raft;
                return (actor, None);
            },
        };
        actor.raft = raft;
        (actor, Some(actions))
    }

    /// Handles a request from a client.
    pub fn handle_client(self, req: ClientRequest, reply: R) -> (result: (
        Self,
        Actions,
        Vec<Reply<R>>,
    ))
        requires
            self.raft.wf(),
            self.raft@.admits(Event::ClientRequest(req)),
        ensures
            result.0.raft.wf(),
            (result.0@, result.1@, contents_of(result.2@)) == self@.handle_client(req, reply),
    {
        let ghost before = self@;
        let mut actor = self;
        let mut replies: Vec<Reply<R>> = Vec::new();
        if !actor.raft.is_leader() {
            let response = ClientResponse {
                id: req.id,
                result: ClientResult::NotLeader { leader_hint: actor.raft.current_leader },
            };
            replies.push((reply, response));
            assert(contents_of(replies@) =~= before.handle_client(req, reply).2);
            return (actor, Actions::default(), replies);
        }
        assert(contents_of(replies@) =~= Seq::empty());
        let is_read = match &req.operation {
            ClientOperation::Get { .. } => true,
            _ => false,
        };
        if is_read {
            let key = match req.operation {
                ClientOperation::Get { key } => key,
                ClientOperation::Put { key, .. } => key,
                ClientOperation::Delete { key } => key,
            };
            let read_index = actor.raft.volatile.commit_index;
            let (raft, actions) = actor.raft.tick();
            actor.raft = raft;
            let round: u64 = match &actor.raft.leader_state {
                Some(state) => state.round,
                None => 0,
            };
            assert(actor.raft@.leader_state is Some);
            let read = PendingRead { key, request_id: req.id, read_index, round, reply };
            actor.pending_reads.push(read);
            (actor, actions, replies)
        } else {
            let index = actor.raft.persistent.log.last_index() + 1;
            let write = PendingWrite {
                request_id: req.id,
                term: actor.raft.persistent.current_term,
                reply,
            };
            actor.pending_writes.insert(index, write);
            let (raft, actions) = actor.raft.handle_client_request(req);
            actor.raft = raft;
            (actor, actions, replies)
        }
    }

    /// Handles the election timer.
    pub fn handle_election_timeout(self) -> (result: (Self, Actions))
        requires
            self.raft.wf(),
            self.raft@.admits(Event::ElectionTimeout),
        ensures
            result.0.raft.wf(),
            result.0@ == self@.with_raft(self@.raft.election_timeout().0),
            result.1@ == self@.raft.election_timeout().1,
    {
        let mut actor = self;
        let (raft, actions) = actor.raft.election_timeout();
        actor.raft = raft;
        (actor, actions)
    }

    /// Handles the heartbeat timer, which concerns only the leader.
    pub fn handle_heartbeat(self) -> (result: (Self, Option<Actions>))
        requires
            self.raft.wf(),
            self.raft@.admits(Event::Tick),
        ensures
            result.0.raft.wf(),
            result.0@ == self@.with_raft(self@.raft.tick().0),
            result.1 is Some <==> self@.raft.role == Role::Leader,
            result.1 matches Some(actions) ==> actions@ == self@.raft.tick().1,
    {
        if !self.raft.is_leader() {
            return (self, None);
        }
        let mut actor = self;
        let (raft, actions) = actor.raft.tick();
        actor.raft = raft;
        (actor, Some(actions))
    }

    // ── State machine ──────────────────────────────────────────────────────

    /// Applies newly committed entries, answers the writes that wait for them,
    /// and serves the reads that can be served by then. Answers that were held back
    /// go out with them.
    pub fn apply_committed(self, entries: &Vec<LogEntry>) -> (result: (Self, Vec<Reply<R>>))
        requires
            self.raft.wf(),
        ensures
            result.0.raft.wf(),
            (result.0@, contents_of(result.1@)) == self@.answered(entries@),
    {
        let ghost before = self@;
        let ghost (applied, writes) = before.applied_all(entries@);
        let (actor, written) = self.apply_all(entries);
        proof {
            applied_all_effect(before, entries@);
        }
        let (actor, reads) = actor.drain_pending_reads();
        let mut actor = actor;
        let mut written = written;
        let mut reads = reads;
        let mut replies = actor.held;
        actor.held = Vec::new();
        assert(contents_of(actor.held@) =~= Seq::empty());
        replies.append(&mut written);
        assert(contents_of(replies@) =~= before.held + writes);
        replies.append(&mut reads);
        assert(contents_of(replies@) =~= before.held + writes + applied.reads_drained().1);
        (actor, replies)
    }

    /// Applies newly committed entries while the durable state is not on disk. The
    /// answers are held back, and no read is served.
    pub fn hold_back(self, entries: &Vec<LogEntry>) -> (actor: Self)
        requires
            self.raft.wf(),
        ensures
            actor.raft.wf(),
            actor@ == self@.held_back(entries@),
    {
        let ghost before = self@;
        let ghost writes = before.applied_all(entries@).1;
        let (actor, written) = self.apply_all(entries);
        proof {
            applied_all_effect(before, entries@);
        }
        let mut actor = actor;
        let mut written = written;
        let ghost held = actor.held@;
        actor.held.append(&mut written);
        assert(contents_of(actor.held@) =~= contents_of(held) + writes);
        actor.unsaved = true;
        actor
    }

    /// Applies committed entries one after the other, and answers the writes that
    /// wait for them.
    fn apply_all(self, entries: &Vec<LogEntry>) -> (result: (Self, Vec<Reply<R>>))
        requires
            self.raft.wf(),
        ensures
            result.0.raft.wf(),
            (result.0@, contents_of(result.1@)) == self@.applied_all(entries@),
    {
        let ghost before = self@;
        let mut actor = self;
        let mut replies: Vec<Reply<R>> = Vec::new();
        let mut i: usize = 0;
        assert(contents_of(replies@) =~= Seq::empty());
        assert(entries@.take(0) =~= Seq::empty());
        while i < entries.len()
            invariant
                i <= entries@.len(),
                actor.raft.wf(),
                (actor@, contents_of(replies@)) == before.applied_all(entries@.take(i as int)),
            decreases entries@.len() - i,
        {
            let ghost answered = contents_of(replies@);
            let ghost (expected, more) = actor@.applied(entries@[i as int]);
            let (next, reply) = actor.apply_entry(&entries[i]);
            actor = next;
            assert(actor@ == expected);
            if let Some(reply) = reply {
                replies.push(reply);
                assert(contents_of(replies@) =~= answered + more);
            } else {
                assert(contents_of(replies@) =~= answered + more);
            }
            assert(entries@.take(i + 1).drop_last() =~= entries@.take(i as int));
            assert(entries@.take(i + 1).last() == entries@[i as int]);
            i = i + 1;
        }
        assert(entries@.take(entries@.len() as int) =~= entries@);
        (actor, replies)
    }

    /// Applies one committed entry.
    fn apply_entry(self, entry: &LogEntry) -> (result: (Self, Option<Reply<R>>))
        ensures
            self.raft.wf() ==> result.0.raft.wf(),
            result.0@ == self@.applied(*entry).0,
            match result.1 {
                Some(reply) => self@.applied(*entry).1 == seq![(reply.0, reply.1@)],
                None => self@.applied(*entry).1 == Seq::<(R, ResponseView)>::empty(),
            },
    {
        let ghost before = self@;
        let mut actor = self;
        let (kv, value) = actor.kv.apply(&entry.command);
        actor.kv = kv;
        actor.raft.volatile.last_applied = entry.index;
        let reply = match actor.pending_writes.remove(&entry.index) {
            Some(write) => {
                if write.term == entry.term {
                    let response = ClientResponse {
                        id: write.request_id,
                        result: ClientResult::Success(value),
                    };
                    Some((write.reply, response))
                } else {
                    // Another leader's entry took the place of this write's.
                    None
                }
            },
            None => None,
        };
        assert(actor@.pending_writes =~= before.pending_writes.remove(entry.index));
        (actor, reply)
    }

    /// Serves the pending reads whose index is applied and for which a majority
    /// has confirmed this node as the leader, if the node may serve reads.
    pub fn drain_pending_reads(self) -> (result: (Self, Vec<Reply<R>>))
        requires
            self.raft.wf(),
        ensures
            result.0.raft.wf(),
            (result.0@, contents_of(result.1@)) == self@.reads_drained(),
    {
        let ghost before = self@;
        let mut actor = self;
        let mut replies: Vec<Reply<R>> = Vec::new();
        let last_applied = actor.raft.volatile.last_applied;
        if !actor.raft.is_leader() || actor.raft.persistent.log.term_at(last_applied)
            != actor.raft.persistent.current_term {
            assert(contents_of(replies@) =~= Seq::empty());
            return (actor, replies);
        }
        let reads = actor.pending_reads;
        let mut waiting: Vec<PendingRead<R>> = Vec::new();
        let ghost all = reads@;
        proof {
            assert(all.take(0).filter(before.waiting()) =~= Seq::empty()) by {
                reveal(Seq::filter);
            }
            assert(all.take(0).filter(before.ready()) =~= Seq::empty()) by {
                reveal(Seq::filter);
            }
        }
        for read in it: reads
            invariant
                it.seq() == all,
                before.raft == actor.raft@,
                before.raft.volatile.last_applied == last_applied,
                before.kv == actor.kv@,
                waiting@ == all.take(it.index()).filter(before.waiting()),
                contents_of(replies@) =~= all.take(it.index()).filter(before.ready()).map_values(
                    before.answer(),
                ),
        {
            let ghost i = it.index();
            let ghost answered = contents_of(replies@);
            proof {
                assert(all.take(i + 1) =~= all.take(i).push(all[i]));
                Seq::lemma_filter_push(all.take(i), all[i], before.waiting());
                Seq::lemma_filter_push(all.take(i), all[i], before.ready());
            }
            if last_applied >= read.read_index && actor.raft.is_confirmed_since(read.round) {
                let value: Option<String> = match actor.kv.get(read.key.as_str()) {
                    Some(text) => Some(text.to_owned()),
                    None => None,
                };
                let response = ClientResponse {
                    id: read.request_id,
                    result: ClientResult::Success(value),
                };
                replies.push((read.reply, response));
                assert(contents_of(replies@) =~= answered.push((before.answer())(all[i])));
                assert(all.take(i).filter(before.ready()).push(all[i]).map_values(before.answer())
                    =~= all.take(i).filter(before.ready()).map_values(before.answer()).push(
                    (before.answer())(all[i]),
                ));
            } else {
                waiting.push(read);
            }
        }
        assert(all.take(all.len() as int) =~= all);
        actor.pending_reads = waiting;
        (actor, replies)
    }

    // ── Snapshots ──────────────────────────────────────────────────────────

    /// Replaces the state machine by the one that a snapshot from the leader
    /// holds, which is on disk. All that the snapshot covers is applied.
    pub fn install(self, kv_data: Vec<(String, String)>, last_included_index: u64) -> (actor: Self)
        ensures
            self.raft.wf() ==> actor.raft.wf(),
            actor@ == self@.replaced(
                crate::kv::map_of(crate::kv::texts(kv_data@)),
                last_included_index,
            ),
    {
        let mut actor = self;
        actor.kv = kv_from_pairs(kv_data);
        actor.raft.volatile.last_applied = last_included_index;
        actor
    }

    /// The message that brings a snapshot to a peer. `data` is the snapshot in
    /// its serialised form.
    pub fn snapshot_message(
        &self,
        last_included_index: u64,
        last_included_term: u64,
        data: Vec<u8>,
    ) -> (message: RaftMessage)
        ensures
            message@ == MessageView::InstallSnapshotRequest(
                InstallSnapshotView {
                    term: self.raft@.term(),
                    leader_id: self.raft.id,
                    last_included_index,
                    last_included_term,
                    data: data@,
                },
            ),
    {
        RaftMessage::InstallSnapshotRequest(
            InstallSnapshotRequest {
                term: self.raft.persistent.current_term,
                leader_id: self.raft.id,
                last_included_index,
                last_included_term,
                data,
            },
        )
    }

    /// The snapshot to be written to disk, if the log has grown past the
    /// threshold: the state machine and the last entry applied to it.
    pub fn snapshot_due(&self) -> (snapshot: Option<SnapshotFile>)
        requires
            self.raft.wf(),
        ensures
            snapshot is Some <==> self@.snapshot_due(),
            snapshot matches Some(file) ==> {
                &&& file.last_included_index == self.raft.volatile.last_applied
                &&& file.last_included_term == self@.raft.log().term_at(
                    self.raft.volatile.last_applied as int,
                )
                &&& crate::kv::map_of(crate::kv::texts(file.kv_data@)) == self@.kv
                &&& crate::kv::ascending(crate::kv::texts(file.kv_data@))
            },
    {
        let last_applied = self.raft.volatile.last_applied;
        if self.raft.persistent.log.len() > SNAPSHOT_THRESHOLD && last_applied
            > self.raft.persistent.log.snapshot_last_index() {
            Some(
                SnapshotFile {
                    last_included_index: last_applied,
                    last_included_term: self.raft.persistent.log.term_at(last_applied),
                    kv_data: self.kv.clone().into_pairs(),
                },
            )
        } else {
            None
        }
    }

    /// Compacts the log once a snapshot up to `index` is on disk.
    pub fn snapshot_taken(self, index: u64) -> (actor: Self)
        requires
            self.raft.wf(),
        ensures
            actor.raft.wf(),
            actor@ == self@.with_raft(self@.raft.compact_log(index)),
    {
        let mut actor = self;
        actor.raft = actor.raft.compact_log(index);
        actor
    }

    /// Brings the metrics up to date.
    pub fn update_metrics(self) -> (actor: Self)
        ensures
            self.raft.wf() ==> actor.raft.wf(),
            actor@ == (ActorView { metrics: self@.measured(), ..self@ }),
    {
        let mut actor = self;
        actor.metrics.term = actor.raft.persistent.current_term;
        actor.metrics.role = match actor.raft.role {
            Role::Follower => 0,
            Role::Candidate => 1,
            Role::Leader => 2,
        };
        actor.metrics.commit_index = actor.raft.volatile.commit_index;
        actor.metrics.last_applied = actor.raft.volatile.last_applied;
        actor.metrics.log_length = actor.raft.persistent.log.len() as u64;
        actor.metrics.pending_writes = actor.pending_writes.len() as u64;
        actor.metrics.pending_reads = actor.pending_reads.len() as u64;
        actor
    }
}

// ── Laws ───────────────────────────────────────────────────────────────────

/// A read is answered only by a leader that a majority has confirmed since the read
/// came, and only once all that the leader knew to be committed then, and an entry of
/// its own term, is applied.
pub proof fn reads_wait<R>(actor: ActorView<R>, i: int)
    requires
        0 <= i < actor.reads_drained().1.len(),
    ensures
        actor.serves_reads(),
        exists|read: PendingRead<R>|
            {
                &&& actor.pending_reads.contains(read)
                &&& read.read_index <= actor.raft.volatile.last_applied
                &&& actor.raft.confirmed_since(read.round)
                &&& actor.reads_drained().1[i] == (
                    read.reply,
                    success(read.request_id, #[trigger] crate::kv::lookup(actor.kv, read.key@)),
                )
            },
{
    let ready = actor.pending_reads.filter(actor.ready());
    let read = ready[i];
    assert(ready.contains(read));
    actor.pending_reads.lemma_filter_contains_rev(actor.ready(), read);
    actor.pending_reads.lemma_filter_pred(actor.ready(), i);
    assert(actor.reads_drained().1[i] == (
        read.reply,
        success(read.request_id, crate::kv::lookup(actor.kv, read.key@)),
    ));
}

/// No read is lost or answered twice: it either gets its answer or waits on.
pub proof fn reads_are_kept_or_answered<R>(actor: ActorView<R>)
    ensures
        actor.reads_drained().0.pending_reads.len() + actor.reads_drained().1.len()
            == actor.pending_reads.len(),
        forall|read: PendingRead<R>| #[trigger]
            actor.reads_drained().0.pending_reads.contains(read) ==> actor.pending_reads.contains(
                read,
            ),
{
    if actor.serves_reads() {
        halves_make_the_whole(actor, actor.pending_reads);
        assert forall|read: PendingRead<R>| #[trigger]
            actor.reads_drained().0.pending_reads.contains(
                read,
            ) implies actor.pending_reads.contains(read) by {
            actor.pending_reads.lemma_filter_contains_rev(actor.waiting(), read);
        }
    }
}

proof fn halves_make_the_whole<R>(actor: ActorView<R>, reads: Seq<PendingRead<R>>)
    ensures
        reads.filter(actor.ready()).len() + reads.filter(actor.waiting()).len() == reads.len(),
    decreases reads.len(),
{
    reveal(Seq::filter);
    if reads.len() > 0 {
        halves_make_the_whole(actor, reads.drop_last());
    }
}

/// A leader with peers does not serve a read out of the state that it has when
/// the read comes: it waits for the answers to a heartbeat round that starts
/// with the read.
pub proof fn read_starts_a_round<R>(actor: ActorView<R>, id: u64, key: String, reply: R)
    requires
        actor.raft.wf(),
        actor.raft.role == Role::Leader,
        actor.raft.peers.len() > 0,
        actor.raft.config.cluster_size > 1,
        actor.raft.has_rounds_left(),
    ensures
        ({
            let req = ClientRequest { id, operation: ClientOperation::Get { key } };
            let (after, _, replies) = actor.handle_client(req, reply);
            let read = after.pending_reads.last();
            &&& replies.len() == 0
            &&& read.read_index == actor.raft.volatile.commit_index
            &&& read.round == actor.raft.leader_state->0.round + 1
            &&& !after.raft.confirmed_since(read.round)
            &&& !(after.ready())(read)
        }),
{
    let started = actor.raft.round_started();
    let state = started.leader_state->0;
    assert(state.acknowledging(started.id, state.round as int) =~= Set::empty());
}

/// A write is acknowledged only when its own entry is applied: the answer goes
/// to the request that appended an entry with the same index in the same term.
pub proof fn only_applied_writes_are_acknowledged<R>(actor: ActorView<R>, entry: LogEntry, i: int)
    requires
        0 <= i < actor.applied(entry).1.len(),
    ensures
        actor.pending_writes.contains_key(entry.index),
        actor.pending_writes[entry.index].term == entry.term,
        actor.applied(entry).1[i] == (
            actor.pending_writes[entry.index].reply,
            success(
                actor.pending_writes[entry.index].request_id,
                crate::kv::applied(actor.kv, entry.command).1,
            ),
        ),
        !actor.applied(entry).0.pending_writes.contains_key(entry.index),
{
}

/// The write that a leader takes in waits for the entry that the leader appends
/// for it, and for no other: it is noted under that entry's index and term.
pub proof fn writes_wait_for_their_entry<R>(actor: ActorView<R>, req: ClientRequest, reply: R)
    requires
        actor.raft.wf(),
        actor.raft.role == Role::Leader,
        actor.raft.admits(Event::ClientRequest(req)),
        !(req.operation is Get),
    ensures
        ({
            let (after, _, _) = actor.handle_client(req, reply);
            let entry = after.raft.log().entries.last();
            &&& after.raft.log().entries.len() == actor.raft.log().entries.len() + 1
            &&& after.pending_writes[entry.index] == (PendingWrite {
                request_id: req.id,
                term: entry.term,
                reply,
            })
            &&& match req.operation {
                ClientOperation::Put { key, value } => entry.command == (
                crate::message::Command::Put { key, value }),
                ClientOperation::Delete { key } => entry.command == (
                crate::message::Command::Delete { key }),
                ClientOperation::Get { .. } => false,
            }
        }),
{
}

/// A read gives back what was written: once a write is applied, a confirmed
/// leader answers a read of its key with the value written, until another
/// command on that key is applied.
pub proof fn write_is_read_back<R>(
    actor: ActorView<R>,
    write: LogEntry,
    key: String,
    value: String,
    more: Seq<LogEntry>,
    read: PendingRead<R>,
)
    requires
        write.command == (crate::message::Command::Put { key, value }),
        read.key@ == key@,
        forall|i: int|
            0 <= i < more.len() ==> match (#[trigger] more[i]).command {
                crate::message::Command::Put { key: other, .. } => other@ != key@,
                crate::message::Command::Delete { key: other } => other@ != key@,
                crate::message::Command::Noop => true,
            },
    ensures
        (actor.applied(write).0.applied_all(more).0.answer())(read) == (
            read.reply,
            success(read.request_id, Some(value@)),
        ),
    decreases more.len(),
{
    let written = actor.applied(write).0;
    if more.len() > 0 {
        let rest = more.drop_last();
        assert forall|i: int| 0 <= i < rest.len() implies match (#[trigger] rest[i]).command {
            crate::message::Command::Put { key: other, .. } => other@ != key@,
            crate::message::Command::Delete { key: other } => other@ != key@,
            crate::message::Command::Noop => true,
        } by {
            assert(rest[i] == more[i]);
        }
        write_is_read_back(actor, write, key, value, rest, read);
        assert(more.last() == more[more.len() - 1]);
        let before = written.applied_all(rest).0;
        crate::kv::other_keys_are_untouched(before.kv, more.last().command, key@);
        assert((before.answer())(read).1 == success(read.request_id, Some(value@)));
        assert(written.applied_all(more).0.kv == crate::kv::applied(
            before.kv,
            more.last().command,
        ).0);
    }
}

/// What applying entries makes of the node, and what it leaves alone.
pub(crate) proof fn applied_all_effect<R>(actor: ActorView<R>, entries: Seq<LogEntry>)
    ensures
        ({
            let after = actor.applied_all(entries).0;
            &&& after.raft == actor.raft.with_applied(
                if entries.len() == 0 {
                    actor.raft.volatile.last_applied
                } else {
                    entries.last().index
                },
            )
            &&& after.pending_reads == actor.pending_reads
            &&& after.held == actor.held
            &&& after.unsaved == actor.unsaved
        }),
    decreases entries.len(),
{
    if entries.len() > 0 {
        applied_all_effect(actor, entries.drop_last());
    } else {
        assert(actor.raft.with_applied(actor.raft.volatile.last_applied) == actor.raft);
    }
}

/// A node applies only what is committed: an event and the entries that it hands out
/// do not take the last applied entry beyond the commit index. So what a snapshot
/// covers, and what a node compacts, is committed. A node that has applied all that it
/// has committed does so again, or installs a snapshot of just that.
pub proof fn only_committed_entries_are_applied<R>(actor: ActorView<R>, event: Event)
    requires
        actor.raft.wf(),
        actor.raft.admits(event),
        actor.raft.volatile.last_applied <= actor.raft.volatile.commit_index,
        actor.raft.log().snapshot_index <= actor.raft.volatile.commit_index
            <= actor.raft.log().last_index(),
    ensures
        ({
            let (raft, actions) = actor.raft.on(event);
            let after = actor.with_raft(raft).applied_all(actions.entries_to_apply).0;
            &&& after.raft.volatile.last_applied <= after.raft.volatile.commit_index
            &&& actions.install_snapshot matches Some(req) ==> req.last_included_index
                == after.raft.volatile.commit_index
            &&& actor.raft.volatile.last_applied == actor.raft.volatile.commit_index
                && actions.install_snapshot is None ==> after.raft.volatile.last_applied
                == after.raft.volatile.commit_index
        }),
{
    let (raft, actions) = actor.raft.on(event);
    crate::laws::commit_never_falls(actor.raft, event);
    crate::laws::newly_committed_entries_are_applied(actor.raft, event);
    applied_all_effect(actor.with_raft(raft), actions.entries_to_apply);
    assert(raft.volatile.last_applied == actor.raft.volatile.last_applied) by {
        last_applied_stays(actor.raft, event);
    }
    if event is InstallSnapshot {
        snapshots_hand_out_nothing(actor.raft, event->InstallSnapshot_0);
    } else {
        no_snapshot_but_from_a_leader(actor.raft, event);
        crate::laws::applied_entries_are_consecutive(actor.raft, event);
        let entries = actions.entries_to_apply;
        if entries.len() > 0 {
            assert(entries.last() == entries[entries.len() - 1]);
        }
    }
}

#[verifier::spinoff_prover]
proof fn last_applied_stays(node: NodeView, event: Event)
    ensures
        node.on(event).0.volatile.last_applied == node.volatile.last_applied,
{
}

#[verifier::spinoff_prover]
pub(crate) proof fn no_snapshot_but_from_a_leader(node: NodeView, event: Event)
    requires
        !(event is InstallSnapshot),
    ensures
        node.on(event).1.install_snapshot is None,
{
}

#[verifier::spinoff_prover]
proof fn snapshots_hand_out_nothing(node: NodeView, req: InstallSnapshotView)
    ensures
        node.handle_install_snapshot(req).1.entries_to_apply.len() == 0,
        node.handle_install_snapshot(req).1.install_snapshot is Some ==> {
            &&& node.handle_install_snapshot(req).1.install_snapshot == Some(req)
            &&& node.handle_install_snapshot(req).0.volatile.commit_index
                == req.last_included_index
        },
{
}

/// The store is what the log says: where it holds the outcome of the first entries of
/// a log, it holds that of more of them once the entries in between are applied.
pub proof fn store_follows_the_log<R>(
    actor: ActorView<R>,
    log: Seq<LogEntry>,
    from: int,
    to: int,
)
    requires
        0 <= from <= to <= log.len(),
        actor.kv == crate::safety::replayed(log.take(from)),
    ensures
        actor.applied_all(log.subrange(from, to)).0.kv == crate::safety::replayed(log.take(to)),
    decreases to - from,
{
    let entries = log.subrange(from, to);
    if from < to {
        store_follows_the_log(actor, log, from, to - 1);
        assert(entries.drop_last() =~= log.subrange(from, to - 1));
        assert(log.take(to).drop_last() =~= log.take(to - 1));
        assert(entries.last() == log.take(to).last());
    } else {
        assert(entries =~= Seq::empty());
    }
}

} // verus!
