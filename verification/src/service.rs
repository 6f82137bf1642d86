//! What peers and clients get from a node actor.

use vstd::prelude::*;

use crate::actor::{ActorView, NodeActor, PendingRead, PendingWrite, Reply};
use crate::config::RaftConfig;
use crate::kv::KvStore;
use crate::message::{
    ClientOperation, ClientRequest, Command, LogEntry, MessageView, NodeId, RaftMessage,
    ResponseView, ResultView,
};
use crate::metrics::Metrics;
use crate::node::RaftNode;
use crate::state::{Actions, ActionsView, Role};
use crate::storage::{SnapshotFile, StoredState};
use crate::transport::Incoming;

verus! {

/// A key-value store.
pub type Store = Map<Seq<char>, Seq<char>>;

/// The answer that brings a value.
pub open spec fn success_with(id: u64, value: Option<Seq<char>>) -> ResponseView {
    ResponseView { id, result: ResultView::Success(value) }
}

/// Whether nothing but the node has changed.
pub open spec fn only_the_node<R>(old: ActorView<R>, after: ActorView<R>) -> bool {
    after == ActorView { raft: after.raft, ..old }
}

// ── Peers ──────────────────────────────────────────────────────────────────

/// Whether this is what the node makes of a message.
pub open spec fn is_handled(
    node: RaftNode,
    from: NodeId,
    message: RaftMessage,
    outcome: (RaftNode, Actions),
) -> bool {
    match message {
        RaftMessage::VoteRequest(req) => call_ensures(
            RaftNode::handle_vote_request,
            (node, req),
            outcome,
        ),
        RaftMessage::VoteResponse(resp) => call_ensures(
            RaftNode::handle_vote_response,
            (node, from, resp),
            outcome,
        ),
        RaftMessage::AppendEntriesRequest(req) => call_ensures(
            RaftNode::handle_append_entries,
            (node, req),
            outcome,
        ),
        RaftMessage::AppendEntriesResponse(resp) => call_ensures(
            RaftNode::handle_append_entries_response,
            (node, from, resp),
            outcome,
        ),
        RaftMessage::InstallSnapshotRequest(req) => call_ensures(
            RaftNode::handle_install_snapshot,
            (node, req),
            outcome,
        ),
        RaftMessage::InstallSnapshotResponse(resp) => call_ensures(
            RaftNode::handle_install_snapshot_response,
            (node, from, resp),
            outcome,
        ),
        RaftMessage::ClientRequest(req) => call_ensures(
            RaftNode::handle_client_request,
            (node, req),
            outcome,
        ),
        RaftMessage::ClientResponse(_) => false,
    }
}

/// Every message of a peer is handled by the node as what it is and as coming from
/// that peer, and it is counted. Nothing else of the actor changes.
pub proof fn messages_reach_the_node<R>(
    actor: NodeActor<R>,
    incoming: Incoming,
    outcome: (RaftNode, Actions),
    result: (NodeActor<R>, Option<Actions>),
)
    requires
        is_handled(actor.raft, incoming.from, incoming.message, outcome),
        call_ensures(NodeActor::<R>::handle_incoming, (actor, incoming), result),
    ensures
        result.0@.raft == outcome.0@,
        result.1 matches Some(actions) && actions@ == outcome.1@,
        result.0@ == (ActorView {
            raft: result.0@.raft,
            metrics: Metrics {
                messages_received: result.0@.metrics.messages_received,
                ..actor@.metrics
            },
            ..actor@
        }),
        actor@.metrics.messages_received < u64::MAX ==> result.0@.metrics.messages_received
            == actor@.metrics.messages_received + 1,
{
}

/// Answers to clients mean nothing to a server.
pub proof fn stray_answers_mean_nothing<R>(
    actor: NodeActor<R>,
    incoming: Incoming,
    result: (NodeActor<R>, Option<Actions>),
)
    requires
        incoming.message is ClientResponse,
        call_ensures(NodeActor::<R>::handle_incoming, (actor, incoming), result),
    ensures
        result.1 is None,
        result.0@.raft == actor@.raft,
        result.0@.kv == actor@.kv,
        result.0@.pending_writes == actor@.pending_writes,
        result.0@.pending_reads == actor@.pending_reads,
{
}

/// The timers of an actor are its node's: the election timer fires at the node, and the
/// heartbeat timer at a leader.
pub proof fn timers_reach_the_node<R>(
    actor: NodeActor<R>,
    timed_out: (RaftNode, Actions),
    ticked: (RaftNode, Actions),
    election: (NodeActor<R>, Actions),
    heartbeat: (NodeActor<R>, Option<Actions>),
)
    requires
        call_ensures(RaftNode::election_timeout, (actor.raft,), timed_out),
        call_ensures(RaftNode::tick, (actor.raft,), ticked),
        call_ensures(NodeActor::<R>::handle_election_timeout, (actor,), election),
        call_ensures(NodeActor::<R>::handle_heartbeat, (actor,), heartbeat),
    ensures
        election.0@.raft == timed_out.0@,
        election.1@ == timed_out.1@,
        only_the_node(actor@, election.0@),
        heartbeat.0@.raft == ticked.0@,
        only_the_node(actor@, heartbeat.0@),
        heartbeat.1 is Some <==> actor@.raft.role == Role::Leader,
        heartbeat.1 matches Some(actions) ==> actions@ == ticked.1@,
{
}

// ── Clients ────────────────────────────────────────────────────────────────

/// A node that does not lead turns a client away at once, with its request's id and the
/// leader that it knows of. Nothing changes.
pub proof fn followers_redirect<R>(
    actor: NodeActor<R>,
    req: ClientRequest,
    reply: R,
    result: (NodeActor<R>, Actions, Vec<Reply<R>>),
)
    requires
        actor@.raft.role != Role::Leader,
        call_ensures(NodeActor::<R>::handle_client, (actor, req, reply), result),
    ensures
        result.0@ == actor@,
        result.1@ == ActionsView::none(),
        result.2@.len() == 1,
        result.2@[0].0 == reply,
        result.2@[0].1@ == (ResponseView {
            id: req.id,
            result: ResultView::NotLeader { leader_hint: actor@.raft.current_leader },
        }),
{
    let replies = crate::actor::contents_of(result.2@);
    assert(replies.len() == 1);
    assert(replies[0] == (result.2@[0].0, result.2@[0].1@));
}

/// A leader answers no client at once. A read waits, as the last one, with its own key
/// and id, for what is committed by then and for a heartbeat round that starts with
/// it. A write waits for the entry that the node appends for it, at that entry's index
/// and in its term.
pub proof fn leaders_let_clients_wait<R>(
    actor: NodeActor<R>,
    req: ClientRequest,
    reply: R,
    ticked: (RaftNode, Actions),
    taken_in: (RaftNode, Actions),
    result: (NodeActor<R>, Actions, Vec<Reply<R>>),
)
    requires
        actor.raft.wf(),
        actor@.raft.role == Role::Leader,
        actor@.raft.has_rounds_left(),
        actor@.raft.log().last_index() < u64::MAX,
        call_ensures(RaftNode::tick, (actor.raft,), ticked),
        call_ensures(RaftNode::handle_client_request, (actor.raft, req), taken_in),
        call_ensures(NodeActor::<R>::handle_client, (actor, req, reply), result),
    ensures
        ({
            let old = actor@;
            let after = result.0@;
            let index = (old.raft.log().last_index() + 1) as u64;
            &&& result.2@.len() == 0
            &&& match req.operation {
                ClientOperation::Get { key } => {
                    &&& after.raft == ticked.0@
                    &&& result.1@ == ticked.1@
                    &&& after.pending_writes == old.pending_writes
                    &&& after.pending_reads == old.pending_reads.push(
                        PendingRead {
                            key,
                            request_id: req.id,
                            read_index: old.raft.volatile.commit_index,
                            round: (old.raft.leader_state->0.round + 1) as u64,
                            reply,
                        },
                    )
                },
                _ => {
                    &&& after.raft == taken_in.0@
                    &&& result.1@ == taken_in.1@
                    &&& after.pending_reads == old.pending_reads
                    &&& after.pending_writes == old.pending_writes.insert(
                        index,
                        PendingWrite {
                            request_id: req.id,
                            term: old.raft.persistent.current_term,
                            reply,
                        },
                    )
                },
            }
            &&& after.kv == old.kv
            &&& after.held == old.held
            &&& after.unsaved == old.unsaved
            &&& after.metrics == old.metrics
        }),
{
    let replies = crate::actor::contents_of(result.2@);
    assert(replies.len() == result.2@.len());
    let started = actor@.raft.round_started();
    assert(started.leader_state is Some);
}

// ── Entries ────────────────────────────────────────────────────────────────

/// The store after the first entries.
pub open spec fn store_with(store: Store, entries: Seq<LogEntry>, count: int) -> Store {
    crate::replicas::replayed_on(store, entries.take(count))
}

/// Whether a write waits for an entry: it is noted under the index and the term of the
/// entry.
pub open spec fn is_awaited<R>(actor: ActorView<R>, entry: LogEntry) -> bool {
    actor.pending_writes.contains_key(entry.index) && actor.pending_writes[entry.index].term
        == entry.term
}

/// Whether the entries are numbered without a gap.
pub open spec fn numbered(entries: Seq<LogEntry>) -> bool {
    forall|i: int|
        0 <= i < entries.len() ==> (#[trigger] entries[i]).index == entries[0].index + i
}

/// The answers to the writes that wait for the first entries: each says what the key
/// had before.
pub open spec fn answers_to<R>(actor: ActorView<R>, entries: Seq<LogEntry>, count: int) -> Seq<
    (R, ResponseView),
>
    decreases count,
{
    if count <= 0 {
        Seq::empty()
    } else {
        let entry = entries[count - 1];
        let earlier = answers_to(actor, entries, count - 1);
        if is_awaited(actor, entry) {
            let write = actor.pending_writes[entry.index];
            let before = store_with(actor.kv, entries, count - 1);
            earlier.push(
                (
                    write.reply,
                    success_with(
                        write.request_id,
                        match entry.command {
                            Command::Put { key, value } => if before.contains_key(
                                key@,
                            ) {
                                Some(before[key@])
                            } else {
                                None
                            },
                            Command::Delete { key } => if before.contains_key(
                                key@,
                            ) {
                                Some(before[key@])
                            } else {
                                None
                            },
                            Command::Noop => None,
                        },
                    ),
                ),
            )
        } else {
            earlier
        }
    }
}

/// What applying the first entries makes of an actor.
proof fn applied_so_far<R>(actor: ActorView<R>, entries: Seq<LogEntry>, count: int)
    requires
        numbered(entries),
        0 <= count <= entries.len(),
    ensures
        ({
            let (after, replies) = actor.applied_all(entries.take(count));
            &&& replies == answers_to(actor, entries, count)
            &&& after.kv == store_with(actor.kv, entries, count)
            &&& after.pending_reads == actor.pending_reads
            &&& after.held == actor.held
            &&& after.unsaved == actor.unsaved
            &&& after.metrics == actor.metrics
            &&& after.raft == actor.raft.with_applied(
                if count == 0 {
                    actor.raft.volatile.last_applied
                } else {
                    entries[count - 1].index
                },
            )
            &&& forall|w: u64| #[trigger]
                after.pending_writes.contains_key(w) <==> actor.pending_writes.contains_key(w)
                    && !(exists|i: int| 0 <= i < count && (#[trigger] entries[i]).index == w)
            &&& forall|w: u64| #[trigger]
                after.pending_writes.contains_key(w) ==> after.pending_writes[w]
                    == actor.pending_writes[w]
        }),
    decreases count,
{
    let some = entries.take(count);
    if count > 0 {
        applied_so_far(actor, entries, count - 1);
        assert(some.drop_last() =~= entries.take(count - 1));
        let entry = entries[count - 1];
        assert(some.last() == entry);
        let (before, earlier) = actor.applied_all(entries.take(count - 1));
        let (after, replies) = actor.applied_all(some);
        assert(before.pending_writes.contains_key(entry.index)
            == actor.pending_writes.contains_key(entry.index)) by {
            assert forall|i: int| 0 <= i < count - 1 implies (#[trigger] entries[i]).index
                != entry.index by {
                assert(entries[count - 1].index == entries[0].index + (count - 1));
            }
        }
        assert(replies =~= answers_to(actor, entries, count));
        assert forall|w: u64| #[trigger] after.pending_writes.contains_key(w) <==>
            actor.pending_writes.contains_key(w) && !(exists|i: int|
            0 <= i < count && (#[trigger] entries[i]).index == w) by {
            if w == entry.index {
                assert(entries[count - 1].index == w);
            }
        }
    } else {
        assert(some =~= Seq::empty());
        assert(actor.applied_all(some) == (actor, Seq::<(R, ResponseView)>::empty()));
        assert(actor.raft.with_applied(actor.raft.volatile.last_applied) == actor.raft);
    }
}

/// Committed entries are applied to the store one after the other. The writes that
/// wait for them are answered in that order, after the answers that were held back and
/// before the reads that can be served then, and wait no longer.
pub proof fn committed_entries_are_applied<R>(
    actor: NodeActor<R>,
    entries: &Vec<LogEntry>,
    result: (NodeActor<R>, Vec<Reply<R>>),
)
    requires
        numbered(entries@),
        call_ensures(NodeActor::<R>::apply_committed, (actor, entries), result),
    ensures
        ({
            let all = entries@.len() as int;
            let after = result.0@;
            let applied = ActorView {
                pending_reads: actor@.pending_reads,
                held: actor@.held,
                ..after
            };
            &&& crate::actor::contents_of(result.1@) == actor@.held + answers_to(
                actor@,
                entries@,
                all,
            ) + served(applied, actor@.pending_reads)
            &&& after.held.len() == 0
            &&& after.kv == store_with(actor@.kv, entries@, all)
            &&& after.pending_reads == unserved(applied, actor@.pending_reads)
            &&& all > 0 ==> after.raft.volatile.last_applied == entries@.last().index
            &&& all == 0 ==> after.raft.volatile.last_applied == actor@.raft.volatile.last_applied
            &&& after.raft.persistent == actor@.raft.persistent
            &&& after.raft.volatile.commit_index == actor@.raft.volatile.commit_index
            &&& forall|w: u64| #[trigger]
                after.pending_writes.contains_key(w) <==> actor@.pending_writes.contains_key(w)
                    && !(exists|i: int| 0 <= i < all && (#[trigger] entries@[i]).index == w)
        }),
{
    applied_so_far(actor@, entries@, entries@.len() as int);
    assert(entries@.take(entries@.len() as int) =~= entries@);
    let applied = actor@.applied_all(entries@).0;
    reads_are_split(applied, actor@.pending_reads);
    assert(applied =~= (ActorView {
        pending_reads: actor@.pending_reads,
        held: actor@.held,
        ..result.0@
    }));
    if !applied.serves_reads() {
        assert(served(applied, actor@.pending_reads) =~= Seq::empty());
    }
}

/// While the durable state is not on disk, entries are applied all the same, and the
/// answers are held back after those that are held back already.
pub proof fn answers_are_held_back<R>(
    actor: NodeActor<R>,
    entries: &Vec<LogEntry>,
    result: NodeActor<R>,
)
    requires
        numbered(entries@),
        call_ensures(NodeActor::<R>::hold_back, (actor, entries), result),
    ensures
        ({
            let all = entries@.len() as int;
            &&& result@.held == actor@.held + answers_to(actor@, entries@, all)
            &&& result@.unsaved
            &&& result@.kv == store_with(actor@.kv, entries@, all)
            &&& result@.pending_reads == actor@.pending_reads
            &&& all > 0 ==> result@.raft.volatile.last_applied == entries@.last().index
        }),
{
    applied_so_far(actor@, entries@, entries@.len() as int);
    assert(entries@.take(entries@.len() as int) =~= entries@);
}

// ── Reads ──────────────────────────────────────────────────────────────────

/// Whether a read can be served. The node leads, has applied an entry of its own
/// term, and all that was committed when the read came, and a majority has confirmed
/// it since.
pub open spec fn can_serve<R>(actor: ActorView<R>, read: PendingRead<R>) -> bool {
    let applied = actor.raft.volatile.last_applied;
    &&& actor.raft.role == Role::Leader
    &&& actor.raft.log().term_at(applied as int) == actor.raft.persistent.current_term
    &&& applied >= read.read_index
    &&& actor.raft.confirmed_since(read.round)
}

/// The answer to a read: what the store has under its key.
pub open spec fn answer_to<R>(actor: ActorView<R>, read: PendingRead<R>) -> (R, ResponseView) {
    (
        read.reply,
        success_with(
            read.request_id,
            if actor.kv.contains_key(read.key@) {
                Some(actor.kv[read.key@])
            } else {
                None
            },
        ),
    )
}

/// The reads that can be served, and those that cannot, in the order in which they came.
pub open spec fn served<R>(actor: ActorView<R>, reads: Seq<PendingRead<R>>) -> Seq<
    (R, ResponseView),
>
    decreases reads.len(),
{
    if reads.len() == 0 {
        Seq::empty()
    } else if can_serve(actor, reads.last()) {
        served(actor, reads.drop_last()).push(answer_to(actor, reads.last()))
    } else {
        served(actor, reads.drop_last())
    }
}

/// The reads that cannot be served.
pub open spec fn unserved<R>(actor: ActorView<R>, reads: Seq<PendingRead<R>>) -> Seq<
    PendingRead<R>,
>
    decreases reads.len(),
{
    if reads.len() == 0 {
        Seq::empty()
    } else if can_serve(actor, reads.last()) {
        unserved(actor, reads.drop_last())
    } else {
        unserved(actor, reads.drop_last()).push(reads.last())
    }
}

proof fn reads_are_split<R>(actor: ActorView<R>, reads: Seq<PendingRead<R>>)
    ensures
        actor.serves_reads() ==> {
            &&& reads.filter(actor.waiting()) == unserved(actor, reads)
            &&& reads.filter(actor.ready()).map_values(actor.answer()) == served(actor, reads)
        },
        !actor.serves_reads() ==> unserved(actor, reads) == reads && served(actor, reads).len()
            == 0,
    decreases reads.len(),
{
    reveal(Seq::filter);
    if reads.len() > 0 {
        let rest = reads.drop_last();
        reads_are_split(actor, rest);
        if actor.serves_reads() {
            let ready = rest.filter(actor.ready());
            assert(ready.push(reads.last()).map_values(actor.answer()) =~= ready.map_values(
                actor.answer(),
            ).push((actor.answer())(reads.last())));
        } else {
            assert(unserved(actor, reads) =~= reads);
        }
    } else {
        assert(reads.filter(actor.ready()).map_values(actor.answer()) =~= served(actor, reads));
        assert(unserved(actor, reads) =~= reads);
        assert(reads.filter(actor.waiting()) =~= reads);
    }
}

/// Every read that can be served is served, with what the store has under its key, and
/// every other one waits on. Nothing else changes.
pub proof fn reads_are_served_when_they_can_be<R>(
    actor: NodeActor<R>,
    result: (NodeActor<R>, Vec<Reply<R>>),
)
    requires
        call_ensures(NodeActor::<R>::drain_pending_reads, (actor,), result),
    ensures
        crate::actor::contents_of(result.1@) == served(actor@, actor@.pending_reads),
        result.0@.pending_reads == unserved(actor@, actor@.pending_reads),
        result.0@ == (ActorView { pending_reads: result.0@.pending_reads, ..actor@ }),
{
    reads_are_split(actor@, actor@.pending_reads);
    if !actor@.serves_reads() {
        assert(served(actor@, actor@.pending_reads) =~= Seq::empty());
    }
}

// ── Snapshots ──────────────────────────────────────────────────────────────

/// A snapshot is taken of all that is applied, once the log has more than a hundred
/// entries and one of them is applied. The store can be made again from its pairs.
pub proof fn snapshots_are_taken_of_long_logs<R>(
    actor: &NodeActor<R>,
    snapshot: Option<SnapshotFile>,
    store: KvStore,
)
    requires
        call_ensures(NodeActor::<R>::snapshot_due, (actor,), snapshot),
        snapshot matches Some(file) ==> call_ensures(
            crate::kv::kv_from_pairs,
            (file.kv_data,),
            store,
        ),
    ensures
        snapshot is Some <==> actor@.raft.log().entries.len() > 100
            && actor@.raft.volatile.last_applied > actor@.raft.log().snapshot_index,
        snapshot matches Some(file) ==> {
            &&& file.last_included_index == actor@.raft.volatile.last_applied
            &&& file.last_included_term == actor@.raft.log().term_at(
                actor@.raft.volatile.last_applied as int,
            )
            &&& store@ == actor@.kv
        },
{
}

/// Once a snapshot is taken the node's log is compacted, and nothing else changes.
pub proof fn taken_snapshots_compact_the_log<R>(
    actor: NodeActor<R>,
    index: u64,
    compacted: RaftNode,
    result: NodeActor<R>,
)
    requires
        call_ensures(RaftNode::compact_log, (actor.raft, index), compacted),
        call_ensures(NodeActor::<R>::snapshot_taken, (actor, index), result),
    ensures
        result@.raft == compacted@,
        only_the_node(actor@, result@),
{
}

/// The message that brings a snapshot says what it covers, and names its sender and the
/// sender's term.
pub proof fn snapshot_messages_say_what_they_bring<R>(
    actor: &NodeActor<R>,
    index: u64,
    term: u64,
    data: Vec<u8>,
    message: RaftMessage,
)
    requires
        call_ensures(NodeActor::<R>::snapshot_message, (actor, index, term, data), message),
    ensures
        message@ matches MessageView::InstallSnapshotRequest(req) && {
            &&& req.term == actor.raft.persistent.current_term
            &&& req.leader_id == actor.raft.id
            &&& req.last_included_index == index
            &&& req.last_included_term == term
            &&& req.data == data@
        },
{
}

/// An installed snapshot replaces the store by the one that it was made of, and counts
/// as applied.
pub proof fn installed_snapshots_replace_the_store<R>(
    actor: NodeActor<R>,
    store: KvStore,
    pairs: Vec<(String, String)>,
    index: u64,
    result: NodeActor<R>,
)
    requires
        call_ensures(KvStore::into_pairs, (store,), pairs),
        call_ensures(NodeActor::<R>::install, (actor, pairs, index), result),
    ensures
        result@.kv == store@,
        result@.raft.volatile.last_applied == index,
        result@.raft.volatile.commit_index == actor@.raft.volatile.commit_index,
        result@.raft.persistent == actor@.raft.persistent,
        result@.pending_writes == actor@.pending_writes,
        result@.pending_reads == actor@.pending_reads,
        result@.held == actor@.held,
{
}

// ── Metrics ────────────────────────────────────────────────────────────────

/// Whether the metrics say what the node is, what it has and who waits for it.
pub open spec fn describes<R>(metrics: Metrics, actor: ActorView<R>) -> bool {
    &&& metrics.term == actor.raft.persistent.current_term
    &&& metrics.role == match actor.raft.role {
        Role::Follower => 0u8,
        Role::Candidate => 1u8,
        Role::Leader => 2u8,
    }
    &&& metrics.commit_index == actor.raft.volatile.commit_index
    &&& metrics.last_applied == actor.raft.volatile.last_applied
    &&& metrics.log_length == actor.raft.log().entries.len() as u64
    &&& metrics.pending_writes == actor.pending_writes.dom().len() as u64
    &&& metrics.pending_reads == actor.pending_reads.len() as u64
    &&& metrics.messages_sent == actor.metrics.messages_sent
    &&& metrics.messages_received == actor.metrics.messages_received
}

/// The metrics say what the node is, has and waits for, and the counters of messages are
/// left alone.
pub proof fn metrics_follow_the_actor<R>(
    actor: NodeActor<R>,
    result: NodeActor<R>,
    metrics: Metrics,
)
    requires
        call_ensures(NodeActor::<R>::update_metrics, (actor,), result),
        call_ensures(NodeActor::<R>::metrics, (&result,), metrics),
    ensures
        describes(metrics, actor@),
        result@ == (ActorView { metrics, ..actor@ }),
{
}

/// What is said of an actor, and of answers, is what they hold.
pub proof fn actors_are_what_they_hold<R>(actor: NodeActor<R>, replies: Seq<Reply<R>>, k: int)
    requires
        0 <= k < replies.len(),
    ensures
        actor@.raft == actor.raft@,
        actor@.kv == actor.kv@,
        actor@.pending_writes == actor.pending_writes@,
        actor@.pending_reads == actor.pending_reads@,
        actor@.unsaved == actor.unsaved,
        actor@.metrics == actor.metrics,
        actor@.held.len() == actor.held@.len(),
        crate::actor::contents_of(replies).len() == replies.len(),
        crate::actor::contents_of(replies)[k] == (replies[k].0, replies[k].1@),
{
}

// ── What can be handled ────────────────────────────────────────────────────

/// A message that a node says it can handle may be handed to its actor, and so may a
/// timer. Votes and snapshots can always be handled, and what is on disk can be started
/// from if it is told to follow its snapshot.
pub proof fn what_can_be_handled_is_taken<R>(
    actor: NodeActor<R>,
    incoming: Incoming,
    req: ClientRequest,
    reply: R,
    can: bool,
    can_serve: bool,
    can_time_out: bool,
    can_tick: bool,
)
    requires
        actor.raft.wf(),
        call_ensures(RaftNode::can_handle, (&actor.raft, incoming.from, &incoming.message), can),
        call_ensures(
            RaftNode::can_handle,
            (&actor.raft, incoming.from, &RaftMessage::ClientRequest(req)),
            can_serve,
        ),
        call_ensures(RaftNode::can_time_out, (&actor.raft,), can_time_out),
        call_ensures(RaftNode::can_tick, (&actor.raft,), can_tick),
    ensures
        can ==> call_requires(NodeActor::<R>::handle_incoming, (actor, incoming)),
        can_serve ==> call_requires(NodeActor::<R>::handle_client, (actor, req, reply)),
        can_time_out ==> call_requires(NodeActor::<R>::handle_election_timeout, (actor,)),
        can_tick ==> call_requires(NodeActor::<R>::handle_heartbeat, (actor,)),
        incoming.message is VoteRequest ==> can,
        incoming.message is InstallSnapshotRequest ==> can,
        incoming.message is ClientResponse ==> can,
{
}

/// A node can be started from whatever is told to follow its snapshot, and from a
/// snapshot alone, and from nothing.
pub proof fn nodes_can_be_started<R>(
    id: NodeId,
    peers: Vec<NodeId>,
    config: RaftConfig,
    snapshot: Option<SnapshotFile>,
    stored: StoredState,
    base: Option<(u64, u64)>,
    follows: bool,
)
    requires
        peers@.len() < usize::MAX,
        base == match snapshot {
            Some(file) => Some((file.last_included_index, file.last_included_term)),
            None => None,
        },
        call_ensures(crate::storage::follows_snapshot, (&stored, base), follows),
    ensures
        follows ==> call_requires(
            NodeActor::<R>::new,
            (id, peers, config, snapshot, Some(stored)),
        ),
        call_requires(NodeActor::<R>::new, (id, peers, config, snapshot, None)),
{
}

} // verus!
