//! No read is stale: what a leader answers with is at least as new as all that was
//! committed anywhere when the read came.

use vstd::prelude::*;

use crate::cluster::{Cluster, Envelope, Step};
use crate::history::History;
use crate::message::{LogEntry, MessageView, NodeId};
use crate::state::Role;
use crate::transitions::{Event, NodeView};

verus! {

// ── What a leader knows of the others ──────────────────────────────────────

/// Whether all entries of `log` are settled by a choice in another term than `term`.
pub open spec fn settled_elsewhere(h: History, log: Seq<LogEntry>, term: u64) -> bool {
    exists|s: u64, len: int| s != term && #[trigger] h.starts(log, s, len)
}

/// Whether the leader of `term`, which has committed `commit` entries, knows of all
/// that its own term has added to `log`.
pub open spec fn known(h: History, log: Seq<LogEntry>, commit: u64, term: u64) -> bool {
    log.len() <= commit || settled_elsewhere(h, log, term)
}

/// Whether `peer` has answered a request of that round or a later one in `term`.
pub open spec fn has_answered(h: History, peer: NodeId, term: u64, round: u64) -> bool {
    exists|e: Envelope| #[trigger]
        h.cluster.sent.contains(e) && e.from == peer && (e.message matches
            MessageView::AppendEntriesResponse(resp) && resp.term == term && resp.round >= round)
}

/// What a committed log that a message speaks of is, and which rounds messages of a
/// leader's term belong to.
pub open spec fn heard(h: History, e: Envelope, leader: NodeView) -> bool {
    let term = leader.term();
    let commit = leader.volatile.commit_index;
    match e.message {
        MessageView::AppendEntriesRequest(req) => {
            &&& req.term == term ==> req.round <= leader.leader_state->0.round
            &&& known(h, h.start_of(req.term, req.leader_commit as int), commit, term)
        },
        MessageView::AppendEntriesResponse(resp) => resp.term == term ==> resp.round
            <= leader.leader_state->0.round,
        MessageView::InstallSnapshotRequest(req) => known(
            h,
            h.start_of(req.term, req.last_included_index as int),
            commit,
            term,
        ),
        _ => true,
    }
}

/// What is committed at a node.
pub open spec fn committed(h: History, id: NodeId) -> Seq<LogEntry> {
    h.logs[id].take(h.node(id).volatile.commit_index as int)
}

/// What holds of a node that leads: it has committed all that anyone knows to be
/// committed of its own term, no message is of a round that it has not started, and
/// whoever it has down as having acknowledged a round has answered it.
pub open spec fn rules(h: History, id: NodeId) -> bool {
    let node = h.node(id);
    let state = node.leader_state->0;
    &&& forall|n: NodeId| #[trigger]
        h.has(n) ==> known(h, committed(h, n), node.volatile.commit_index, node.term())
    &&& forall|e: Envelope| #[trigger] h.cluster.sent.contains(e) ==> heard(h, e, node)
    &&& forall|p: NodeId| #[trigger]
        state.acked_rounds.contains_key(p) && state.acked_rounds[p] > 0 ==> has_answered(
            h,
            p,
            node.term(),
            state.acked_rounds[p],
        )
}

pub open spec fn leads(h: History, id: NodeId) -> bool {
    h.has(id) && h.node(id).role == Role::Leader
}

/// Every leader rules, and only a leader has rounds to be answered.
pub open spec fn fresh(h: History) -> bool {
    &&& forall|id: NodeId| #[trigger] leads(h, id) ==> rules(h, id)
    &&& forall|e: Envelope| #[trigger]
        h.cluster.sent.contains(e) ==> match e.message {
            MessageView::AppendEntriesResponse(resp) => resp.round > 0 ==> h.has_led(resp.term),
            _ => true,
        }
}

// ── Events ─────────────────────────────────────────────────────────────────

/// Where a commit index comes from: it is the old one, a leader has told it, or the
/// node leads and may commit up to there.
pub open spec fn sourced(before: NodeView, after: NodeView, event: Event) -> bool {
    let commit = after.volatile.commit_index;
    ||| commit == before.volatile.commit_index
    ||| event matches Event::AppendEntries(req) && commit <= req.leader_commit
    ||| event matches Event::InstallSnapshot(req) && commit == req.last_included_index
    ||| {
        &&& after.role == Role::Leader
        &&& after.log().snapshot_index < commit <= after.log().last_index()
        &&& after.committable(commit as int)
    }
}

#[verifier::spinoff_prover]
proof fn commit_has_a_source(node: NodeView, event: Event)
    requires
        node.wf(),
        node.admits(event),
        node.log().snapshot_index <= node.volatile.commit_index <= node.log().last_index(),
    ensures
        sourced(node, node.on(event).0, event),
{
    match event {
        Event::Tick => {
            if node.role == Role::Leader {
                crate::progress::advance_is_committable(node.round_started());
            }
        },
        Event::AppendEntriesResponse(from, resp) => {
            if node.role == Role::Leader {
                crate::progress::advance_is_committable(
                    NodeView { leader_state: Some(node.after_answer(from, resp)), ..node },
                );
            }
        },
        Event::ClientRequest(req) => {
            if node.role == Role::Leader {
                match req.operation {
                    crate::message::ClientOperation::Get { .. } => {},
                    crate::message::ClientOperation::Put { key, value } => {
                        appended_commit(node, crate::message::Command::Put { key, value });
                    },
                    crate::message::ClientOperation::Delete { key } => {
                        appended_commit(node, crate::message::Command::Delete { key });
                    },
                }
            }
        },
        _ => {},
    }
}

proof fn appended_commit(node: NodeView, command: crate::message::Command)
    requires
        node.wf(),
        node.role == Role::Leader,
        node.log().last_index() < u64::MAX,
    ensures
        ({
            let appended = node.with_command(command);
            let after = appended.advance_commit().0;
            let commit = after.volatile.commit_index;
            &&& after == appended.with_commit(commit as int)
            &&& commit == node.volatile.commit_index || (commit > node.volatile.commit_index
                && commit <= after.log().last_index() && after.committable(commit as int))
        }),
{
    let appended = node.with_command(command);
    assert(appended.log().wf()) by {
        assert forall|i: int| 0 <= i < appended.log().entries.len() implies (#[trigger]
        appended.log().entries[i]).index == appended.log().snapshot_index + 1 + i by {
            if i < node.log().entries.len() {
                assert(appended.log().entries[i] == node.log().entries[i]);
            }
        }
    }
    crate::progress::advance_is_committable(appended);
}

/// What requests and answers a node sends.
#[verifier::spinoff_prover]
proof fn messages_tell_rounds(node: NodeView, event: Event, i: int)
    requires
        node.wf(),
        node.admits(event),
        0 <= i < node.on(event).1.messages.len(),
    ensures
        ({
            let (after, actions) = node.on(event);
            match actions.messages[i].1 {
                MessageView::AppendEntriesRequest(req) => {
                    &&& after.role == Role::Leader
                    &&& req.term == after.term()
                    &&& req.leader_commit == after.volatile.commit_index
                    &&& req.round == after.leader_state->0.round
                },
                MessageView::AppendEntriesResponse(resp) => {
                    &&& resp.term == after.term()
                    &&& resp.round > 0 ==> (event matches Event::AppendEntries(req) && req.term
                        == resp.term && req.round == resp.round)
                },
                MessageView::InstallSnapshotRequest(_) => false,
                _ => true,
            }
        }),
{
}

/// What a leader that goes on leading remembers of rounds.
#[verifier::spinoff_prover]
proof fn rounds_go_on(node: NodeView, event: Event)
    requires
        node.wf(),
        node.admits(event),
        node.role == Role::Leader,
        node.on(event).0.role == Role::Leader,
    ensures
        ({
            let before = node.leader_state->0;
            let after = node.on(event).0.leader_state->0;
            &&& node.on(event).0.term() == node.term()
            &&& after.round >= before.round
            &&& forall|p: NodeId| #[trigger]
                after.acked_rounds.contains_key(p) && after.acked_rounds[p] > 0 ==> {
                    ||| before.acked_rounds.contains_key(p) && before.acked_rounds[p]
                        == after.acked_rounds[p]
                    ||| event matches Event::AppendEntriesResponse(from, resp) && from == p
                        && resp.term == node.term() && resp.round == after.acked_rounds[p]
                }
        }),
{
}

/// A node that has just won an election has started no round.
#[verifier::spinoff_prover]
proof fn winner_starts_over(node: NodeView, event: Event)
    requires
        node.wf(),
        node.admits(event),
        node.role != Role::Leader,
        node.on(event).0.role == Role::Leader,
    ensures
        ({
            let after = node.on(event).0;
            &&& after.leader_state->0.round == 0
            &&& forall|p: NodeId| #[trigger]
                after.leader_state->0.acked_rounds.contains_key(p)
                    ==> after.leader_state->0.acked_rounds[p] == 0
            &&& (node.role == Role::Candidate && after.term() == node.term()) || after.term()
                == node.term() + 1
        }),
{
}

// ── Steps ──────────────────────────────────────────────────────────────────

/// The beginning of a known log is known.
proof fn start_of_known(
    h: History,
    log: Seq<LogEntry>,
    start: Seq<LogEntry>,
    commit: u64,
    term: u64,
)
    requires
        known(h, log, commit, term),
        start.len() <= log.len(),
        forall|i: int| 0 <= i < start.len() ==> #[trigger] start[i] == log[i],
    ensures
        known(h, start, commit, term),
{
    if start.len() > commit {
        let (s, len) = choose|s: u64, len: int| s != term && #[trigger] h.starts(log, s, len);
        assert(start =~= h.start_of(s, start.len() as int)) by {
            assert forall|i: int| 0 <= i < start.len() implies start[i] == h.start_of(
                s,
                start.len() as int,
            )[i] by {
                assert(start[i] == log[i]);
                assert(log[i] == h.start_of(s, log.len() as int)[i]);
            }
        }
        assert(h.starts(start, s, len));
    }
}

/// What is known stays known as the history goes on.
proof fn known_is_kept(
    h: History,
    next: History,
    log: Seq<LogEntry>,
    commit: u64,
    later: u64,
    term: u64,
)
    requires
        crate::growth::grows(h, next),
        known(h, log, commit, term),
        commit <= later,
    ensures
        known(next, log, later, term),
{
    if log.len() > later {
        let (s, len) = choose|s: u64, len: int| s != term && #[trigger] h.starts(log, s, len);
        crate::growth::choices_are_kept(h, next, s, len);
        crate::growth::start_is_kept(h, next, s, log.len() as int);
        assert(next.starts(log, s, len));
    }
}

/// Two settled logs start alike.
proof fn settled_start(
    h: History,
    log: Seq<LogEntry>,
    start: Seq<LogEntry>,
    bound: u64,
    other: u64,
    commit: u64,
    term: u64,
)
    requires
        h.inv(),
        h.settled(log, bound),
        h.settled(start, other),
        start.len() <= log.len(),
        known(h, log, commit, term),
    ensures
        known(h, start, commit, term),
{
    assert forall|i: int| 0 <= i < start.len() implies #[trigger] start[i] == log[i] by {
        crate::completeness::settled_logs_agree(h, log, start, bound, other, i);
    }
    start_of_known(h, log, start, commit, term);
}

/// What is settled before anyone leads in a term is settled elsewhere.
proof fn settled_without(h: History, log: Seq<LogEntry>, bound: u64, commit: u64, term: u64)
    requires
        h.settled(log, bound),
        !h.has_led(term),
    ensures
        known(h, log, commit, term),
{
    if log.len() > 0 {
        let (s, len) = choose|s: u64, len: int| s <= bound && #[trigger] h.starts(log, s, len);
        assert(h.has_led(s));
    }
}

/// What is committed at a node is known to another leader if it is the beginning of a
/// log that was known before.
proof fn told_commit_is_known(
    h: History,
    next: History,
    id: NodeId,
    told: Seq<LogEntry>,
    bound: u64,
    commit: u64,
    term: u64,
)
    requires
        next.inv(),
        crate::growth::grows(h, next),
        next.has(id),
        h.settled(told, bound),
        known(h, told, commit, term),
        next.node(id).volatile.commit_index <= told.len(),
    ensures
        known(next, committed(next, id), commit, term),
{
    assert(next.node_ok(id));
    known_is_kept(h, next, told, commit, commit, term);
    crate::growth::settled_is_kept(h, next, told, bound, bound);
    settled_start(
        next,
        told,
        committed(next, id),
        bound,
        next.node(id).term(),
        commit,
        term,
    );
}

/// What a leader has committed in its own term is known to a leader of another term.
proof fn own_commit_is_known(h: History, id: NodeId, leader: NodeId)
    requires
        h.inv(),
        leads(h, id),
        leads(h, leader),
        leader != id,
        h.node(id).committable(h.node(id).volatile.commit_index as int),
        h.node(id).log().snapshot_index < h.node(id).volatile.commit_index
            <= h.node(id).log().last_index(),
    ensures
        known(
            h,
            committed(h, id),
            h.node(leader).volatile.commit_index,
            h.node(leader).term(),
        ),
{
    let term = h.node(leader).term();
    own_commit_is_chosen(h, id);
    assert(h.node(id).term() != term) by {
        if h.node(id).term() == term {
            assert(h.cluster.nodes.contains_key(id));
            assert(h.cluster.nodes.contains_key(leader));
            crate::cluster::one_leader_per_term(h.cluster, term, id, leader);
        }
    }
}

/// Whether an event is the arrival of a message that was sent.
pub open spec fn arrives(h: History, event: Event) -> bool {
    match event {
        Event::AppendEntries(req) => exists|e: Envelope| #[trigger]
            h.cluster.sent.contains(e) && e.message == MessageView::AppendEntriesRequest(req),
        Event::InstallSnapshot(req) => exists|e: Envelope| #[trigger]
            h.cluster.sent.contains(e) && e.message == MessageView::InstallSnapshotRequest(req),
        Event::AppendEntriesResponse(from, resp) => exists|e: Envelope| #[trigger]
            h.cluster.sent.contains(e) && e.from == from && e.message
                == MessageView::AppendEntriesResponse(resp),
        _ => true,
    }
}

/// What is committed at a node after an event is known to another leader.
#[verifier::spinoff_prover]
proof fn moved_commit_is_known(
    h: History,
    next: History,
    id: NodeId,
    event: Event,
    leader: NodeId,
)
    requires
        h.inv(),
        next.inv(),
        crate::growth::grows(h, next),
        h.has(id),
        next.has(id),
        sourced(h.node(id), next.node(id), event),
        next.node(leader) == h.node(leader),
        leads(h, leader),
        leads(next, leader),
        leader != id,
        rules(h, leader),
        arrives(h, event),
    ensures
        known(
            next,
            committed(next, id),
            next.node(leader).volatile.commit_index,
            next.node(leader).term(),
        ),
{
    let before = h.node(id);
    let after = next.node(id);
    let node = next.node(leader);
    let commit = node.volatile.commit_index;
    let term = node.term();
    assert(h.node_ok(id) && next.node_ok(id));
    if after.volatile.commit_index == before.volatile.commit_index {
        told_commit_is_known(h, next, id, committed(h, id), before.term(), commit, term);
    } else if after.role == Role::Leader && after.log().snapshot_index
        < after.volatile.commit_index <= after.log().last_index() && after.committable(
        after.volatile.commit_index as int,
    ) {
        own_commit_is_known(next, id, leader);
    } else {
        match event {
            Event::AppendEntries(req) => {
                let e = choose|e: Envelope| #[trigger]
                    h.cluster.sent.contains(e) && e.message == MessageView::AppendEntriesRequest(
                        req,
                    );
                assert(h.message_ok(e));
                assert(heard(h, e, node));
                let told = h.start_of(req.term, req.leader_commit as int);
                told_commit_is_known(h, next, id, told, req.term, commit, term);
            },
            Event::InstallSnapshot(req) => {
                let e = choose|e: Envelope| #[trigger]
                    h.cluster.sent.contains(e) && e.message
                        == MessageView::InstallSnapshotRequest(req);
                assert(h.message_ok(e));
                assert(heard(h, e, node));
                let told = h.start_of(req.term, req.last_included_index as int);
                told_commit_is_known(h, next, id, told, req.term, commit, term);
            },
            _ => {},
        }
    }
}

/// What a leader may commit in its own term is chosen.
proof fn own_commit_is_chosen(h: History, id: NodeId)
    requires
        h.inv(),
        leads(h, id),
        h.node(id).committable(h.node(id).volatile.commit_index as int),
        h.node(id).log().snapshot_index < h.node(id).volatile.commit_index
            <= h.node(id).log().last_index(),
    ensures
        h.starts(
            committed(h, id),
            h.node(id).term(),
            h.node(id).volatile.commit_index as int,
        ),
{
    let node = h.node(id);
    assert(h.node_ok(id) && h.leader_ok(id));
    assert(h.reign_ok(node.term()));
    crate::progress::whole_log_stays(h, id);
    crate::growth::traced_log_is_ordered(h, h.logs[id]);
    assert(crate::induction::leads(h, id));
    assert forall|p: NodeId, t: u64| #[trigger] h.accepted.contains_key((p, t)) implies
        h.cluster.nodes.contains_key(p) by {
        assert(h.accepted_ok(p, t));
        assert(h.has(p));
    }
    crate::induction::majority_chooses(h, id, node, node.volatile.commit_index as int);
}

/// What a message that a node sends says of the node, and of the request that it
/// answers.
pub open spec fn told(after: NodeView, event: Event, message: MessageView) -> bool {
    match message {
        MessageView::AppendEntriesRequest(req) => {
            &&& after.role == Role::Leader
            &&& req.term == after.term()
            &&& req.leader_commit == after.volatile.commit_index
            &&& req.round == after.leader_state->0.round
        },
        MessageView::AppendEntriesResponse(resp) => {
            &&& resp.term == after.term()
            &&& resp.round > 0 ==> (event matches Event::AppendEntries(req) && req.term
                == resp.term && req.round == resp.round)
        },
        MessageView::InstallSnapshotRequest(_) => false,
        _ => true,
    }
}

/// What becomes of the rounds of a node that leads after an event.
pub open spec fn rounds_follow(before: NodeView, after: NodeView, event: Event) -> bool {
    let old = before.leader_state->0;
    let new = after.leader_state->0;
    if before.role == Role::Leader {
        &&& after.term() == before.term()
        &&& new.round >= old.round
        &&& forall|p: NodeId| #[trigger]
            new.acked_rounds.contains_key(p) && new.acked_rounds[p] > 0 ==> {
                ||| old.acked_rounds.contains_key(p) && old.acked_rounds[p] == new.acked_rounds[p]
                ||| event matches Event::AppendEntriesResponse(from, resp) && from == p && resp.term
                    == before.term() && resp.round == new.acked_rounds[p]
            }
    } else {
        &&& new.round == 0
        &&& forall|p: NodeId| #[trigger]
            new.acked_rounds.contains_key(p) ==> new.acked_rounds[p] == 0
    }
}

/// What an event at a node does, as far as reads are concerned.
pub open spec fn moves(h: History, next: History, id: NodeId, event: Event) -> bool {
    let before = h.node(id);
    let after = next.node(id);
    &&& h.inv()
    &&& next.inv()
    &&& crate::growth::grows(h, next)
    &&& h.has(id)
    &&& next.has(id)
    &&& forall|n: NodeId| n != id ==> #[trigger] next.node(n) == h.node(n)
    &&& forall|n: NodeId| n != id ==> #[trigger] next.logs[n] == h.logs[n]
    &&& arrives(h, event)
    &&& sourced(before, after, event)
    &&& after.volatile.commit_index >= before.volatile.commit_index
    &&& forall|e: Envelope| #[trigger]
        next.cluster.sent.contains(e) ==> h.cluster.sent.contains(e) || (e.from == id && told(
            after,
            event,
            e.message,
        ))
    &&& forall|e: Envelope| #[trigger]
        h.cluster.sent.contains(e) ==> next.cluster.sent.contains(e)
    &&& after.role == Role::Leader ==> rounds_follow(before, after, event)
    &&& after.role == Role::Leader && before.role != Role::Leader ==> !h.has_led(after.term())
}

#[verifier::spinoff_prover]
proof fn sent_messages_are_told(h: History, id: NodeId, event: Event, e: Envelope)
    requires
        h.node(id).wf(),
        h.node(id).admits(event),
        h.after(id, event).cluster.sent.contains(e),
        !h.cluster.sent.contains(e),
    ensures
        e.from == id,
        told(h.node(id).on(event).0, event, e.message),
{
    let messages = h.node(id).on(event).1.messages;
    let sent = messages.map_values(
        |m: (NodeId, MessageView)| Envelope { from: id, to: m.0, message: m.1 },
    );
    assert(Cluster::envelopes(id, messages).contains(e));
    assert(sent.to_set().contains(e));
    let i = choose|i: int| 0 <= i < sent.len() && sent[i] == e;
    messages_tell_rounds(h.node(id), event, i);
}

/// A winner leads in a term in which nobody has led.
proof fn winner_is_first(h: History, next: History, id: NodeId, event: Event)
    requires
        h.inv(),
        next.inv(),
        h.has(id),
        next.has(id),
        h.node(id).admits(event),
        next.node(id) == h.node(id).on(event).0,
        h.node(id).role != Role::Leader,
        next.node(id).role == Role::Leader,
        forall|t: u64, n: NodeId| #[trigger]
            h.cluster.leaders.contains((t, n)) ==> next.cluster.leaders.contains((t, n)),
    ensures
        !h.has_led(next.node(id).term()),
{
    let term = next.node(id).term();
    assert(h.node_ok(id));
    winner_starts_over(h.node(id), event);
    if h.has_led(term) {
        assert(h.reign_ok(term));
        let chief = h.chiefs[term];
        assert(next.cluster.nodes.contains_key(id));
        assert(next.cluster.leaders.contains((term, id)));
        assert(next.cluster.leaders.contains((term, chief)));
        crate::cluster::one_leader_per_term(next.cluster, term, chief, id);
        if h.node(id).role == Role::Candidate {
            assert(h.candidate_ok(id));
        }
    }
}

#[verifier::spinoff_prover]
pub(crate) proof fn event_moves(h: History, id: NodeId, event: Event)
    requires
        h.inv(),
        h.after(id, event).inv(),
        crate::growth::grows(h, h.after(id, event)),
        h.cluster.can(id, event),
        arrives(h, event),
    ensures
        moves(h, h.after(id, event), id, event),
{
    let next = h.after(id, event);
    let before = h.node(id);
    let after = next.node(id);
    assert(h.has(id) && next.has(id));
    assert(h.node_ok(id));
    crate::progress::whole_log_stays(h, id);
    commit_has_a_source(before, event);
    crate::laws::commit_never_falls(before, event);
    assert forall|e: Envelope| #[trigger] next.cluster.sent.contains(e) implies
        h.cluster.sent.contains(e) || (e.from == id && told(after, event, e.message)) by {
        if !h.cluster.sent.contains(e) {
            sent_messages_are_told(h, id, event, e);
        }
    }
    if after.role == Role::Leader {
        if before.role == Role::Leader {
            rounds_go_on(before, event);
        } else {
            winner_starts_over(before, event);
            winner_is_first(h, next, id, event);
        }
    }
}

/// Another leader goes on ruling.
#[verifier::spinoff_prover]
proof fn others_go_on(h: History, next: History, id: NodeId, event: Event, leader: NodeId)
    requires
        moves(h, next, id, event),
        fresh(h),
        leads(next, leader),
        leader != id,
    ensures
        rules(next, leader),
{
    let node = next.node(leader);
    let commit = node.volatile.commit_index;
    let term = node.term();
    let state = node.leader_state->0;
    assert(node == h.node(leader));
    assert(h.has(leader));
    assert(leads(h, leader));
    assert(rules(h, leader));
    moved_commit_is_known(h, next, id, event, leader);
    assert forall|n: NodeId| #[trigger] next.has(n) implies known(
        next,
        committed(next, n),
        commit,
        term,
    ) by {
        if n != id {
            assert(h.has(n));
            assert(next.node(n) == h.node(n) && next.logs[n] == h.logs[n]);
            known_is_kept(h, next, committed(h, n), commit, commit, term);
        }
    }
    assert forall|e: Envelope| #[trigger] next.cluster.sent.contains(e) implies heard(
        next,
        e,
        node,
    ) by {
        if h.cluster.sent.contains(e) {
            message_stays_heard(h, next, e, node, node);
        } else {
            let after = next.node(id);
            match e.message {
                MessageView::AppendEntriesRequest(req) => {
                    assert(leads(next, id));
                    leader_log_is_own(next, id);
                    assert(req.term != term) by {
                        if req.term == term {
                            assert(next.cluster.nodes.contains_key(id));
                            assert(next.cluster.nodes.contains_key(leader));
                            crate::cluster::one_leader_per_term(next.cluster, term, id, leader);
                        }
                    }
                },
                MessageView::AppendEntriesResponse(resp) => {
                    if resp.term == term && resp.round > 0 {
                        answered_round_is_heard(h, event, resp, node);
                    }
                },
                _ => {},
            }
        }
    }
    assert forall|p: NodeId| #[trigger]
        state.acked_rounds.contains_key(p) && state.acked_rounds[p] > 0 implies has_answered(
        next,
        p,
        term,
        state.acked_rounds[p],
    ) by {
        answer_is_kept(h, next, p, term, state.acked_rounds[p]);
    }
}

/// What a leader has committed is the start of its term's log.
proof fn leader_log_is_own(h: History, id: NodeId)
    requires
        h.inv(),
        leads(h, id),
    ensures
        h.start_of(h.node(id).term(), h.node(id).volatile.commit_index as int) == committed(h, id),
{
    assert(h.node_ok(id) && h.leader_ok(id));
}

/// An answer repeats the round of a request that was sent.
proof fn answered_round_is_heard(
    h: History,
    event: Event,
    resp: crate::message::AppendEntriesResponse,
    node: NodeView,
)
    requires
        arrives(h, event),
        event matches Event::AppendEntries(req) && req.term == resp.term && req.round == resp.round,
        forall|e: Envelope| #[trigger] h.cluster.sent.contains(e) ==> heard(h, e, node),
        resp.term == node.term(),
    ensures
        resp.round <= node.leader_state->0.round,
{
    let req = event->AppendEntries_0;
    let e = choose|e: Envelope| #[trigger]
        h.cluster.sent.contains(e) && e.message == MessageView::AppendEntriesRequest(req);
    assert(heard(h, e, node));
}

proof fn answer_is_kept(h: History, next: History, p: NodeId, term: u64, round: u64)
    requires
        has_answered(h, p, term, round),
        forall|e: Envelope| #[trigger]
            h.cluster.sent.contains(e) && e.message is AppendEntriesResponse
                ==> next.cluster.sent.contains(e),
    ensures
        has_answered(next, p, term, round),
{
    let e = choose|e: Envelope| #[trigger]
        h.cluster.sent.contains(e) && e.from == p && (e.message matches
            MessageView::AppendEntriesResponse(resp) && resp.term == term && resp.round >= round);
    assert(next.cluster.sent.contains(e));
}

/// A message stays heard by a leader that commits and starts rounds.
proof fn message_stays_heard(
    h: History,
    next: History,
    e: Envelope,
    before: NodeView,
    after: NodeView,
)
    requires
        crate::growth::grows(h, next),
        h.message_ok(e),
        heard(h, e, before),
        after.term() == before.term(),
        after.volatile.commit_index >= before.volatile.commit_index,
        after.leader_state->0.round >= before.leader_state->0.round,
    ensures
        heard(next, e, after),
{
    let commit = before.volatile.commit_index;
    let later = after.volatile.commit_index;
    match e.message {
        MessageView::AppendEntriesRequest(req) => {
            let log = h.start_of(req.term, req.leader_commit as int);
            crate::growth::start_is_kept(h, next, req.term, req.leader_commit as int);
            known_is_kept(h, next, log, commit, later, before.term());
        },
        MessageView::InstallSnapshotRequest(req) => {
            let log = h.start_of(req.term, req.last_included_index as int);
            crate::growth::start_is_kept(h, next, req.term, req.last_included_index as int);
            known_is_kept(h, next, log, commit, later, before.term());
        },
        _ => {},
    }
}

/// A leader that goes on leading goes on ruling.
#[verifier::spinoff_prover]
proof fn leader_goes_on(h: History, next: History, id: NodeId, event: Event)
    requires
        moves(h, next, id, event),
        fresh(h),
        leads(h, id),
        leads(next, id),
    ensures
        rules(next, id),
{
    let before = h.node(id);
    let after = next.node(id);
    let commit = after.volatile.commit_index;
    let term = after.term();
    let state = after.leader_state->0;
    assert(rules(h, id));
    assert(next.node_ok(id));
    assert forall|n: NodeId| #[trigger] next.has(n) implies known(
        next,
        committed(next, n),
        commit,
        term,
    ) by {
        if n != id {
            assert(h.has(n));
            assert(next.node(n) == h.node(n) && next.logs[n] == h.logs[n]);
            known_is_kept(
                h,
                next,
                committed(h, n),
                before.volatile.commit_index,
                commit,
                term,
            );
        } else {
            assert(committed(next, n).len() == commit);
        }
    }
    assert forall|e: Envelope| #[trigger] next.cluster.sent.contains(e) implies heard(
        next,
        e,
        after,
    ) by {
        if h.cluster.sent.contains(e) {
            message_stays_heard(h, next, e, before, after);
        } else {
            match e.message {
                MessageView::AppendEntriesRequest(req) => {
                    leader_log_is_own(next, id);
                    assert(committed(next, id).len() == commit);
                },
                MessageView::AppendEntriesResponse(resp) => {
                    if resp.round > 0 {
                        answered_round_is_heard(h, event, resp, before);
                    }
                },
                _ => {},
            }
        }
    }
    assert forall|p: NodeId| #[trigger]
        state.acked_rounds.contains_key(p) && state.acked_rounds[p] > 0 implies has_answered(
        next,
        p,
        term,
        state.acked_rounds[p],
    ) by {
        let old = before.leader_state->0;
        if old.acked_rounds.contains_key(p) && old.acked_rounds[p] == state.acked_rounds[p] {
            answer_is_kept(h, next, p, term, state.acked_rounds[p]);
        } else {
            let resp = event->AppendEntriesResponse_1;
            let e = choose|e: Envelope| #[trigger]
                h.cluster.sent.contains(e) && e.from == p && e.message
                    == MessageView::AppendEntriesResponse(resp);
            assert(next.cluster.sent.contains(e));
        }
    }
}

/// A node that has just won an election rules: nobody knows of anything of its term.
#[verifier::spinoff_prover]
proof fn winner_rules(h: History, next: History, id: NodeId, event: Event)
    requires
        moves(h, next, id, event),
        fresh(h),
        h.node(id).role != Role::Leader,
        leads(next, id),
    ensures
        rules(next, id),
{
    let after = next.node(id);
    let commit = after.volatile.commit_index;
    let term = after.term();
    assert(next.node_ok(id));
    assert forall|n: NodeId| #[trigger] next.has(n) implies known(
        next,
        committed(next, n),
        commit,
        term,
    ) by {
        if n != id {
            assert(h.has(n));
            assert(next.node(n) == h.node(n) && next.logs[n] == h.logs[n]);
            assert(h.node_ok(n));
            settled_without(h, committed(h, n), h.node(n).term(), commit, term);
            known_is_kept(h, next, committed(h, n), commit, commit, term);
        } else {
            assert(committed(next, n).len() == commit);
        }
    }
    assert forall|e: Envelope| #[trigger] next.cluster.sent.contains(e) implies heard(
        next,
        e,
        after,
    ) by {
        if h.cluster.sent.contains(e) {
            assert(h.message_ok(e));
            match e.message {
                MessageView::AppendEntriesRequest(req) => {
                    let log = h.start_of(req.term, req.leader_commit as int);
                    settled_without(h, log, req.term, commit, term);
                    crate::growth::start_is_kept(h, next, req.term, req.leader_commit as int);
                    known_is_kept(h, next, log, commit, commit, term);
                },
                MessageView::InstallSnapshotRequest(req) => {
                    let log = h.start_of(req.term, req.last_included_index as int);
                    settled_without(h, log, req.term, commit, term);
                    crate::growth::start_is_kept(h, next, req.term, req.last_included_index as int);
                    known_is_kept(h, next, log, commit, commit, term);
                },
                _ => {},
            }
        } else {
            match e.message {
                MessageView::AppendEntriesRequest(req) => {
                    leader_log_is_own(next, id);
                    assert(committed(next, id).len() == commit);
                },
                MessageView::AppendEntriesResponse(resp) => {
                    if resp.round > 0 {
                        let req = event->AppendEntries_0;
                        let sent = choose|e: Envelope| #[trigger]
                            h.cluster.sent.contains(e) && e.message
                                == MessageView::AppendEntriesRequest(req);
                        assert(h.message_ok(sent));
                    }
                },
                _ => {},
            }
        }
    }
}

proof fn event_keeps_fresh(h: History, next: History, id: NodeId, event: Event)
    requires
        moves(h, next, id, event),
        fresh(h),
    ensures
        fresh(next),
{
    assert forall|leader: NodeId| #[trigger] leads(next, leader) implies rules(next, leader) by {
        if leader != id {
            others_go_on(h, next, id, event, leader);
        } else if h.node(id).role == Role::Leader {
            assert(leads(h, id));
            leader_goes_on(h, next, id, event);
        } else {
            winner_rules(h, next, id, event);
        }
    }
    assert forall|e: Envelope| #[trigger] next.cluster.sent.contains(e) implies match e.message {
        MessageView::AppendEntriesResponse(resp) => resp.round > 0 ==> next.has_led(resp.term),
        _ => true,
    } by {
        if let MessageView::AppendEntriesResponse(resp) = e.message {
            if h.cluster.sent.contains(e) {
                assert(resp.round > 0 ==> h.has_led(resp.term));
            } else if resp.round > 0 {
                let req = event->AppendEntries_0;
                let sent = choose|e: Envelope| #[trigger]
                    h.cluster.sent.contains(e) && e.message == MessageView::AppendEntriesRequest(
                        req,
                    );
                assert(h.message_ok(sent));
                assert(h.has_led(req.term));
            }
        }
    }
}

/// Whether a message brings a snapshot of what the node has committed.
pub open spec fn brings_committed(h: History, id: NodeId, e: Envelope) -> bool {
    e.message matches MessageView::InstallSnapshotRequest(req) && {
        let log = h.start_of(req.term, req.last_included_index as int);
        &&& log.len() <= committed(h, id).len()
        &&& forall|i: int| 0 <= i < log.len() ==> #[trigger] log[i] == committed(h, id)[i]
    }
}

/// A change at one node that leaves its whole log alone, commits nothing and gives it
/// no leadership.
#[verifier::spinoff_prover]
proof fn local_change_keeps_fresh(h: History, next: History, id: NodeId)
    requires
        h.inv(),
        next.inv(),
        crate::growth::grows(h, next),
        fresh(h),
        h.has(id),
        next == (History { cluster: next.cluster, ..h }),
        next.cluster.nodes.dom() == h.cluster.nodes.dom(),
        forall|n: NodeId| n != id ==> #[trigger] next.node(n) == h.node(n),
        next.node(id).volatile.commit_index <= h.node(id).volatile.commit_index,
        next.node(id).role == Role::Leader ==> {
            &&& h.node(id).role == Role::Leader
            &&& next.node(id).term() == h.node(id).term()
            &&& next.node(id).volatile == h.node(id).volatile
            &&& next.node(id).leader_state == h.node(id).leader_state
        },
        forall|e: Envelope| #[trigger]
            h.cluster.sent.contains(e) && e.message is AppendEntriesResponse
                ==> next.cluster.sent.contains(e),
        forall|e: Envelope| #[trigger]
            next.cluster.sent.contains(e) ==> h.cluster.sent.contains(e) || brings_committed(
                h,
                id,
                e,
            ),
    ensures
        fresh(next),
{
    assert forall|leader: NodeId| #[trigger] leads(next, leader) implies rules(next, leader) by {
        let node = h.node(leader);
        let commit = node.volatile.commit_index;
        let term = node.term();
        let state = node.leader_state->0;
        assert(h.has(leader));
        assert(leader != id ==> next.node(leader) == node);
        assert(leads(h, leader));
        assert(rules(h, leader));
        assert forall|n: NodeId| #[trigger] next.has(n) implies known(
            next,
            committed(next, n),
            commit,
            term,
        ) by {
            assert(h.has(n));
            assert(h.node_ok(n));
            assert(n != id ==> next.node(n) == h.node(n));
            let start = committed(next, n);
            assert forall|i: int| 0 <= i < start.len() implies #[trigger] start[i] == committed(
                h,
                n,
            )[i] by {}
            start_of_known(h, committed(h, n), start, commit, term);
            known_is_kept(h, next, start, commit, commit, term);
        }
        assert forall|e: Envelope| #[trigger] next.cluster.sent.contains(e) implies heard(
            next,
            e,
            next.node(leader),
        ) by {
            if h.cluster.sent.contains(e) {
                message_stays_heard(h, next, e, node, next.node(leader));
            } else {
                let req = e.message->InstallSnapshotRequest_0;
                let log = h.start_of(req.term, req.last_included_index as int);
                start_of_known(h, committed(h, id), log, commit, term);
                known_is_kept(h, next, log, commit, commit, term);
            }
        }
        assert forall|p: NodeId| #[trigger]
            state.acked_rounds.contains_key(p) && state.acked_rounds[p] > 0 implies has_answered(
            next,
            p,
            term,
            state.acked_rounds[p],
        ) by {
            answer_is_kept(h, next, p, term, state.acked_rounds[p]);
        }
    }
    assert forall|e: Envelope| #[trigger] next.cluster.sent.contains(e) implies match e.message {
        MessageView::AppendEntriesResponse(resp) => resp.round > 0 ==> next.has_led(resp.term),
        _ => true,
    } by {
        if h.cluster.sent.contains(e) {
        }
    }
}

proof fn carried_event_keeps_fresh(h: History, next: History, id: NodeId, event: Event)
    requires
        h.inv(),
        fresh(h),
        h.cluster.can(id, event),
        next == h.after(id, event),
        next.inv(),
        crate::growth::grows(h, next),
        arrives(h, event),
    ensures
        fresh(next),
{
    event_moves(h, id, event);
    event_keeps_fresh(h, next, id, event);
}

#[verifier::spinoff_prover]
proof fn quiet_step_keeps_fresh(h: History, next: History, step: Step)
    requires
        h.inv(),
        fresh(h),
        h.steps_to(next, step),
        next.inv(),
        crate::growth::grows(h, next),
        step is SendSnapshot || step is Compact || step is Restart,
    ensures
        fresh(next),
{
    let id = match step {
        Step::SendSnapshot(id, _, _) => id,
        Step::Compact(id, _) => id,
        Step::Restart(id) => id,
        _ => 0,
    };
    assert(h.has(id));
    assert(h.node_ok(id));
    if step is SendSnapshot {
        assert(h.leader_ok(id));
    }
    assert(next.cluster.nodes.dom() =~= h.cluster.nodes.dom());
    local_change_keeps_fresh(h, next, id);
}

#[verifier::spinoff_prover]
proof fn delivery_keeps_fresh(h: History, next: History, e: Envelope)
    requires
        h.inv(),
        fresh(h),
        h.steps_to(next, Step::Deliver(e)),
        next.inv(),
        crate::growth::grows(h, next),
    ensures
        fresh(next),
{
    let event = crate::cluster::arrival(e)->0;
    assert(h.cluster.sent.contains(e));
    assert(arrives(h, event));
    carried_event_keeps_fresh(h, next, e.to, event);
}

/// A node that installs a snapshot, or only sees a term, confirms no round.
#[verifier::spinoff_prover]
proof fn installing_answers_no_round(h: History, e: Envelope, installed: bool, m: Envelope)
    requires
        h.cluster.sent.contains(e),
        e.message is InstallSnapshotRequest,
        h.after(
            e.to,
            crate::cluster::written(e.message->InstallSnapshotRequest_0, installed),
        ).cluster.sent.contains(m),
        m.message is AppendEntriesResponse,
    ensures
        h.cluster.sent.contains(m),
{
    let event = crate::cluster::written(e.message->InstallSnapshotRequest_0, installed);
    let messages = h.node(e.to).on(event).1.messages;
    let sent = messages.map_values(
        |m: (NodeId, MessageView)| Envelope { from: e.to, to: m.0, message: m.1 },
    );
    if !h.cluster.sent.contains(m) {
        assert(Cluster::envelopes(e.to, messages).contains(m));
        assert(sent.to_set().contains(m));
        let i = choose|i: int| 0 <= i < sent.len() && sent[i] == m;
        assert(messages[i].1 is InstallSnapshotResponse);
    }
}

#[verifier::spinoff_prover]
proof fn stopped_install_keeps_fresh(h: History, next: History, e: Envelope, installed: bool)
    requires
        h.inv(),
        fresh(h),
        h.steps_to(next, Step::StopInstalling(e, installed)),
        next.inv(),
    ensures
        fresh(next),
{
    let req = e.message->InstallSnapshotRequest_0;
    let event = crate::cluster::written(req, installed);
    let id = e.to;
    assert(h.has(id));
    assert(h.cluster.sent.contains(e));
    crate::progress::written_keeps_inv(h, e, installed);
    let after = h.after(id, event);
    assert(arrives(h, event));
    carried_event_keeps_fresh(h, after, id, event);
    assert(after.has(id));
    assert(after.node_ok(id));
    assert forall|m: Envelope| #[trigger]
        after.cluster.sent.contains(m) && m.message is AppendEntriesResponse implies
        next.cluster.sent.contains(m) by {
        installing_answers_no_round(h, e, installed, m);
    }
    assert(next.cluster.nodes.dom() =~= after.cluster.nodes.dom());
    crate::growth::local_change_grows(after, next);
    local_change_keeps_fresh(after, next, id);
}

#[verifier::spinoff_prover]
proof fn step_keeps_fresh(h: History, next: History, step: Step)
    requires
        h.inv(),
        fresh(h),
        h.steps_to(next, step),
    ensures
        next.inv(),
        fresh(next),
        crate::growth::grows(h, next),
{
    crate::progress::inv_is_kept(h, next, step);
    match step {
        Step::ElectionTimeout(id) => {
            carried_event_keeps_fresh(h, next, id, Event::ElectionTimeout);
        },
        Step::Tick(id) => carried_event_keeps_fresh(h, next, id, Event::Tick),
        Step::Client(id, req) => {
            carried_event_keeps_fresh(h, next, id, Event::ClientRequest(req));
        },
        Step::Deliver(e) => delivery_keeps_fresh(h, next, e),
        Step::RefuseSnapshot(e) => {
            let event = crate::cluster::written(e.message->InstallSnapshotRequest_0, false);
            assert(h.has(e.to));
            crate::progress::written_keeps_inv(h, e, false);
            carried_event_keeps_fresh(h, next, e.to, event);
        },
        Step::StopInstalling(e, installed) => stopped_install_keeps_fresh(h, next, e, installed),
        _ => quiet_step_keeps_fresh(h, next, step),
    }
}

proof fn fresh_throughout(run: Seq<History>, i: int)
    requires
        crate::history::is_history(run),
        0 <= i < run.len(),
    ensures
        run[i].inv(),
        fresh(run[i]),
    decreases i,
{
    if i == 0 {
        crate::progress::inv_holds_at_the_start(run[0]);
        assert forall|id: NodeId| !#[trigger] leads(run[0], id) by {
            if run[0].has(id) {
                assert(run[0].cluster.nodes.contains_key(id));
            }
        }
    } else {
        fresh_throughout(run, i - 1);
        let before = run[i - 1];
        let after = run[i];
        assert(after.follows(before));
        let step = choose|step: Step| before.steps_to(after, step);
        step_keeps_fresh(before, after, step);
    }
}

// ── Runs ───────────────────────────────────────────────────────────────────

/// The terms of a node never fall.
proof fn terms_never_fall(run: Seq<History>, i: int, j: int, id: NodeId)
    requires
        crate::history::is_history(run),
        0 <= i <= j < run.len(),
        run[i].has(id),
    ensures
        run[j].has(id),
        run[i].node(id).term() <= run[j].node(id).term(),
    decreases j - i,
{
    if i < j {
        terms_never_fall(run, i, j - 1, id);
        let h = run[j - 1];
        let next = run[j];
        assert(next.follows(h));
        let step = choose|step: Step| h.steps_to(next, step);
        term_goes_on(h, next, step, id);
    }
}

proof fn term_goes_on(h: History, next: History, step: Step, id: NodeId)
    requires
        h.steps_to(next, step),
        h.has(id),
    ensures
        next.has(id),
        h.node(id).term() <= next.node(id).term(),
{
    match step {
        Step::ElectionTimeout(n) => crate::laws::term_never_falls(h.node(n), Event::ElectionTimeout),
        Step::Tick(n) => crate::laws::term_never_falls(h.node(n), Event::Tick),
        Step::Client(n, req) => crate::laws::term_never_falls(h.node(n), Event::ClientRequest(req)),
        Step::Deliver(e) => crate::laws::term_never_falls(
            h.node(e.to),
            crate::cluster::arrival(e)->0,
        ),
        Step::RefuseSnapshot(e) => crate::laws::term_never_falls(
            h.node(e.to),
            crate::cluster::written(e.message->InstallSnapshotRequest_0, false),
        ),
        Step::StopInstalling(e, installed) => crate::laws::term_never_falls(
            h.node(e.to),
            crate::cluster::written(e.message->InstallSnapshotRequest_0, installed),
        ),
        _ => {},
    }
}

/// A node answers in its own term.
proof fn event_answers_in_term(h: History, id: NodeId, event: Event, e: Envelope)
    requires
        h.inv(),
        h.after(id, event).inv(),
        crate::growth::grows(h, h.after(id, event)),
        h.cluster.can(id, event),
        arrives(h, event),
        e.message is AppendEntriesResponse,
        h.after(id, event).cluster.sent.contains(e),
        !h.cluster.sent.contains(e),
    ensures
        h.after(id, event).node(e.from).term() == e.message->AppendEntriesResponse_0.term,
{
    event_moves(h, id, event);
    assert(moves(h, h.after(id, event), id, event));
}

#[verifier::spinoff_prover]
proof fn answers_are_in_term(h: History, next: History, step: Step, e: Envelope)
    requires
        h.inv(),
        h.steps_to(next, step),
        e.message is AppendEntriesResponse,
        next.cluster.sent.contains(e),
        !h.cluster.sent.contains(e),
    ensures
        next.node(e.from).term() == e.message->AppendEntriesResponse_0.term,
{
    crate::progress::inv_is_kept(h, next, step);
    match step {
        Step::ElectionTimeout(id) => event_answers_in_term(h, id, Event::ElectionTimeout, e),
        Step::Tick(id) => event_answers_in_term(h, id, Event::Tick, e),
        Step::Client(id, req) => event_answers_in_term(h, id, Event::ClientRequest(req), e),
        Step::Deliver(envelope) => {
            assert(h.cluster.sent.contains(envelope));
            event_answers_in_term(h, envelope.to, crate::cluster::arrival(envelope)->0, e);
        },
        Step::RefuseSnapshot(envelope) => {
            assert(h.cluster.sent.contains(envelope));
            installing_answers_no_round(h, envelope, false, e);
        },
        _ => {},
    }
}

/// A node that has answered in a term since some moment had no higher term at that
/// moment.
proof fn answered_since(run: Seq<History>, i: int, j: int, e: Envelope)
    requires
        crate::history::is_history(run),
        0 <= i <= j < run.len(),
        run[i].has(e.from),
        e.message is AppendEntriesResponse,
        run[j].cluster.sent.contains(e),
        !run[i].cluster.sent.contains(e),
    ensures
        run[i].node(e.from).term() <= e.message->AppendEntriesResponse_0.term,
    decreases j - i,
{
    assert(i < j);
    if run[j - 1].cluster.sent.contains(e) {
        answered_since(run, i, j - 1, e);
    } else {
        let h = run[j - 1];
        let next = run[j];
        terms_never_fall(run, i, j, e.from);
        fresh_throughout(run, j - 1);
        assert(next.follows(h));
        let step = choose|step: Step| h.steps_to(next, step);
        answers_are_in_term(h, next, step, e);
    }
}

/// Nobody has led in the term in which a node leads later, while the node's own term
/// is lower.
proof fn nobody_led_yet(run: Seq<History>, i: int, j: int, leader: NodeId)
    requires
        crate::history::is_history(run),
        0 <= i <= j < run.len(),
        leads(run[j], leader),
        run[i].has(leader),
        run[i].node(leader).term() < run[j].node(leader).term(),
    ensures
        !run[i].has_led(run[j].node(leader).term()),
{
    let term = run[j].node(leader).term();
    fresh_throughout(run, i);
    fresh_throughout(run, j);
    if run[i].has_led(term) {
        assert(run[i].reign_ok(term));
        let chief = run[i].chiefs[term];
        leaders_are_remembered(run, i, j, term, chief);
        assert(run[j].cluster.nodes.contains_key(leader));
        crate::cluster::one_leader_per_term(run[j].cluster, term, chief, leader);
    }
}

proof fn leaders_are_remembered(run: Seq<History>, i: int, j: int, term: u64, chief: NodeId)
    requires
        crate::history::is_history(run),
        0 <= i <= j < run.len(),
        run[i].cluster.leaders.contains((term, chief)),
    ensures
        run[j].cluster.leaders.contains((term, chief)),
    decreases j - i,
{
    if i < j {
        leaders_are_remembered(run, i, j - 1, term, chief);
        let before = run[j - 1];
        let after = run[j];
        assert(after.follows(before));
        let step = choose|step: Step| before.steps_to(after, step);
        assert(before.steps_to(after, step));
    }
}

/// The leader and those that have acknowledged a round since some moment are a
/// majority, and none of them had a higher term at that moment.
#[verifier::spinoff_prover]
proof fn confirming_majority(run: Seq<History>, i: int, j: int, leader: NodeId, round: u64) -> (
    majority: Set<NodeId>)
    requires
        crate::history::is_history(run),
        0 <= i <= j < run.len(),
        leads(run[i], leader),
        leads(run[j], leader),
        round > run[i].node(leader).leader_state->0.round,
        run[j].node(leader).confirmed_since(round),
    ensures
        majority.subset_of(run[i].cluster.nodes.dom()),
        2 * majority.len() > run[i].cluster.nodes.dom().len(),
        forall|p: NodeId| #[trigger]
            majority.contains(p) ==> run[i].node(p).term() <= run[j].node(leader).term(),
{
    let h = run[j];
    let node = h.node(leader);
    let state = node.leader_state->0;
    let term = node.term();
    let all = h.cluster.nodes.dom();
    fresh_throughout(run, i);
    fresh_throughout(run, j);
    crate::safety::runs_grow(run, i, j);
    terms_never_fall(run, i, j, leader);
    assert(h.node_ok(leader));
    assert(run[i].node_ok(leader));
    assert(h.cluster.nodes.contains_key(leader));
    assert(node.peers.to_set() == all.remove(leader));
    node.config.quorums_overlap();
    let others = if node.peers.len() == 0 {
        Set::empty()
    } else {
        state.acknowledging(leader, round as int)
    };
    let majority = others.insert(leader);
    assert forall|p: NodeId| #[trigger] others.contains(p) implies all.contains(p) && p != leader
        && run[i].node(p).term() <= term by {
        assert(state.acked_rounds.contains_key(p));
        assert(node.peers.contains(p));
        assert(node.peers.to_set().contains(p));
        assert(run[i].has(p));
        assert(rules(h, leader));
        assert(has_answered(h, p, term, state.acked_rounds[p]));
        let e = choose|e: Envelope| #[trigger]
            h.cluster.sent.contains(e) && e.from == p && (e.message matches
                MessageView::AppendEntriesResponse(resp) && resp.term == term && resp.round
                >= state.acked_rounds[p]);
        assert(!run[i].cluster.sent.contains(e)) by {
            if run[i].cluster.sent.contains(e) {
                if run[i].node(leader).term() == term {
                    assert(rules(run[i], leader));
                    assert(heard(run[i], e, run[i].node(leader)));
                } else {
                    nobody_led_yet(run, i, j, leader);
                }
            }
        }
        answered_since(run, i, j, e);
    }
    assert(others.subset_of(all));
    vstd::set_lib::lemma_len_subset(others, all);
    assert(majority.len() == others.len() + 1);
    if node.peers.len() == 0 {
        assert(all =~= set![leader]) by {
            assert forall|n: NodeId| all.contains(n) implies n == leader by {
                if n != leader {
                    assert(all.remove(leader).contains(n));
                    assert(node.peers.to_set().contains(n));
                }
            }
        }
    }
    majority
}

/// No read is stale. A read comes to a leader at some moment and starts a heartbeat
/// round. Later the node leads, a majority has confirmed it in that round or a later
/// one, and it has applied as many entries as it had committed when the read came,
/// and an entry of its own term. Then it has applied as many entries as any node had
/// committed when the read came.
pub proof fn reads_are_fresh(
    run: Seq<History>,
    i: int,
    j: int,
    leader: NodeId,
    round: u64,
    applied: int,
    n: NodeId,
)
    requires
        crate::history::is_history(run),
        0 <= i <= j < run.len(),
        leads(run[i], leader),
        leads(run[j], leader),
        run[i].has(n),
        round > run[i].node(leader).leader_state->0.round,
        run[j].node(leader).confirmed_since(round),
        run[i].node(leader).volatile.commit_index <= applied,
        run[j].node(leader).log().term_at(applied) == run[j].node(leader).term(),
    ensures
        run[i].node(n).volatile.commit_index <= applied,
{
    let h = run[i];
    let node = run[j].node(leader);
    let term = node.term();
    let commit = h.node(n).volatile.commit_index;
    fresh_throughout(run, i);
    fresh_throughout(run, j);
    terms_never_fall(run, i, j, leader);
    assert(h.node_ok(n));
    if commit > applied {
        let log = committed(h, n);
        // The entries were chosen in another term than the leader's.
        if h.node(leader).term() == term {
            assert(rules(h, leader));
            assert(known(h, log, h.node(leader).volatile.commit_index, term));
        } else {
            nobody_led_yet(run, i, j, leader);
            settled_without(h, log, h.node(n).term(), 0, term);
        }
        let (s, len) = choose|s: u64, len: int| s != term && #[trigger] h.starts(log, s, len);
        assert(h.starts(log, s, len));
        let majority = confirming_majority(run, i, j, leader, round);
        let holders = choose|nodes: Set<NodeId>| #[trigger] h.held_by(s, len, nodes);
        crate::cluster::majorities_meet(h.cluster.nodes.dom(), holders, majority);
        let v = choose|v: NodeId| holders.contains(v) && majority.contains(v);
        assert(h.accepts_up_to(v, s) >= len);
        assert(h.accepted.contains_key((v, s)));
        assert(h.accepted_ok(v, s));
        assert(s < term);
        // So the leader was elected with them, and its own entries come after.
        crate::safety::runs_grow(run, i, j);
        crate::growth::choices_are_kept(h, run[j], s, len);
        own_entries_come_after(run[j], leader, s, len, applied);
    }
}

/// What was chosen in an earlier term stands before the entries of a leader's own term.
proof fn own_entries_come_after(h: History, leader: NodeId, s: u64, len: int, index: int)
    requires
        h.inv(),
        leads(h, leader),
        h.chosen(s, len),
        s < h.node(leader).term(),
        h.node(leader).log().term_at(index) == h.node(leader).term(),
    ensures
        len < index,
{
    let node = h.node(leader);
    let term = node.term();
    assert(h.node_ok(leader) && h.leader_ok(leader));
    assert(h.reign_ok(term));
    crate::completeness::later_leaders_have_it(h, s, len, term);
    crate::progress::whole_log_stays(h, leader);
    let first = h.first_logs[term];
    let log = h.logs[leader];
    assert(crate::history::term_of(log, index) == term) by {
        if node.log().holds(index) {
            assert(node.log().at(index) == log[index - 1]);
        }
    }
    if index <= first.len() {
        assert(log[index - 1] == first[index - 1]) by {
            assert(first[index - 1] == log.subrange(0, first.len() as int)[index - 1]);
        }
        assert(log[first.len() - 1] == first[first.len() - 1]) by {
            assert(first[first.len() - 1] == log.subrange(0, first.len() as int)[first.len() - 1]);
        }
        assert(log[index - 1].term <= log[first.len() - 1].term);
    }
}

} // verus!
