//! What always holds of a history is kept by every step.

use vstd::prelude::*;

use crate::cluster::{Cluster, Envelope, Step};
use crate::history::History;
use crate::induction::Shift;
use crate::log::LogView;
use crate::message::{AppendEntriesView, InstallSnapshotView, LogEntry, MessageView, NodeId};
use crate::state::Role;
use crate::transitions::{Event, NodeView};

verus! {

// ── Events ─────────────────────────────────────────────────────────────────

#[verifier::spinoff_prover]
proof fn event_is_framed(h: History, id: NodeId, event: Event)
    requires
        h.inv(),
        h.cluster.can(id, event),
        h.cluster.after(id, event).inv(),
    ensures
        crate::induction::framed(h, h.after(id, event), id),
        h.after(id, event).node(id) == h.node(id).on(event).0,
        h.after(id, event).node(id).wf(),
        h.after(id, event).accepted == h.accepted_after(id, event),
        h.after(id, event).logs[id] == h.log_after(id, event),
        h.after(id, event).cluster.sent == h.cluster.sent + Cluster::envelopes(
            id,
            h.node(id).on(event).1.messages,
        ),
{
    let next = h.after(id, event);
    assert(h.has(id));
    assert(h.node_ok(id));
    crate::laws::term_never_falls(h.node(id), event);
    crate::laws::stays_well_formed(h.node(id), event);
    assert(next.cluster.nodes.dom() =~= h.cluster.nodes.dom());
    assert(next.logs.dom() =~= h.logs.dom());
    if event is ElectionTimeout && h.node(id).role != Role::Leader {
        assert(next.node(id).term() == h.node(id).term() + 1);
    }
}

proof fn only_message(id: NodeId, to: NodeId, message: MessageView, e: Envelope)
    requires
        Cluster::envelopes(id, seq![(to, message)]).contains(e),
    ensures
        e == (Envelope { from: id, to, message }),
{
    let sent = seq![(to, message)].map_values(
        |m: (NodeId, MessageView)| Envelope { from: id, to: m.0, message: m.1 },
    );
    assert(sent.to_set().contains(e));
    let i = choose|i: int| 0 <= i < sent.len() && sent[i] == e;
}

proof fn no_message(id: NodeId, e: Envelope)
    ensures
        !Cluster::envelopes(id, Seq::<(NodeId, MessageView)>::empty()).contains(e),
{
    let sent = Seq::<(NodeId, MessageView)>::empty().map_values(
        |m: (NodeId, MessageView)| Envelope { from: id, to: m.0, message: m.1 },
    );
    if sent.to_set().contains(e) {
        let i = choose|i: int| 0 <= i < sent.len() && sent[i] == e;
    }
}

/// The whole log of a node whose live log does not change.
pub(crate) proof fn whole_log_stays(h: History, id: NodeId)
    requires
        h.inv(),
        h.has(id),
    ensures
        h.logs[id].take(h.node(id).log().snapshot_index as int) + h.node(id).log().entries
            == h.logs[id],
        crate::takeover::tail_of(h.node(id).log(), h.logs[id]),
        h.node(id).log().last_index() == h.logs[id].len(),
        h.node(id).log().last_term() == crate::history::term_of(h.logs[id], h.logs[id].len() as int),
{
    assert(h.node_ok(id));
    let log = h.node(id).log();
    let whole = h.logs[id];
    assert(whole.take(log.snapshot_index as int) + log.entries =~= whole);
    if log.entries.len() > 0 {
        assert(log.entries.last() == whole[whole.len() - 1]);
    }
}

#[verifier::spinoff_prover]
proof fn vote_request_keeps_inv(
    h: History,
    id: NodeId,
    e: Envelope,
    req: crate::message::VoteRequest,
)
    requires
        h.inv(),
        h.cluster.can(id, Event::VoteRequest(req)),
        h.cluster.after(id, Event::VoteRequest(req)).inv(),
        h.cluster.sent.contains(e),
        e.message == MessageView::VoteRequest(req),
    ensures
        h.after(id, Event::VoteRequest(req)).inv(),
        crate::growth::grows(h, h.after(id, Event::VoteRequest(req))),
{
    let event = Event::VoteRequest(req);
    let next = h.after(id, event);
    event_is_framed(h, id, event);
    whole_log_stays(h, id);
    assert(h.node_ok(id));
    assert(h.message_ok(e));
    assert(req.candidate_id == e.from);
    let before = h.node(id);
    let after = next.node(id);
    if after.role == Role::Leader {
        assert(h.leader_ok(id));
        assert(next.accepted == h.accepted.insert((id, after.term()), h.logs[id].len()));
        assert(next.accepted =~= h.accepted);
    }
    assert(crate::induction::shifted(h, next, id, Shift::Stay));
    assert(crate::induction::recast(h, next, id, Shift::Stay)) by {
        if after.role == Role::Candidate {
            assert(h.candidate_ok(id));
        }
    }
    assert(crate::induction::voted(h, next, id)) by {
        assert forall|c: NodeId|
            #![trigger next.stood_with[(c, after.term())]]
            after.persistent.voted_for == Some(c) && !h.cluster.has_ballot(
                id,
                after.term(),
                c,
            ) implies {
            &&& next.stood_with.contains_key((c, after.term()))
            &&& h.traced(next.stood_with[(c, after.term())])
            &&& crate::history::term_of(
                next.stood_with[(c, after.term())],
                next.stood_with[(c, after.term())].len() as int,
            ) < after.term()
            &&& crate::history::no_newer(h.logs[id], next.stood_with[(c, after.term())])
        } by {
            let observed = before.observe_term(req.term).0;
            if observed.grants(req) {
                assert(after.term() == req.term);
                assert(c == req.candidate_id);
                assert(h.stood_with.contains_key((c, req.term)));
            } else {
                assert(before.persistent.voted_for == Some(c));
                assert(after.term() == before.term());
                assert(h.cluster.has_ballot(id, before.term(), c));
            }
        }
    }
    assert(crate::induction::recommitted(h, next, id));
    assert forall|m: Envelope| #[trigger] next.cluster.sent.contains(m) implies
        h.cluster.sent.contains(m) || next.message_ok(m) by {
        if !h.cluster.sent.contains(m) {
            let actions = before.on(event).1;
            only_message(id, actions.messages[0].0, actions.messages[0].1, m);
        }
    }
    crate::induction::framed_event_keeps_inv(h, next, id, Shift::Stay);
}

/// What always holds is kept where the node's log, commit index and vote stay, it
/// does not rise to a new role, and what it sends is true.
proof fn unmoved_node_keeps_inv(h: History, next: History, id: NodeId)
    requires
        crate::induction::framed(h, next, id),
        ({
            let before = h.node(id);
            let after = next.node(id);
            &&& after.wf()
            &&& after.role == Role::Follower || (after.role == before.role && after.term()
                == before.term() && (after.role == Role::Leader ==> after.leader_state
                == before.leader_state))
            &&& next.logs[id] == h.logs[id]
            &&& after.log() == before.log()
            &&& after.volatile == before.volatile
            &&& after.persistent.voted_for is None || (after.persistent.voted_for
                == before.persistent.voted_for && after.term() == before.term())
            &&& if after.role == Role::Leader {
                next.accepted == h.accepted.insert((id, after.term()), h.logs[id].len())
            } else {
                next.accepted == h.accepted
            }
        }),
        forall|m: Envelope| #[trigger]
            next.cluster.sent.contains(m) ==> h.cluster.sent.contains(m) || next.message_ok(m),
    ensures
        next.inv(),
        crate::growth::grows(h, next),
{
    whole_log_stays(h, id);
    assert(h.node_ok(id));
    let after = next.node(id);
    if after.role == Role::Leader {
        assert(h.leader_ok(id));
        assert(next.accepted =~= h.accepted);
    }
    assert(crate::induction::shifted(h, next, id, Shift::Stay));
    assert(crate::induction::recast(h, next, id, Shift::Stay)) by {
        if after.role == Role::Candidate {
            assert(h.candidate_ok(id));
        }
    }
    vote_is_old(h, next, id);
    assert(crate::induction::recommitted(h, next, id));
    crate::induction::framed_event_keeps_inv(h, next, id, Shift::Stay);
}

/// The same of an event that sends nothing.
proof fn quiet_event_keeps_inv(h: History, id: NodeId, event: Event)
    requires
        h.inv(),
        h.cluster.can(id, event),
        h.cluster.after(id, event).inv(),
        !(event is AppendEntries || event is InstallSnapshot),
        ({
            let before = h.node(id);
            let (after, actions) = before.on(event);
            &&& after.role == Role::Follower || (after.role == before.role && after.term()
                == before.term() && (after.role == Role::Leader ==> after.leader_state
                == before.leader_state))
            &&& after.log() == before.log()
            &&& after.volatile == before.volatile
            &&& after.persistent.voted_for is None || (after.persistent.voted_for
                == before.persistent.voted_for && after.term() == before.term())
            &&& actions.messages.len() == 0
        }),
    ensures
        h.after(id, event).inv(),
        crate::growth::grows(h, h.after(id, event)),
{
    let next = h.after(id, event);
    event_is_framed(h, id, event);
    whole_log_stays(h, id);
    assert forall|m: Envelope| #[trigger] next.cluster.sent.contains(m) implies
        h.cluster.sent.contains(m) || next.message_ok(m) by {
        if !h.cluster.sent.contains(m) {
            assert(h.node(id).on(event).1.messages =~= Seq::empty());
            no_message(id, m);
        }
    }
    unmoved_node_keeps_inv(h, next, id);
}

/// No vote is cast where the vote and the term stay, or the vote is withdrawn.
proof fn vote_is_old(h: History, next: History, id: NodeId)
    requires
        crate::induction::framed(h, next, id),
        next.node(id).persistent.voted_for is None || (next.node(id).persistent.voted_for == h.node(
            id,
        ).persistent.voted_for && next.node(id).term() == h.node(id).term()),
    ensures
        crate::induction::voted(h, next, id),
{
    let term = next.node(id).term();
    assert forall|c: NodeId|
        #![trigger next.stood_with[(c, term)]]
        next.node(id).persistent.voted_for == Some(c) && !h.cluster.has_ballot(
            id,
            term,
            c,
        ) implies {
        &&& next.stood_with.contains_key((c, term))
        &&& h.traced(next.stood_with[(c, term)])
        &&& crate::history::term_of(next.stood_with[(c, term)], next.stood_with[(c, term)].len() as int) < term
        &&& crate::history::no_newer(h.logs[id], next.stood_with[(c, term)])
    } by {
        assert(h.has(id));
        assert(h.cluster.nodes.contains_key(id));
        assert(h.cluster.has_ballot(id, term, c));
    }
}

/// What a leader makes of its log: nothing, or one entry more.
spec fn leader_log(before: NodeView, after: NodeView, entry: Option<LogEntry>) -> bool {
    match entry {
        Some(e) => {
            &&& after.log() == before.log().push(e)
            &&& e.term == before.term()
            &&& e.index == before.log().last_index() + 1
        },
        None => after.log() == before.log(),
    }
}

/// What always holds is kept by an event at a leader that goes on leading.
#[verifier::spinoff_prover]
proof fn leading_event_keeps_inv(h: History, id: NodeId, event: Event, entry: Option<LogEntry>)
    requires
        h.inv(),
        h.cluster.can(id, event),
        h.cluster.after(id, event).inv(),
        event is Tick || event is AppendEntriesResponse || event is InstallSnapshotResponse
            || event is ClientRequest,
        h.node(id).role == Role::Leader,
        ({
            let before = h.node(id);
            let (after, actions) = before.on(event);
            let term = before.term();
            &&& after.role == Role::Leader
            &&& after.term() == term
            &&& after.persistent.voted_for == before.persistent.voted_for
            &&& after.id == before.id && after.peers == before.peers && after.config
                == before.config
            &&& leader_log(before, after, entry)
            &&& after.leader_state is Some
            &&& forall|p: NodeId|
                p != id && #[trigger] after.leader_state->0.match_index.contains_key(p)
                    ==> after.leader_state->0.match_index[p] <= h.accepts_up_to(p, term)
            &&& forall|p: NodeId| #[trigger]
                after.leader_state->0.next_index.contains_key(p)
                    ==> after.leader_state->0.next_index[p] <= after.log().last_index() + 1
            &&& after.volatile.commit_index == before.volatile.commit_index || (
            after.volatile.commit_index > before.volatile.commit_index
                && after.volatile.commit_index <= after.log().last_index() && after.committable(
                after.volatile.commit_index as int,
            ))
            &&& actions.messages == after.replicate().messages || actions.messages.len() == 0
        }),
    ensures
        h.after(id, event).inv(),
        crate::growth::grows(h, h.after(id, event)),
{
    let next = h.after(id, event);
    event_is_framed(h, id, event);
    whole_log_stays(h, id);
    assert(h.node_ok(id));
    assert(h.leader_ok(id));
    let before = h.node(id);
    let after = next.node(id);
    let term = before.term();
    let whole = h.logs[id];
    let log = next.logs[id];
    let shift = match entry {
        Some(e) => Shift::Push(e),
        None => Shift::Stay,
    };
    let base = before.log().snapshot_index as int;
    assert(log == whole.take(base) + after.log().entries);
    if let Some(e) = entry {
        assert(log =~= whole.push(e));
        assert(after.log().entries =~= log.skip(base));
        assert(crate::history::term_of(log, base) == crate::history::term_of(whole, base));
    }
    assert(crate::induction::shifted(h, next, id, shift));
    assert(crate::induction::recast(h, next, id, shift)) by {
        assert forall|p: NodeId|
            p != id && #[trigger] after.leader_state->0.match_index.contains_key(p) implies
            after.leader_state->0.match_index[p] <= next.accepts_up_to(p, term) by {
            assert(next.accepts_up_to(p, term) == h.accepts_up_to(p, term));
        }
    }
    vote_is_old(h, next, id);
    crate::induction::event_grows(h, next, id, shift);
    assert(crate::induction::leads(next, id)) by {
        assert(h.reign_ok(term));
        assert(next.has(id));
        crate::induction::reigns_stay_ok(h, next, id, shift, term);
    }
    assert(crate::induction::recommitted(h, next, id)) by {
        let commit = after.volatile.commit_index as int;
        if commit != before.volatile.commit_index {
            assert forall|p: NodeId, t: u64| #[trigger]
                next.accepted.contains_key((p, t)) implies next.cluster.nodes.contains_key(p) by {
                if !(p == id && t == term) {
                    assert(h.accepted.contains_key((p, t)));
                    assert(h.accepted_ok(p, t));
                    assert(h.has(p));
                }
            }
            crate::induction::majority_chooses(next, id, after, commit);
            assert(next.starts(log.take(commit), term, commit));
        }
    }
    crate::induction::moved_node_is_ok(h, next, id, shift);
    assert forall|m: Envelope| #[trigger] next.cluster.sent.contains(m) implies
        h.cluster.sent.contains(m) || next.message_ok(m) by {
        if !h.cluster.sent.contains(m) {
            let messages = before.on(event).1.messages;
            if messages.len() == 0 {
                assert(messages =~= Seq::empty());
                no_message(id, m);
            } else {
                crate::induction::leader_requests_are_ok(next, id, after, m);
            }
        }
    }
    crate::induction::framed_event_keeps_inv(h, next, id, shift);
}

/// A leader commits nothing, or what a majority holds of its own term.
pub(crate) proof fn advance_is_committable(node: NodeView)
    requires
        node.leader_state is Some,
        node.log().wf(),
    ensures
        ({
            let after = node.advance_commit().0;
            let commit = after.volatile.commit_index;
            &&& after == node.with_commit(commit as int)
            &&& commit == node.volatile.commit_index || (commit > node.volatile.commit_index
                && commit <= after.log().last_index() && after.committable(commit as int))
        }),
{
    let commit = node.volatile.commit_index as int;
    let last = node.log().last_index();
    let target = node.commit_target();
    if commit <= last {
        crate::log::highest_is_highest(|n: int| node.committable(n), commit, last);
    }
    if node.log().entries.len() > 0 {
        let i = node.log().entries.len() - 1;
        assert(node.log().entries[i].index == node.log().snapshot_index + 1 + i);
    }
    assert(commit <= target <= u64::MAX);
    let after = node.advance_commit().0;
    if target > commit {
        assert(node.committable(target));
        assert(after.committable(target) == node.committable(target));
    }
}

#[verifier::spinoff_prover]
proof fn tick_keeps_inv(h: History, id: NodeId)
    requires
        h.inv(),
        h.cluster.can(id, Event::Tick),
        h.cluster.after(id, Event::Tick).inv(),
    ensures
        h.after(id, Event::Tick).inv(),
        crate::growth::grows(h, h.after(id, Event::Tick)),
{
    let before = h.node(id);
    assert(h.has(id));
    assert(h.node_ok(id));
    whole_log_stays(h, id);
    if before.role == Role::Leader {
        assert(h.leader_ok(id));
        let started = before.round_started();
        assert(started.leader_state->0.match_index == before.leader_state->0.match_index);
        assert(started.leader_state->0.next_index == before.leader_state->0.next_index);
        if before.peers.len() == 0 {
            advance_is_committable(started);
        }
        leading_event_keeps_inv(h, id, Event::Tick, None);
    } else {
        quiet_event_keeps_inv(h, id, Event::Tick);
    }
}

#[verifier::spinoff_prover]
proof fn append_response_keeps_inv(
    h: History,
    id: NodeId,
    e: Envelope,
    resp: crate::message::AppendEntriesResponse,
)
    requires
        h.inv(),
        h.cluster.can(id, Event::AppendEntriesResponse(e.from, resp)),
        h.cluster.after(id, Event::AppendEntriesResponse(e.from, resp)).inv(),
        h.cluster.sent.contains(e),
        e.message == MessageView::AppendEntriesResponse(resp),
    ensures
        h.after(id, Event::AppendEntriesResponse(e.from, resp)).inv(),
        crate::growth::grows(h, h.after(id, Event::AppendEntriesResponse(e.from, resp))),
{
    let event = Event::AppendEntriesResponse(e.from, resp);
    let before = h.node(id);
    assert(h.has(id));
    assert(h.node_ok(id));
    whole_log_stays(h, id);
    assert(h.message_ok(e));
    if before.role == Role::Leader && resp.term <= before.term() {
        assert(h.leader_ok(id));
        let known = before.after_answer(e.from, resp);
        answer_leaves_leader_ok(h, id, e, resp);
        advance_is_committable(NodeView { leader_state: Some(known), ..before });
        leading_event_keeps_inv(h, id, event, None);
    } else {
        quiet_event_keeps_inv(h, id, event);
    }
}

/// What a leader knows of its peers after an answer is true.
#[verifier::spinoff_prover]
proof fn answer_leaves_leader_ok(
    h: History,
    id: NodeId,
    e: Envelope,
    resp: crate::message::AppendEntriesResponse,
)
    requires
        h.inv(),
        h.has(id),
        h.node(id).role == Role::Leader,
        h.node(id).log().last_index() < u64::MAX,
        resp.term <= h.node(id).term(),
        h.message_ok(e),
        e.message == MessageView::AppendEntriesResponse(resp),
    ensures
        ({
            let node = h.node(id);
            let known = node.after_answer(e.from, resp);
            &&& forall|p: NodeId|
                p != id && #[trigger] known.match_index.contains_key(p) ==> known.match_index[p]
                    <= h.accepts_up_to(p, node.term())
            &&& forall|p: NodeId| #[trigger]
                known.next_index.contains_key(p) ==> known.next_index[p] <= node.log().last_index()
                    + 1
        }),
{
    let node = h.node(id);
    let state = node.leader_state->0;
    let known = node.after_answer(e.from, resp);
    assert(h.node_ok(id));
    assert(h.leader_ok(id));
    whole_log_stays(h, id);
    assert(h.reign_ok(node.term()));
    assert forall|p: NodeId| p != id && #[trigger] known.match_index.contains_key(p) implies
        known.match_index[p] <= h.accepts_up_to(p, node.term()) by {
        if p != e.from {
            assert(state.match_index.contains_key(p));
        } else if state.match_index.contains_key(p) {
            assert(state.match_index[p] <= h.accepts_up_to(p, node.term()));
        }
    }
    assert forall|p: NodeId| #[trigger] known.next_index.contains_key(p) implies
        known.next_index[p] <= node.log().last_index() + 1 by {
        next_after_answer_is_in_log(h, id, e, resp, p);
    }
}

#[verifier::spinoff_prover]
proof fn next_after_answer_is_in_log(
    h: History,
    id: NodeId,
    e: Envelope,
    resp: crate::message::AppendEntriesResponse,
    p: NodeId,
)
    requires
        h.leader_ok(id),
        h.node(id).wf(),
        h.node(id).role == Role::Leader,
        1 <= h.node(id).log().last_index() < u64::MAX,
        h.node(id).log().last_index() == h.logs[id].len(),
        resp.term <= h.node(id).term(),
        h.message_ok(e),
        e.message == MessageView::AppendEntriesResponse(resp),
        h.node(id).after_answer(e.from, resp).next_index.contains_key(p),
    ensures
        h.node(id).after_answer(e.from, resp).next_index[p] <= h.node(id).log().last_index() + 1,
{
    let node = h.node(id);
    let state = node.leader_state->0;
    if p != e.from || !node.peers.contains(p) {
        assert(state.next_index.contains_key(p));
    } else {
        assert(state.next_index.contains_key(p));
        if !resp.success {
            if resp.term == node.term() {
                backtrack_stays_in_log(node, p, resp);
            } else {
                backtrack_is_natural(node, p, resp);
            }
        }
    }
}

proof fn backtrack_is_natural(
    node: NodeView,
    from: NodeId,
    resp: crate::message::AppendEntriesResponse,
)
    ensures
        node.backtrack(from, resp) >= 0,
{
    if resp.conflict_index is Some && resp.conflict_term is Some && node.log().last_index() >= 0 {
        crate::log::highest_is_highest(
            |i: int| node.log().term_at(i) == resp.conflict_term->0,
            0,
            node.log().last_index(),
        );
    }
}

proof fn backtrack_stays_in_log(
    node: NodeView,
    from: NodeId,
    resp: crate::message::AppendEntriesResponse,
)
    requires
        node.log().last_index() >= 1,
        resp.conflict_index is Some && resp.conflict_term is Some ==> resp.conflict_index->0
            <= node.log().last_index(),
        resp.conflict_index is None || resp.conflict_term is None
            ==> node.leader_state->0.next_index[from] <= node.log().last_index() + 1,
    ensures
        0 <= node.backtrack(from, resp) <= node.log().last_index() + 1,
{
    if resp.conflict_index is Some && resp.conflict_term is Some {
        crate::log::highest_is_highest(
            |i: int| node.log().term_at(i) == resp.conflict_term->0,
            0,
            node.log().last_index(),
        );
    }
}

#[verifier::spinoff_prover]
proof fn snapshot_response_keeps_inv(
    h: History,
    id: NodeId,
    from: NodeId,
    resp: crate::message::InstallSnapshotResponse,
)
    requires
        h.inv(),
        h.cluster.can(id, Event::InstallSnapshotResponse(from, resp)),
        h.cluster.after(id, Event::InstallSnapshotResponse(from, resp)).inv(),
    ensures
        h.after(id, Event::InstallSnapshotResponse(from, resp)).inv(),
        crate::growth::grows(h, h.after(id, Event::InstallSnapshotResponse(from, resp))),
{
    let event = Event::InstallSnapshotResponse(from, resp);
    let before = h.node(id);
    assert(h.has(id));
    assert(h.node_ok(id));
    whole_log_stays(h, id);
    if before.role == Role::Leader && resp.term <= before.term() {
        assert(h.leader_ok(id));
        leading_event_keeps_inv(h, id, event, None);
    } else {
        quiet_event_keeps_inv(h, id, event);
    }
}

proof fn client_request_keeps_inv(h: History, id: NodeId, req: crate::message::ClientRequest)
    requires
        h.inv(),
        h.cluster.can(id, Event::ClientRequest(req)),
        h.cluster.after(id, Event::ClientRequest(req)).inv(),
    ensures
        h.after(id, Event::ClientRequest(req)).inv(),
        crate::growth::grows(h, h.after(id, Event::ClientRequest(req))),
{
    assert(h.has(id));
    if h.node(id).role != Role::Leader {
        quiet_event_keeps_inv(h, id, Event::ClientRequest(req));
    } else {
        match req.operation {
            crate::message::ClientOperation::Get { .. } => {
                read_keeps_inv(h, id, req);
            },
            crate::message::ClientOperation::Put { key, value } => {
                let command = crate::message::Command::Put { key, value };
                append_keeps_inv(h, id, req, command);
            },
            crate::message::ClientOperation::Delete { key } => {
                let command = crate::message::Command::Delete { key };
                append_keeps_inv(h, id, req, command);
            },
        }
    }
}

#[verifier::spinoff_prover]
proof fn read_keeps_inv(h: History, id: NodeId, req: crate::message::ClientRequest)
    requires
        h.inv(),
        h.cluster.can(id, Event::ClientRequest(req)),
        h.cluster.after(id, Event::ClientRequest(req)).inv(),
        h.node(id).role == Role::Leader,
        req.operation is Get,
    ensures
        h.after(id, Event::ClientRequest(req)).inv(),
        crate::growth::grows(h, h.after(id, Event::ClientRequest(req))),
{
    let before = h.node(id);
    assert(h.has(id));
    assert(h.node_ok(id));
    assert(h.leader_ok(id));
    whole_log_stays(h, id);
    let started = before.round_started();
    assert(started.leader_state->0.match_index == before.leader_state->0.match_index);
    assert(started.leader_state->0.next_index == before.leader_state->0.next_index);
    leading_event_keeps_inv(h, id, Event::ClientRequest(req), None);
}

/// What a leader becomes when it appends a command.
#[verifier::spinoff_prover]
proof fn append_goes_on(node: NodeView, command: crate::message::Command)
    requires
        node.wf(),
        node.role == Role::Leader,
        node.log().last_index() < u64::MAX,
    ensures
        ({
            let (after, actions) = node.append_and_replicate(command);
            let state = node.leader_state->0;
            let known = after.leader_state->0;
            let entry = LogEntry {
                term: node.term(),
                index: (node.log().last_index() + 1) as u64,
                command,
            };
            &&& after.role == Role::Leader
            &&& after.persistent.current_term == node.persistent.current_term
            &&& after.persistent.voted_for == node.persistent.voted_for
            &&& after.id == node.id && after.peers == node.peers && after.config == node.config
            &&& after.log() == node.log().push(entry)
            &&& after.log().last_index() == node.log().last_index() + 1
            &&& after.leader_state is Some
            &&& known.next_index == state.next_index
            &&& known.match_index == state.match_index.insert(node.id, entry.index)
            &&& after.volatile.commit_index == node.volatile.commit_index || (
            after.volatile.commit_index > node.volatile.commit_index
                && after.volatile.commit_index <= after.log().last_index() && after.committable(
                after.volatile.commit_index as int,
            ))
            &&& actions.messages == after.replicate().messages || actions.messages.len() == 0
        }),
{
    let appended = node.with_command(command);
    assert(appended.log().wf()) by {
        assert forall|i: int| 0 <= i < appended.log().entries.len() implies (#[trigger]
        appended.log().entries[i]).index == appended.log().snapshot_index + 1 + i by {
            if i < node.log().entries.len() {
                assert(appended.log().entries[i] == node.log().entries[i]);
            }
        }
    }
    if node.peers.len() == 0 {
        advance_is_committable(appended);
    }
}

#[verifier::spinoff_prover]
proof fn append_keeps_inv(
    h: History,
    id: NodeId,
    req: crate::message::ClientRequest,
    command: crate::message::Command,
)
    requires
        h.inv(),
        h.cluster.can(id, Event::ClientRequest(req)),
        h.cluster.after(id, Event::ClientRequest(req)).inv(),
        h.node(id).role == Role::Leader,
        !(req.operation is Get),
        h.node(id).on(Event::ClientRequest(req)) == h.node(id).append_and_replicate(command),
    ensures
        h.after(id, Event::ClientRequest(req)).inv(),
        crate::growth::grows(h, h.after(id, Event::ClientRequest(req))),
{
    let event = Event::ClientRequest(req);
    let before = h.node(id);
    assert(h.has(id));
    assert(h.node_ok(id));
    assert(h.leader_ok(id));
    whole_log_stays(h, id);
    append_goes_on(before, command);
    let entry = LogEntry {
        term: before.term(),
        index: (before.log().last_index() + 1) as u64,
        command,
    };
    let known = before.on(event).0.leader_state->0;
    assert forall|p: NodeId| p != id && #[trigger] known.match_index.contains_key(p) implies
        known.match_index[p] <= h.accepts_up_to(p, before.term()) by {
        assert(before.leader_state->0.match_index.contains_key(p));
    }
    assert forall|p: NodeId| #[trigger] known.next_index.contains_key(p) implies
        known.next_index[p] <= before.log().last_index() + 2 by {
        assert(before.leader_state->0.next_index.contains_key(p));
    }
    leading_event_keeps_inv(h, id, event, Some(entry));
}

// ── Elections ──────────────────────────────────────────────────────────────

/// What always holds is kept when a node becomes leader.
#[verifier::spinoff_prover]
proof fn winning_keeps_inv(h: History, id: NodeId, event: Event, candidate: NodeView)
    requires
        h.inv(),
        h.cluster.can(id, event),
        h.cluster.after(id, event).inv(),
        event is VoteResponse || event is ElectionTimeout,
        h.node(id).on(event) == candidate.become_leader(),
        candidate.log() == h.node(id).log(),
        candidate.volatile == h.node(id).volatile,
        candidate.peers == h.node(id).peers,
        candidate.id == id,
        candidate.config == h.node(id).config,
        candidate.log().last_index() < u64::MAX,
        !h.has_led(candidate.term()),
        crate::history::term_of(h.logs[id], h.logs[id].len() as int) < candidate.term(),
        h.after(id, event).stood_with.contains_key((id, candidate.term())),
        h.after(id, event).stood_with[(id, candidate.term())] == h.logs[id],
        crate::induction::voted(h, h.after(id, event), id),
    ensures
        h.after(id, event).inv(),
        crate::growth::grows(h, h.after(id, event)),
{
    let next = h.after(id, event);
    event_is_framed(h, id, event);
    whole_log_stays(h, id);
    assert(h.node_ok(id));
    let before = h.node(id);
    let after = next.node(id);
    let term = candidate.term();
    let whole = h.logs[id];
    let log = next.logs[id];
    let entry = candidate.noop();
    let shift = Shift::Push(entry);
    let base = before.log().snapshot_index as int;
    assert(log == whole.take(base) + after.log().entries);
    assert(log =~= whole.push(entry));
    assert(after.log().entries =~= log.skip(base));
    assert(crate::history::term_of(log, base) == crate::history::term_of(whole, base));
    assert(crate::induction::shifted(h, next, id, shift));
    assert(crate::induction::recast(h, next, id, shift));
    crate::induction::event_grows(h, next, id, shift);
    crate::induction::new_reign_is_ok(h, next, id, shift);
    assert(crate::induction::recommitted(h, next, id));
    crate::induction::moved_node_is_ok(h, next, id, shift);
    assert(crate::induction::leads(next, id)) by {
        assert(next.has(id));
    }
    assert forall|m: Envelope| #[trigger] next.cluster.sent.contains(m) implies
        h.cluster.sent.contains(m) || next.message_ok(m) by {
        if !h.cluster.sent.contains(m) {
            crate::induction::leader_requests_are_ok(next, id, after, m);
        }
    }
    crate::induction::framed_event_keeps_inv(h, next, id, shift);
}

#[verifier::spinoff_prover]
proof fn vote_response_keeps_inv(
    h: History,
    id: NodeId,
    from: NodeId,
    resp: crate::message::VoteResponse,
)
    requires
        h.inv(),
        h.cluster.can(id, Event::VoteResponse(from, resp)),
        h.cluster.after(id, Event::VoteResponse(from, resp)).inv(),
    ensures
        h.after(id, Event::VoteResponse(from, resp)).inv(),
        crate::growth::grows(h, h.after(id, Event::VoteResponse(from, resp))),
{
    let event = Event::VoteResponse(from, resp);
    let next = h.after(id, event);
    let before = h.node(id);
    let after = before.on(event).0;
    assert(h.has(id));
    assert(h.node_ok(id));
    whole_log_stays(h, id);
    if before.role == Role::Leader && resp.term <= before.term() {
        quiet_event_keeps_inv(h, id, event);
    } else if after.role == Role::Leader {
        assert(before.role == Role::Candidate);
        assert(h.candidate_ok(id));
        let candidate = NodeView { leader_state: Some(before.tally(from)), ..before };
        let term = before.term();
        event_is_framed(h, id, event);
        assert(!h.has_led(term)) by {
            if h.has_led(term) {
                assert(h.reign_ok(term));
                let chief = h.chiefs[term];
                assert(next.cluster.leaders.contains((term, chief)));
                assert(next.cluster.leaders.contains((term, id)));
                crate::cluster::one_leader_per_term(next.cluster, term, chief, id);
            }
        }
        // A candidate has voted for itself.
        assert(h.cluster.nodes.contains_key(id));
        assert(before.persistent.voted_for == Some(id));
        assert(h.cluster.has_ballot(id, term, id));
        assert(h.ballot_ok(id, term, id));
        vote_is_old(h, next, id);
        winning_keeps_inv(h, id, event, candidate);
    } else {
        quiet_event_keeps_inv(h, id, event);
    }
}

/// A node that stands for election votes for itself, and its log is no older than
/// itself.
proof fn own_vote_is_right(h: History, id: NodeId)
    requires
        h.inv(),
        h.cluster.can(id, Event::ElectionTimeout),
        h.cluster.after(id, Event::ElectionTimeout).inv(),
        h.node(id).role != Role::Leader,
    ensures
        crate::induction::voted(h, h.after(id, Event::ElectionTimeout), id),
{
    let next = h.after(id, Event::ElectionTimeout);
    event_is_framed(h, id, Event::ElectionTimeout);
    assert(h.node_ok(id));
    let after = next.node(id);
    assert(after.persistent.voted_for == Some(id));
    assert(next.stood_with[(id, after.term())] == h.logs[id]);
}

#[verifier::spinoff_prover]
proof fn election_timeout_keeps_inv(h: History, id: NodeId)
    requires
        h.inv(),
        h.cluster.can(id, Event::ElectionTimeout),
        h.cluster.after(id, Event::ElectionTimeout).inv(),
    ensures
        h.after(id, Event::ElectionTimeout).inv(),
        crate::growth::grows(h, h.after(id, Event::ElectionTimeout)),
{
    let event = Event::ElectionTimeout;
    let next = h.after(id, event);
    let before = h.node(id);
    assert(h.has(id));
    assert(h.node_ok(id));
    whole_log_stays(h, id);
    if before.role == Role::Leader {
        quiet_event_keeps_inv(h, id, event);
    } else {
        own_vote_is_right(h, id);
        event_is_framed(h, id, event);
        let candidate = before.candidacy();
        let term = candidate.term();
        if before.peers.len() == 0 {
            assert(!h.has_led(term)) by {
                if h.has_led(term) {
                    assert(h.reign_ok(term));
                    let chief = h.chiefs[term];
                    if chief != id {
                        assert(h.cluster.nodes.dom().remove(id).contains(chief));
                        assert(before.peers.to_set().contains(chief));
                    }
                }
            }
            winning_keeps_inv(h, id, event, candidate);
        } else {
            let after = next.node(id);
            assert(after == candidate);
            assert(crate::induction::shifted(h, next, id, Shift::Stay));
            assert(crate::induction::recast(h, next, id, Shift::Stay));
            assert(crate::induction::recommitted(h, next, id));
            crate::induction::event_grows(h, next, id, Shift::Stay);
            crate::growth::traces_are_kept(h, next, h.logs[id]);
            assert forall|m: Envelope| #[trigger] next.cluster.sent.contains(m) implies
                h.cluster.sent.contains(m) || next.message_ok(m) by {
                if !h.cluster.sent.contains(m) {
                    vote_requests_are_alike(before, id, m);
                }
            }
            crate::induction::framed_event_keeps_inv(h, next, id, Shift::Stay);
        }
    }
}

proof fn vote_requests_are_alike(node: NodeView, id: NodeId, e: Envelope)
    requires
        node.role != Role::Leader,
        node.peers.len() > 0,
        Cluster::envelopes(id, node.election_timeout().1.messages).contains(e),
    ensures
        e.from == id,
        e.message == MessageView::VoteRequest(node.candidacy().vote_request()),
{
    let messages = node.election_timeout().1.messages;
    let sent = messages.map_values(
        |m: (NodeId, MessageView)| Envelope { from: id, to: m.0, message: m.1 },
    );
    assert(sent.to_set().contains(e));
    let i = choose|i: int| 0 <= i < sent.len() && sent[i] == e;
    assert(messages[i].1 == MessageView::VoteRequest(node.candidacy().vote_request()));
}

// ── Requests of a leader ───────────────────────────────────────────────────

/// What always holds is kept by a request that leaves the log alone, if the one
/// answer to it is true.
#[verifier::spinoff_prover]
proof fn answered_event_keeps_inv(h: History, id: NodeId, event: Event)
    requires
        h.inv(),
        h.cluster.can(id, event),
        h.cluster.after(id, event).inv(),
        event is AppendEntries || event is InstallSnapshot,
        ({
            let before = h.node(id);
            let (after, actions) = before.on(event);
            &&& after.role == Role::Follower || (after.role == before.role && after.term()
                == before.term() && after.leader_state == before.leader_state)
            &&& h.log_after(id, event) == h.logs[id]
            &&& after.log() == before.log()
            &&& after.volatile == before.volatile
            &&& after.persistent.voted_for is None || (after.persistent.voted_for
                == before.persistent.voted_for && after.term() == before.term())
            &&& event matches Event::AppendEntries(req) ==> !before.accepts(req)
            &&& actions.messages.len() == 1
            &&& h.after(id, event).message_ok(
                Envelope { from: id, to: actions.messages[0].0, message: actions.messages[0].1 },
            )
        }),
    ensures
        h.after(id, event).inv(),
        crate::growth::grows(h, h.after(id, event)),
{
    let next = h.after(id, event);
    event_is_framed(h, id, event);
    let messages = h.node(id).on(event).1.messages;
    assert forall|m: Envelope| #[trigger] next.cluster.sent.contains(m) implies
        h.cluster.sent.contains(m) || next.message_ok(m) by {
        if !h.cluster.sent.contains(m) {
            assert(messages =~= seq![(messages[0].0, messages[0].1)]);
            only_message(id, messages[0].0, messages[0].1, m);
        }
    }
    unmoved_node_keeps_inv(h, next, id);
}

proof fn append_entries_keeps_inv(h: History, id: NodeId, e: Envelope, req: AppendEntriesView)
    requires
        h.inv(),
        h.cluster.can(id, Event::AppendEntries(req)),
        h.cluster.after(id, Event::AppendEntries(req)).inv(),
        h.cluster.sent.contains(e),
        e.message == MessageView::AppendEntriesRequest(req),
    ensures
        h.after(id, Event::AppendEntries(req)).inv(),
        crate::growth::grows(h, h.after(id, Event::AppendEntries(req))),
{
    assert(h.has(id));
    if h.node(id).accepts(req) {
        accepting_keeps_inv(h, id, e, req);
    } else {
        refusing_keeps_inv(h, id, e, req);
    }
}

#[verifier::spinoff_prover]
proof fn refusing_keeps_inv(h: History, id: NodeId, e: Envelope, req: AppendEntriesView)
    requires
        h.inv(),
        h.cluster.can(id, Event::AppendEntries(req)),
        h.cluster.after(id, Event::AppendEntries(req)).inv(),
        h.cluster.sent.contains(e),
        e.message == MessageView::AppendEntriesRequest(req),
        !h.node(id).accepts(req),
    ensures
        h.after(id, Event::AppendEntries(req)).inv(),
        crate::growth::grows(h, h.after(id, Event::AppendEntries(req))),
{
    let event = Event::AppendEntries(req);
    let before = h.node(id);
    assert(h.has(id));
    assert(h.node_ok(id));
    assert(h.message_ok(e));
    whole_log_stays(h, id);
    let (after, actions) = before.handle_append_entries(req);
    assert(before.on(event) == (after, actions));
    assert(after.log() == before.log());
    let answer = Envelope {
        from: id,
        to: actions.messages[0].0,
        message: actions.messages[0].1,
    };
    refusal_is_true(h, id, e, req);
    answered_event_keeps_inv(h, id, event);
}

/// The hint that goes with a refusal lies within the leader's log.
#[verifier::spinoff_prover]
proof fn refusal_is_true(h: History, id: NodeId, e: Envelope, req: AppendEntriesView)
    requires
        h.inv(),
        h.cluster.can(id, Event::AppendEntries(req)),
        h.message_ok(e),
        e.message == MessageView::AppendEntriesRequest(req),
        !h.node(id).accepts(req),
    ensures
        ({
            let messages = h.node(id).handle_append_entries(req).1.messages;
            &&& messages.len() == 1
            &&& messages[0].1 matches MessageView::AppendEntriesResponse(resp) && {
                &&& !resp.success
                &&& resp.conflict_index is Some && resp.conflict_term is Some ==> resp.term
                    == req.term && resp.conflict_index->0 <= h.leader_logs[req.term].len()
            }
        }),
        h.after(id, Event::AppendEntries(req)).message_ok(
            Envelope {
                from: id,
                to: h.node(id).handle_append_entries(req).1.messages[0].0,
                message: h.node(id).handle_append_entries(req).1.messages[0].1,
            },
        ),
{
    let before = h.node(id);
    assert(h.has(id));
    assert(h.node_ok(id));
    let prev = req.prev_log_index as int;
    if req.term >= before.term() && before.log().term_at(prev) != 0 {
        hint_is_in_range(before.log(), prev);
    }
    let next = h.after(id, Event::AppendEntries(req));
    let after = before.on(Event::AppendEntries(req)).0;
    assert(after.role != Role::Leader || (before.role == Role::Leader && after.term()
        == before.term()));
    if h.has_led(req.term) {
        assert(next.has_led(req.term));
        if after.role == Role::Leader && after.term() == req.term {
            assert(h.leader_ok(id));
            whole_log_stays(h, id);
            assert(after.log() == before.log());
        }
        assert(next.leader_logs[req.term].len() == h.leader_logs[req.term].len());
    }
}

proof fn hint_is_in_range(log: LogView, prev: int)
    requires
        prev > 0,
    ensures
        1 <= log.run_start(prev) <= prev,
{
    let differs = |i: int| log.term_at(i) != log.term_at(prev);
    crate::log::highest_is_highest(differs, 0, prev);
    assert(!differs(prev));
}

/// What a node that takes over a leader's log does.
spec fn takes_over(
    h: History,
    next: History,
    id: NodeId,
    term: u64,
    end: int,
) -> bool {
    let before = h.node(id);
    let after = next.node(id);
    &&& crate::induction::framed(h, next, id)
    &&& after.wf()
    &&& after.term() == term
    &&& before.term() <= term
    &&& after.role == Role::Follower || (after.role == before.role && after.term() == before.term()
        && after.leader_state == before.leader_state)
    &&& after.persistent.voted_for is None || (after.persistent.voted_for
        == before.persistent.voted_for && after.term() == before.term())
    &&& h.has_led(term)
    &&& 0 <= end <= h.leader_logs[term].len()
    &&& next.logs[id] == crate::history::overwritten(h.logs[id], h.start_of(term, end))
    &&& crate::takeover::tail_of(after.log(), next.logs[id])
    &&& if after.role == Role::Leader {
        next.accepted == h.accepted.insert((id, term), next.logs[id].len())
    } else {
        next.accepted == h.accepted || next.accepted == h.accepted.insert(
            (id, term),
            crate::induction::max_of(end as nat, h.accepts_up_to(id, term)),
        )
    }
}

/// What is committed at a node is not lost to a leader's log, and what the leader
/// says is settled becomes committed.
#[verifier::spinoff_prover]
proof fn taking_over_keeps_inv(
    h: History,
    next: History,
    id: NodeId,
    term: u64,
    end: int,
)
    requires
        takes_over(h, next, id, term, end),
        ({
            let commit = next.node(id).volatile.commit_index;
            &&& next.node(id).log().snapshot_index <= commit
            &&& commit == h.node(id).volatile.commit_index || (commit <= end && h.settled(
                h.start_of(term, commit as int),
                term,
            ))
        }),
        forall|m: Envelope| #[trigger]
            next.cluster.sent.contains(m) ==> h.cluster.sent.contains(m) || next.message_ok(m),
    ensures
        next.inv(),
        crate::growth::grows(h, next),
{
    let before = h.node(id);
    let after = next.node(id);
    let whole = h.logs[id];
    let log = next.logs[id];
    let source = h.start_of(term, end);
    assert(h.node_ok(id));
    assert(source.is_prefix_of(log)) by {
        assert(source =~= source.subrange(0, end));
    }
    let shift = if after.role == Role::Leader {
        Shift::Stay
    } else {
        Shift::Take(end)
    };
    if after.role == Role::Leader {
        // Only the leader of the term has a say in it.
        assert(h.leader_ok(id));
        assert(source =~= whole.subrange(0, end));
        assert(log == whole);
        assert(next.accepted =~= h.accepted);
    }
    assert(crate::induction::shifted(h, next, id, shift));
    assert(crate::induction::recast(h, next, id, shift)) by {
        if after.role == Role::Candidate {
            assert(h.candidate_ok(id));
        }
    }
    vote_is_old(h, next, id);
    crate::induction::event_grows(h, next, id, shift);
    let commit = after.volatile.commit_index as int;
    let known = whole.take(before.volatile.commit_index as int);
    crate::completeness::leaders_have_what_is_settled(h, known, before.term(), term);
    assert(known =~= whole.subrange(0, known.len() as int));
    crate::induction::common_start_stays(known, whole, h.leader_logs[term], end);
    assert(crate::induction::recommitted(h, next, id)) by {
        if commit != before.volatile.commit_index {
            assert(log.take(commit) =~= h.start_of(term, commit)) by {
                assert forall|i: int| 0 <= i < commit implies log[i] == h.start_of(
                    term,
                    commit,
                )[i] by {
                    assert(source[i] == log.subrange(0, end)[i]);
                }
            }
            crate::growth::settled_is_kept(h, next, h.start_of(term, commit), term, term);
        }
    }
    crate::induction::framed_event_keeps_inv(h, next, id, shift);
}

#[verifier::spinoff_prover]
proof fn accepting_keeps_inv(h: History, id: NodeId, e: Envelope, req: AppendEntriesView)
    requires
        h.inv(),
        h.cluster.can(id, Event::AppendEntries(req)),
        h.cluster.after(id, Event::AppendEntries(req)).inv(),
        h.cluster.sent.contains(e),
        e.message == MessageView::AppendEntriesRequest(req),
        h.node(id).accepts(req),
    ensures
        h.after(id, Event::AppendEntries(req)).inv(),
        crate::growth::grows(h, h.after(id, Event::AppendEntries(req))),
{
    let event = Event::AppendEntries(req);
    let next = h.after(id, event);
    let before = h.node(id);
    event_is_framed(h, id, event);
    assert(h.node_ok(id));
    assert(h.message_ok(e));
    crate::takeover::accepted_request_overwrites(h, id, e, req);
    let after = next.node(id);
    let term = req.term;
    let end = req.prev_log_index + req.entries.len();
    let log = next.logs[id];
    assert(after.log() == before.log().with_entries(req.entries));
    assert(after.term() == term);
    assert(log == crate::history::overwritten(h.logs[id], h.start_of(term, end)));
    assert(takes_over(h, next, id, term, end));
    assert(log.len() >= end);
    assert(after.log().last_index() == log.len());
    assert(after.volatile.commit_index == before.follow_commit(
        req.leader_commit,
        log.len() as int,
    ));
    assert forall|m: Envelope| #[trigger] next.cluster.sent.contains(m) implies
        h.cluster.sent.contains(m) || next.message_ok(m) by {
        if !h.cluster.sent.contains(m) {
            let messages = before.on(event).1.messages;
            only_message(id, messages[0].0, messages[0].1, m);
            assert(next.accepts_up_to(id, term) >= end);
        }
    }
    taking_over_keeps_inv(h, next, id, term, end);
}

#[verifier::spinoff_prover]
proof fn install_snapshot_keeps_inv(h: History, id: NodeId, e: Envelope, req: InstallSnapshotView)
    requires
        h.inv(),
        h.cluster.can(id, Event::InstallSnapshot(req)),
        h.cluster.after(id, Event::InstallSnapshot(req)).inv(),
        h.cluster.sent.contains(e),
        e.message == MessageView::InstallSnapshotRequest(req),
    ensures
        h.after(id, Event::InstallSnapshot(req)).inv(),
        crate::growth::grows(h, h.after(id, Event::InstallSnapshot(req))),
{
    let event = Event::InstallSnapshot(req);
    let next = h.after(id, event);
    let before = h.node(id);
    assert(h.has(id));
    assert(h.node_ok(id));
    assert(h.message_ok(e));
    event_is_framed(h, id, event);
    if req.term < before.term() || req.last_included_index <= before.volatile.commit_index {
        answered_event_keeps_inv(h, id, event);
    } else {
        crate::takeover::installed_snapshot_overwrites(h, id, e, req);
        let after = next.node(id);
        let index = req.last_included_index as int;
        assert(after.log() == before.log_with_snapshot(req));
        assert(next.logs[id] == crate::history::overwritten(h.logs[id], h.start_of(req.term, index)));
        assert(takes_over(h, next, id, req.term, index));
        assert forall|m: Envelope| #[trigger] next.cluster.sent.contains(m) implies
            h.cluster.sent.contains(m) || next.message_ok(m) by {
            if !h.cluster.sent.contains(m) {
                let messages = before.on(event).1.messages;
                only_message(id, messages[0].0, messages[0].1, m);
            }
        }
        taking_over_keeps_inv(h, next, id, req.term, index);
    }
}

// ── Steps ──────────────────────────────────────────────────────────────────

/// What always holds is kept by a change at one node that leaves its term, its
/// vote and its whole log alone.
#[verifier::spinoff_prover]
proof fn local_change_keeps_inv(
    h: History,
    id: NodeId,
    node: NodeView,
    sent: Set<Envelope>,
)
    requires
        h.inv(),
        h.has(id),
        ({
            let before = h.node(id);
            &&& node.wf()
            &&& node.term() == before.term()
            &&& node.persistent.voted_for == before.persistent.voted_for
            &&& node.role == Role::Follower || (node.role == before.role && node.leader_state
                == before.leader_state)
            &&& crate::takeover::tail_of(node.log(), h.logs[id])
            &&& node.log().snapshot_index <= node.volatile.commit_index
                <= before.volatile.commit_index
        }),
        (Cluster { nodes: h.cluster.nodes.insert(id, node), sent, ..h.cluster }).inv(),
        forall|m: Envelope| #[trigger]
            sent.contains(m) ==> h.cluster.sent.contains(m) || h.message_ok(m),
    ensures
        ({
            let next = History {
                cluster: Cluster { nodes: h.cluster.nodes.insert(id, node), sent, ..h.cluster },
                ..h
            };
            next.inv() && crate::growth::grows(h, next)
        }),
{
    let next = History {
        cluster: Cluster { nodes: h.cluster.nodes.insert(id, node), sent, ..h.cluster },
        ..h
    };
    assert(h.node_ok(id));
    let term = node.term();
    assert(next.cluster.nodes.dom() =~= h.cluster.nodes.dom());
    if node.role == Role::Leader {
        assert(h.leader_ok(id));
        assert(h.cluster.nodes.contains_key(id));
        assert(h.cluster.leaders.contains((term, id)));
        assert(h.cluster.leaders.insert((term, id)) =~= h.cluster.leaders);
        assert(h.leader_logs.insert(term, h.logs[id]) =~= h.leader_logs);
        assert(h.accepted.insert((id, term), h.logs[id].len()) =~= h.accepted);
    }
    assert forall|v: NodeId, t: u64, c: NodeId| #[trigger]
        next.cluster.has_ballot(v, t, c) <==> h.cluster.has_ballot(v, t, c) || (v == id && t == term
            && node.persistent.voted_for == Some(c)) by {
        if v == id && t == term && node.persistent.voted_for == Some(c) {
            assert(h.cluster.nodes.contains_key(id));
            assert(h.cluster.has_ballot(id, term, c));
        }
    }
    if node.persistent.voted_for is Some {
        assert(h.cluster.nodes.contains_key(id));
        assert(h.cluster.has_ballot(id, term, node.persistent.voted_for->0));
    }
    assert(crate::induction::framed(h, next, id));
    assert(crate::induction::shifted(h, next, id, Shift::Stay));
    assert(crate::induction::recast(h, next, id, Shift::Stay)) by {
        if node.role == Role::Candidate {
            assert(h.candidate_ok(id));
        }
    }
    vote_is_old(h, next, id);
    assert(crate::induction::recommitted(h, next, id));
    crate::induction::event_grows(h, next, id, Shift::Stay);
    assert forall|m: Envelope| #[trigger] next.cluster.sent.contains(m) implies
        h.cluster.sent.contains(m) || next.message_ok(m) by {
        if !h.cluster.sent.contains(m) {
            crate::growth::messages_stay_ok(h, next, m);
        }
    }
    crate::induction::framed_event_keeps_inv(h, next, id, Shift::Stay);
}

proof fn compaction_keeps_inv(h: History, id: NodeId, index: u64)
    requires
        h.inv(),
        h.has(id),
        index <= h.node(id).volatile.commit_index,
        (Cluster {
            nodes: h.cluster.nodes.insert(id, h.node(id).compact_log(index)),
            ..h.cluster
        }).inv(),
    ensures
        ({
            let nodes = h.cluster.nodes.insert(id, h.node(id).compact_log(index));
            let next = History { cluster: Cluster { nodes, ..h.cluster }, ..h };
            next.inv() && crate::growth::grows(h, next)
        }),
{
    let before = h.node(id);
    let node = before.compact_log(index);
    let whole = h.logs[id];
    assert(h.node_ok(id));
    whole_log_stays(h, id);
    if index > before.log().snapshot_index {
        assert(node.log().entries =~= whole.skip(index as int));
        assert(before.log().at(index as int) == whole[index - 1]);
        assert forall|i: int| 0 <= i < node.log().entries.len() implies (#[trigger]
        node.log().entries[i]).index == node.log().snapshot_index + 1 + i by {
            assert(node.log().entries[i] == before.log().entries[index - before.log().snapshot_index
                + i]);
        }
    }
    local_change_keeps_inv(h, id, node, h.cluster.sent);
}

proof fn sent_snapshot_keeps_inv(h: History, id: NodeId, to: NodeId, snapshot: InstallSnapshotView)
    requires
        h.inv(),
        h.has(id),
        h.node(id).role == Role::Leader,
        snapshot.leader_id == id,
        snapshot.term == h.node(id).term(),
        snapshot.last_included_index == h.node(id).log().snapshot_index,
        snapshot.last_included_term == h.node(id).log().snapshot_term,
        ({
            let message = MessageView::InstallSnapshotRequest(snapshot);
            let sent = h.cluster.sent.insert(Envelope { from: id, to, message });
            (Cluster { sent, ..h.cluster }).inv()
        }),
    ensures
        ({
            let message = MessageView::InstallSnapshotRequest(snapshot);
            let sent = h.cluster.sent.insert(Envelope { from: id, to, message });
            let next = History { cluster: Cluster { sent, ..h.cluster }, ..h };
            next.inv() && crate::growth::grows(h, next)
        }),
{
    let node = h.node(id);
    let e = Envelope { from: id, to, message: MessageView::InstallSnapshotRequest(snapshot) };
    let sent = h.cluster.sent.insert(e);
    assert(h.node_ok(id));
    assert(h.leader_ok(id));
    whole_log_stays(h, id);
    let base = node.log().snapshot_index as int;
    let known = h.logs[id].take(node.volatile.commit_index as int);
    assert(h.start_of(node.term(), base) =~= known.take(base));
    crate::induction::start_of_settled(h, known, known.take(base), node.term());
    assert(h.message_ok(e));
    assert(h.cluster.nodes.insert(id, node) =~= h.cluster.nodes);
    local_change_keeps_inv(h, id, node, sent);
}

/// What always holds is kept by every step.
pub(crate) proof fn inv_is_kept(h: History, next: History, step: Step)
    requires
        h.inv(),
        h.steps_to(next, step),
    ensures
        next.inv(),
        crate::growth::grows(h, next),
{
    crate::cluster::inv_is_kept(h.cluster, next.cluster, step);
    match step {
        Step::ElectionTimeout(id) => election_timeout_keeps_inv(h, id),
        Step::Tick(id) => tick_keeps_inv(h, id),
        Step::Client(id, req) => client_request_keeps_inv(h, id, req),
        Step::Deliver(e) => delivery_keeps_inv(h, next, e),
        Step::SendSnapshot(id, to, snapshot) => {
            assert(h.has(id));
            sent_snapshot_keeps_inv(h, id, to, snapshot);
        },
        Step::Compact(id, index) => {
            assert(h.has(id));
            compaction_keeps_inv(h, id, index);
        },
        Step::Restart(id) => {
            assert(h.has(id));
            assert(h.node_ok(id));
            whole_log_stays(h, id);
            local_change_keeps_inv(
                h,
                id,
                crate::cluster::restarted(h.node(id)),
                h.cluster.sent,
            );
        },
        Step::RefuseSnapshot(e) => {
            assert(h.has(e.to));
            written_keeps_inv(h, e, false);
        },
        Step::StopInstalling(e, installed) => stopped_install_keeps_inv(h, next, e, installed),
    }
}

/// What a node has written that stops while it installs a snapshot, or does not
/// install it.
pub(crate) proof fn written_keeps_inv(h: History, e: Envelope, installed: bool)
    requires
        h.inv(),
        h.cluster.sent.contains(e),
        e.message is InstallSnapshotRequest,
        h.has(e.to),
    ensures
        ({
            let event = crate::cluster::written(e.message->InstallSnapshotRequest_0, installed);
            &&& h.cluster.can(e.to, event)
            &&& h.after(e.to, event).inv()
            &&& crate::growth::grows(h, h.after(e.to, event))
        }),
{
    let req = e.message->InstallSnapshotRequest_0;
    let event = crate::cluster::written(req, installed);
    assert(h.cluster.can(e.to, event));
    crate::cluster::event_keeps_inv(h.cluster, e.to, event);
    if installed {
        install_snapshot_keeps_inv(h, e.to, e, req);
    } else {
        vote_response_keeps_inv(h, e.to, event->VoteResponse_0, event->VoteResponse_1);
    }
}

#[verifier::spinoff_prover]
proof fn stopped_install_keeps_inv(h: History, next: History, e: Envelope, installed: bool)
    requires
        h.inv(),
        next.cluster.inv(),
        h.steps_to(next, Step::StopInstalling(e, installed)),
    ensures
        next.inv(),
        crate::growth::grows(h, next),
{
    let id = e.to;
    let event = crate::cluster::written(e.message->InstallSnapshotRequest_0, installed);
    assert(h.has(id));
    written_keeps_inv(h, e, installed);
    let after = h.after(id, event);
    assert(after.has(id));
    assert(after.node_ok(id));
    whole_log_stays(after, id);
    local_change_keeps_inv(
        after,
        id,
        crate::cluster::restarted(after.node(id)),
        h.cluster.sent,
    );
    assert(crate::growth::grows(after, next));
    crate::growth::growth_goes_on(h, after, next);
}

proof fn delivery_keeps_inv(h: History, next: History, e: Envelope)
    requires
        h.inv(),
        next.cluster.inv(),
        h.steps_to(next, Step::Deliver(e)),
    ensures
        next.inv(),
        crate::growth::grows(h, next),
{
    match e.message {
        MessageView::VoteRequest(req) => vote_request_keeps_inv(h, e.to, e, req),
        MessageView::VoteResponse(resp) => vote_response_keeps_inv(h, e.to, e.from, resp),
        MessageView::AppendEntriesRequest(req) => append_entries_keeps_inv(h, e.to, e, req),
        MessageView::AppendEntriesResponse(resp) => append_response_keeps_inv(h, e.to, e, resp),
        MessageView::InstallSnapshotRequest(req) => install_snapshot_keeps_inv(h, e.to, e, req),
        MessageView::InstallSnapshotResponse(resp) => snapshot_response_keeps_inv(
            h,
            e.to,
            e.from,
            resp,
        ),
        MessageView::ClientRequest(req) => client_request_keeps_inv(h, e.to, req),
        MessageView::ClientResponse(_) => {},
    }
}

pub(crate) proof fn inv_holds_at_the_start(h: History)
    requires
        h.init(),
    ensures
        h.inv(),
{
    crate::cluster::inv_holds_at_the_start(h.cluster);
    assert forall|id: NodeId| #[trigger] h.has(id) implies h.node_ok(id) by {
        assert(h.cluster.nodes.contains_key(id));
        assert(h.logs.contains_key(id));
        let whole = h.logs[id];
        assert(h.node(id).log().entries =~= whole.skip(0));
        assert(whole.take(0) =~= Seq::empty());
        assert(h.keeps_all(id, whole, 1, 0)) by {
            assert forall|term: u64, len: int|
                term < 1 && 0 <= len <= h.accepts_up_to(id, term) implies #[trigger] h.keeps(
                whole,
                term,
                len,
                0,
            ) by {
                assert(h.start_of(term, len) =~= Seq::empty());
                assert(h.start_of(term, len).is_prefix_of(whole));
            }
        }
    }
    assert forall|v: NodeId, t: u64, c: NodeId| !#[trigger] h.cluster.has_ballot(v, t, c) by {}
}

} // verus!
