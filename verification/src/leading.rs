//! What a leader does: it tells its peers what they lack, follows what they answer, and
//! commits what more than half of the cluster holds.

use vstd::prelude::*;

use crate::message::{
    AppendEntriesResponse, AppendEntriesView, ClientOperation, ClientRequest, Command,
    InstallSnapshotResponse, LogEntry, MessageView, NodeId,
};
use crate::node::RaftNode;
use crate::state::{Actions, ActionsView, LeaderView, Role};
use crate::transitions::NodeView;

verus! {

// ── Requests ───────────────────────────────────────────────────────────────

/// The index after which a peer gets entries: the one before the next that it needs.
pub open spec fn sent_after(node: NodeView, peer: NodeId) -> int {
    let next = node.leader_state->0.next_index[peer];
    if next == 0 {
        0
    } else {
        next - 1
    }
}

/// The request that tells a peer all that the leader has after an index.
pub open spec fn request_for(node: NodeView, peer: NodeId) -> AppendEntriesView {
    let prev = sent_after(node, peer);
    AppendEntriesView {
        term: node.persistent.current_term,
        leader_id: node.id,
        prev_log_index: prev as u64,
        prev_log_term: node.log().term_at(prev),
        entries: node.log().after(prev),
        leader_commit: node.volatile.commit_index,
        round: node.leader_state->0.round,
    }
}

/// Whether the actions bring every peer what it lacks, and nobody anything else: the
/// entries after what it is known to have, or a snapshot if these are no longer there.
pub open spec fn informs_all(node: NodeView, actions: ActionsView) -> bool {
    let base = node.persistent.log.snapshot_index;
    &&& forall|p: NodeId| #[trigger]
        node.peers.contains(p) ==> if sent_after(node, p) >= base {
            actions.messages.contains((p, MessageView::AppendEntriesRequest(request_for(node, p))))
        } else {
            actions.send_snapshot_to.contains(p)
        }
    &&& forall|k: int|
        0 <= k < actions.messages.len() ==> {
            let (to, message) = #[trigger] actions.messages[k];
            &&& node.peers.contains(to)
            &&& sent_after(node, to) >= base
            &&& message == MessageView::AppendEntriesRequest(request_for(node, to))
        }
    &&& forall|k: int|
        0 <= k < actions.send_snapshot_to.len() ==> {
            let to = #[trigger] actions.send_snapshot_to[k];
            node.peers.contains(to) && sent_after(node, to) < base
        }
    &&& actions.messages.len() + actions.send_snapshot_to.len() == node.peers.len()
}

proof fn filtered_parts<T>(s: Seq<T>, p: spec_fn(T) -> bool, q: spec_fn(T) -> bool)
    requires
        forall|x: T| #[trigger] p(x) <==> !q(x),
    ensures
        s.filter(p).len() + s.filter(q).len() == s.len(),
        forall|x: T| #[trigger] s.filter(p).contains(x) <==> s.contains(x) && p(x),
        forall|x: T| #[trigger] s.filter(q).contains(x) <==> s.contains(x) && q(x),
    decreases s.len(),
{
    reveal(Seq::filter);
    if s.len() > 0 {
        let rest = s.drop_last();
        filtered_parts(rest, p, q);
        let last = s.last();
        assert(s =~= rest.push(last));
        assert forall|x: T| #[trigger] s.contains(x) <==> rest.contains(x) || x == last by {
            if rest.contains(x) {
                let k = rest.index_of(x);
                assert(s[k] == x);
            }
            assert(s[s.len() - 1] == last);
        }
        assert forall|x: T| #[trigger] s.filter(p).contains(x) <==> s.contains(x) && p(x) by {
            pushed(rest.filter(p), last, x);
        }
        assert forall|x: T| #[trigger] s.filter(q).contains(x) <==> s.contains(x) && q(x) by {
            pushed(rest.filter(q), last, x);
        }
    }
}

proof fn pushed<T>(s: Seq<T>, last: T, x: T)
    ensures
        s.push(last).contains(x) <==> s.contains(x) || x == last,
{
    let more = s.push(last);
    if s.contains(x) {
        let k = s.index_of(x);
        assert(more[k] == x);
    }
    assert(more[s.len() as int] == last);
    if more.contains(x) {
        let k = more.index_of(x);
        assert(k < s.len() ==> s[k] == x);
    }
}

proof fn replication_informs_all(node: NodeView)
    ensures
        informs_all(node, node.replicate()),
{
    let actions = node.replicate();
    let reached = node.peers.filter(node.in_reach());
    filtered_parts(node.peers, node.in_reach(), node.lagging());
    assert forall|p: NodeId| node.append_entries_for(p) == request_for(node, p) by {}
    assert forall|p: NodeId| #[trigger] node.peers.contains(p) implies if sent_after(node, p)
        >= node.persistent.log.snapshot_index {
        actions.messages.contains((p, MessageView::AppendEntriesRequest(request_for(node, p))))
    } else {
        actions.send_snapshot_to.contains(p)
    } by {
        if sent_after(node, p) >= node.persistent.log.snapshot_index {
            assert((node.in_reach())(p));
            assert(reached.contains(p));
            let k = reached.index_of(p);
            assert(actions.messages[k] == (
                p,
                MessageView::AppendEntriesRequest(request_for(node, p)),
            ));
        } else {
            assert((node.lagging())(p));
            assert(node.peers.filter(node.lagging()).contains(p));
        }
    }
    assert forall|k: int| 0 <= k < actions.messages.len() implies ({
        let (to, message) = #[trigger] actions.messages[k];
        &&& node.peers.contains(to)
        &&& sent_after(node, to) >= node.persistent.log.snapshot_index
        &&& message == MessageView::AppendEntriesRequest(request_for(node, to))
    }) by {
        assert(reached.contains(reached[k]));
        assert((node.in_reach())(reached[k]));
    }
    assert forall|k: int| 0 <= k < actions.send_snapshot_to.len() implies ({
        let to = #[trigger] actions.send_snapshot_to[k];
        node.peers.contains(to) && sent_after(node, to) < node.persistent.log.snapshot_index
    }) by {
        let behind = node.peers.filter(node.lagging());
        assert(behind.contains(behind[k]));
        assert((node.lagging())(behind[k]));
    }
}

/// Whether a leader has started its next heartbeat round, which nobody has answered.
pub open spec fn starts_round(old: NodeView, after: NodeView) -> bool {
    let before = old.leader_state->0;
    let now = after.leader_state->0;
    &&& after == NodeView { leader_state: after.leader_state, ..old }
    &&& after.leader_state is Some
    &&& now.round == before.round + 1
    &&& forall|p: NodeId| #[trigger]
        old.peers.contains(p) ==> now.heartbeat_acks.contains_key(p) && !now.heartbeat_acks[p]
    &&& now == LeaderView { heartbeat_acks: now.heartbeat_acks, round: now.round, ..before }
}

/// With every tick a leader starts a heartbeat round and tells its peers what they
/// lack. A leader without peers commits what it may, and nobody else does anything.
pub proof fn ticks_keep_peers_informed(node: RaftNode, result: (RaftNode, Actions))
    requires
        node.wf(),
        node@.has_rounds_left(),
        call_ensures(RaftNode::tick, (node,), result),
    ensures
        node@.role != Role::Leader ==> result.0@ == node@ && result.1@ == ActionsView::none(),
        node@.role == Role::Leader && node@.peers.len() > 0 ==> {
            &&& starts_round(node@, result.0@)
            &&& informs_all(result.0@, result.1@)
            &&& result.1@ == ActionsView {
                messages: result.1@.messages,
                send_snapshot_to: result.1@.send_snapshot_to,
                ..ActionsView::none()
            }
        },
        node@.role == Role::Leader && node@.peers.len() == 0 ==> {
            &&& commits_what_it_may(node@, result.0@)
            &&& starts_round(
                node@,
                NodeView { volatile: node@.volatile, ..result.0@ },
            )
            &&& result.1@ == ActionsView {
                entries_to_apply: result.0@.log().between(
                    node@.volatile.commit_index as int,
                    result.0@.volatile.commit_index as int,
                ),
                ..ActionsView::none()
            }
        },
{
    let started = node@.round_started();
    if node@.role == Role::Leader {
        replication_informs_all(started);
        if node@.peers.len() == 0 {
            commitment(started);
        }
    }
}

// ── Clients ────────────────────────────────────────────────────────────────

/// The command that an operation stands for, if it is a write.
pub open spec fn command_of(operation: ClientOperation) -> Option<Command> {
    match operation {
        ClientOperation::Get { key } => None,
        ClientOperation::Put { key, value } => Some(Command::Put { key, value }),
        ClientOperation::Delete { key } => Some(Command::Delete { key }),
    }
}

/// A leader appends what a client wants to write, as the next entry, in its own term
/// and with just that key and value, hands its state out to be written, and tells its
/// peers. For a read it starts a heartbeat round and appends nothing.
pub proof fn leaders_take_in_requests(
    node: RaftNode,
    req: ClientRequest,
    result: (RaftNode, Actions),
)
    requires
        node.wf(),
        node@.role == Role::Leader,
        node@.has_rounds_left(),
        node@.log().last_index() < u64::MAX,
        call_ensures(RaftNode::handle_client_request, (node, req), result),
    ensures
        ({
            let old = node@;
            let after = result.0@;
            let actions = result.1@;
            &&& match command_of(req.operation) {
                Some(command) => {
                    &&& after.persistent.log.entries == old.persistent.log.entries.push(
                        LogEntry {
                            term: old.persistent.current_term,
                            index: (old.log().last_index() + 1) as u64,
                            command,
                        },
                    )
                    &&& after.persistent.log.snapshot_index == old.persistent.log.snapshot_index
                    &&& after.persistent.log.snapshot_term == old.persistent.log.snapshot_term
                    &&& after.persistent.current_term == old.persistent.current_term
                    &&& after.persistent.voted_for == old.persistent.voted_for
                    &&& after.role == Role::Leader
                    &&& after.current_leader == old.current_leader
                    &&& after.leader_state is Some
                    &&& after.leader_state->0.next_index == old.leader_state->0.next_index
                    &&& after.leader_state->0.acked_rounds == old.leader_state->0.acked_rounds
                    &&& after.leader_state->0.round == old.leader_state->0.round
                    &&& forall|p: NodeId|
                        p != old.id ==> #[trigger] after.leader_state->0.match_index[p]
                            == old.leader_state->0.match_index[p]
                    &&& actions.persist == Some(after.persistent)
                    &&& if old.peers.len() > 0 {
                        &&& informs_all(after, actions)
                        &&& after.volatile == old.volatile
                        &&& actions.entries_to_apply.len() == 0
                    } else {
                        &&& commits_what_it_may(old, after)
                        &&& actions.messages.len() == 0
                        &&& actions.send_snapshot_to.len() == 0
                        &&& actions.entries_to_apply == after.log().between(
                            old.volatile.commit_index as int,
                            after.volatile.commit_index as int,
                        )
                    }
                },
                None => {
                    &&& starts_round(old, after)
                    &&& informs_all(after, actions)
                    &&& actions.persist is None
                    &&& actions.entries_to_apply.len() == 0
                },
            }
            &&& actions.client_responses.len() == 0
            &&& actions.install_snapshot is None
            &&& !actions.reset_election_timer
        }),
{
    match command_of(req.operation) {
        Some(command) => {
            let appended = node@.with_command(command);
            replication_informs_all(appended);
            assert(informs_all(
                appended,
                ActionsView { persist: Some(appended.persistent), ..appended.replicate() },
            ));
            assert(appended.log().wf()) by {
                assert forall|i: int| 0 <= i < appended.log().entries.len() implies (#[trigger]
                appended.log().entries[i]).index == appended.log().snapshot_index + 1 + i by {
                    if i < node@.log().entries.len() {
                        assert(appended.log().entries[i] == node@.log().entries[i]);
                    }
                }
            }
            commitment(appended);
        },
        None => replication_informs_all(node@.round_started()),
    }
}

// ── Commitment ─────────────────────────────────────────────────────────────

/// The other nodes that are known to hold the entry at an index.
pub open spec fn holders(node: NodeView, index: int) -> Set<NodeId> {
    let known = node.leader_state->0.match_index;
    known.dom().filter(|p: NodeId| p != node.id && known[p] >= index)
}

/// Whether more than half of the cluster is known to hold the entry at an index, the
/// leader itself included, and the entry is of the leader's own term.
pub open spec fn is_replicated(node: NodeView, index: int) -> bool {
    &&& node.log().term_at(index) == node.persistent.current_term
    &&& node.peers.len() == 0 || 2 * (1 + holders(node, index).len()) > node.config.cluster_size
}

/// Whether no entry after the commit index could be committed.
pub open spec fn commits_all_it_may(node: NodeView) -> bool {
    forall|i: int|
        node.volatile.commit_index < i <= node.log().last_index() ==> !#[trigger] is_replicated(
            node,
            i,
        )
}

/// Whether a leader has committed all that it may, never back, and nothing else.
pub open spec fn commits_what_it_may(old: NodeView, after: NodeView) -> bool {
    let commit = after.volatile.commit_index;
    &&& commit >= old.volatile.commit_index
    &&& commit > old.volatile.commit_index ==> commit <= after.log().last_index()
        && is_replicated(after, commit as int)
    &&& commits_all_it_may(after)
    &&& after.volatile.last_applied == old.volatile.last_applied
}

proof fn replicated_is_committable(node: NodeView, index: int)
    requires
        node.leader_state is Some,
    ensures
        is_replicated(node, index) <==> node.committable(index),
{
    assert(holders(node, index) =~= node.leader_state->0.replicas(node.id, index));
}

/// What a leader with a state commits.
proof fn commitment(node: NodeView)
    requires
        node.log().wf(),
        node.leader_state is Some,
    ensures
        ({
            let after = node.advance_commit().0;
            let commit = after.volatile.commit_index;
            &&& commit >= node.volatile.commit_index
            &&& after == node.with_commit(commit as int)
            &&& commits_all_it_may(after)
            &&& commit > node.volatile.commit_index ==> commit <= node.log().last_index()
                && is_replicated(after, commit as int)
            &&& node.advance_commit().1 == node.log().between(
                node.volatile.commit_index as int,
                commit as int,
            )
        }),
{
    let after = node.advance_commit().0;
    let lo = node.volatile.commit_index as int;
    let hi = node.log().last_index();
    let may = |n: int| node.committable(n);
    if hi >= lo {
        crate::log::highest_is_highest(may, lo, hi);
    }
    if node.log().entries.len() > 0 {
        assert(node.log().entries[node.log().entries.len() - 1].index == hi);
    }
    assert forall|i: int| after.volatile.commit_index < i <= after.log().last_index() implies
        !#[trigger] is_replicated(after, i) by {
        assert(!may(i));
        replicated_is_committable(node, i);
        assert(holders(after, i) =~= holders(node, i));
    }
    if after.volatile.commit_index > lo {
        let commit = after.volatile.commit_index as int;
        assert(may(commit));
        replicated_is_committable(node, commit);
        assert(holders(after, commit) =~= holders(node, commit));
    }
}

/// After every answer a leader commits the highest entry of its own term that more
/// than half of the cluster holds, with all before it, and hands out just the entries
/// that are newly committed. It commits nothing else, and an answer makes it send
/// nothing.
pub proof fn answers_are_followed_by_commitment(
    node: RaftNode,
    from: NodeId,
    resp: AppendEntriesResponse,
    result: (RaftNode, Actions),
)
    requires
        node.wf(),
        node@.role == Role::Leader,
        resp.term <= node@.persistent.current_term,
        call_ensures(RaftNode::handle_append_entries_response, (node, from, resp), result),
    ensures
        ({
            let old = node@;
            let after = result.0@;
            let commit = after.volatile.commit_index;
            &&& after == NodeView {
                leader_state: after.leader_state,
                volatile: after.volatile,
                ..old
            }
            &&& after.leader_state is Some
            &&& commits_what_it_may(old, after)
            &&& result.1@ == ActionsView {
                entries_to_apply: old.log().between(
                    old.volatile.commit_index as int,
                    commit as int,
                ),
                ..ActionsView::none()
            }
        }),
{
    let told = NodeView { leader_state: Some(node@.after_answer(from, resp)), ..node@ };
    commitment(told);
}

// ── Answers ────────────────────────────────────────────────────────────────

/// An answer means nothing to a node that does not lead, unless it is of a later term.
pub proof fn followers_ignore_answers(
    node: RaftNode,
    from: NodeId,
    resp: AppendEntriesResponse,
    result: (RaftNode, Actions),
)
    requires
        node@.role != Role::Leader,
        resp.term <= node@.persistent.current_term,
        call_ensures(RaftNode::handle_append_entries_response, (node, from, resp), result),
    ensures
        result.0@ == node@,
        result.1@ == ActionsView::none(),
{
}

/// Whether a leader knows the same of all peers but one.
pub open spec fn only_of(before: LeaderView, after: LeaderView, peer: NodeId) -> bool {
    &&& after.round == before.round
    &&& forall|p: NodeId|
        p != peer ==> {
            &&& #[trigger] after.next_index.contains_key(p) == before.next_index.contains_key(p)
            &&& after.next_index[p] == before.next_index[p]
            &&& #[trigger] after.match_index.contains_key(p) == before.match_index.contains_key(p)
            &&& after.match_index[p] == before.match_index[p]
            &&& #[trigger] after.acked_rounds.contains_key(p) == before.acked_rounds.contains_key(
                p,
            )
            &&& after.acked_rounds[p] == before.acked_rounds[p]
            &&& #[trigger] after.heartbeat_acks.contains_key(p)
                == before.heartbeat_acks.contains_key(p)
            &&& after.heartbeat_acks[p] == before.heartbeat_acks[p]
        }
}

/// The lower of two numbers.
pub open spec fn lower(a: int, b: int) -> int {
    if a < b {
        a
    } else {
        b
    }
}

/// The higher of two numbers.
pub open spec fn higher(a: int, b: int) -> int {
    if a > b {
        a
    } else {
        b
    }
}

/// A rejection makes a leader go back. Without a conflict term it goes back by one,
/// but not before the first entry. With one it goes on after its own last entry of
/// that term, or, if it has none, at the first conflicting entry. A rejection of an
/// earlier term does not make it go on after the end of its log. In no case does it
/// learn of an entry that the peer has.
pub proof fn rejections_go_back(
    node: RaftNode,
    from: NodeId,
    resp: AppendEntriesResponse,
    result: (RaftNode, Actions),
)
    requires
        node.wf(),
        node@.role == Role::Leader,
        node@.peers.contains(from),
        node@.log().last_index() < u64::MAX,
        !resp.success,
        resp.term <= node@.persistent.current_term,
        call_ensures(RaftNode::handle_append_entries_response, (node, from, resp), result),
    ensures
        ({
            let log = node@.log();
            let last = log.last_index();
            let before = node@.leader_state->0;
            let after = result.0@.leader_state->0;
            let next = after.next_index[from] as int;
            let current = resp.term == node@.persistent.current_term;
            let known = exists|i: int|
                1 <= i <= last && #[trigger] log.term_at(i) == resp.conflict_term->0;
            &&& after.next_index.contains_key(from)
            &&& resp.conflict_term is None || resp.conflict_index is None ==> {
                let back = higher(before.next_index[from] - 1, 1);
                &&& current ==> next == back
                &&& !current ==> next == lower(back, last + 1)
                &&& before.next_index[from] > 1 ==> next < before.next_index[from]
            }
            &&& resp.conflict_term is Some && resp.conflict_index is Some && known ==> {
                &&& 2 <= next <= last + 1
                &&& log.term_at(next - 1) == resp.conflict_term->0
                &&& forall|i: int|
                    next <= i <= last ==> #[trigger] log.term_at(i) != resp.conflict_term->0
            }
            &&& resp.conflict_term is Some && resp.conflict_index is Some && !known ==> {
                &&& current ==> next == resp.conflict_index->0
                &&& !current ==> next == lower(resp.conflict_index->0 as int, last + 1)
            }
            &&& after.match_index == before.match_index
            &&& only_of(before, after, from)
        }),
{
    let log = node@.log();
    let last = log.last_index();
    let told = node@.after_answer(from, resp);
    let advanced = NodeView { leader_state: Some(told), ..node@ };
    commitment(advanced);
    if resp.conflict_index is Some && resp.conflict_term is Some {
        let same = |i: int| log.term_at(i) == resp.conflict_term->0;
        crate::log::highest_is_highest(same, 0, last);
        let found = crate::log::highest(same, 0, last);
        assert forall|i: int| found < i <= last implies #[trigger] log.term_at(i)
            != resp.conflict_term->0 by {
            assert(!same(i));
        }
        assert(found > 0 ==> same(found));
        if exists|i: int| 1 <= i <= last && #[trigger] log.term_at(i) == resp.conflict_term->0 {
            let i = choose|i: int|
                1 <= i <= last && #[trigger] log.term_at(i) == resp.conflict_term->0;
            assert(same(i));
            assert(found >= i);
        }
    }
}

/// A success in the leader's term says how far the peer's log agrees with the leader's:
/// the leader never believes less than before, nor more than it has itself, and goes on
/// right after that. A success of an earlier term says nothing.
pub proof fn successes_go_forward(
    node: RaftNode,
    from: NodeId,
    resp: AppendEntriesResponse,
    result: (RaftNode, Actions),
)
    requires
        node.wf(),
        node@.role == Role::Leader,
        node@.peers.contains(from),
        node@.log().last_index() < u64::MAX,
        resp.success,
        resp.term <= node@.persistent.current_term,
        call_ensures(RaftNode::handle_append_entries_response, (node, from, resp), result),
    ensures
        ({
            let last = node@.log().last_index();
            let before = node@.leader_state->0;
            let after = result.0@.leader_state->0;
            let told = lower(resp.match_index as int, last);
            &&& resp.term < node@.persistent.current_term ==> after == before
            &&& resp.term == node@.persistent.current_term ==> {
                &&& after.match_index.contains_key(from)
                &&& after.match_index[from] == if before.match_index.contains_key(from) {
                    higher(told, before.match_index[from] as int)
                } else {
                    told
                }
                &&& after.next_index.contains_key(from)
                &&& after.next_index[from] == lower(after.match_index[from] as int, last) + 1
                &&& only_of(before, after, from)
            }
        }),
{
    let told = node@.after_answer(from, resp);
    commitment(NodeView { leader_state: Some(told), ..node@ });
}

/// An answer in the leader's term, be it a success or a rejection, confirms the leader
/// in the round that it repeats. A later round stays confirmed, and a round that has
/// not started confirms nothing. Strangers confirm nothing at all.
pub proof fn answers_confirm_rounds(
    node: RaftNode,
    from: NodeId,
    resp: AppendEntriesResponse,
    result: (RaftNode, Actions),
)
    requires
        node.wf(),
        node@.role == Role::Leader,
        resp.term <= node@.persistent.current_term,
        call_ensures(RaftNode::handle_append_entries_response, (node, from, resp), result),
    ensures
        ({
            let before = node@.leader_state->0;
            let after = result.0@.leader_state->0;
            if !node@.peers.contains(from) {
                after == before
            } else if resp.term < node@.persistent.current_term {
                after.acked_rounds == before.acked_rounds && after.heartbeat_acks
                    == before.heartbeat_acks
            } else {
                &&& resp.round <= before.round ==> after.acked_rounds.contains_key(from)
                    && after.acked_rounds[from] == if before.acked_rounds.contains_key(from) {
                    higher(before.acked_rounds[from] as int, resp.round as int)
                } else {
                    resp.round as int
                }
                &&& resp.round > before.round ==> after.acked_rounds == before.acked_rounds
                &&& resp.round == before.round ==> after.heartbeat_acks.contains_key(from)
                    && after.heartbeat_acks[from]
                &&& resp.round != before.round ==> after.heartbeat_acks == before.heartbeat_acks
            }
        }),
{
    let told = node@.after_answer(from, resp);
    commitment(NodeView { leader_state: Some(told), ..node@ });
}

/// A leader is confirmed in a round once more than half of the cluster has
/// acknowledged that round or a later one, the leader itself included.
pub proof fn majorities_confirm(node: &RaftNode, round: u64, confirmed: bool)
    requires
        node.wf(),
        call_ensures(RaftNode::is_confirmed_since, (node, round), confirmed),
    ensures
        ({
            let acked = node@.leader_state->0.acked_rounds;
            confirmed <==> {
                &&& node@.role == Role::Leader
                &&& node@.peers.len() == 0 || 2 * (1 + acked.dom().filter(
                    |p: NodeId| p != node@.id && acked[p] >= round,
                ).len()) > node@.config.cluster_size
            }
        }),
{
    let acked = node@.leader_state->0.acked_rounds;
    assert(acked.dom().filter(|p: NodeId| p != node@.id && acked[p] >= round)
        =~= node@.leader_state->0.acknowledging(node@.id, round as int));
}

/// A peer that has installed the leader's snapshot gets the entries after it next.
pub proof fn snapshots_are_followed_by_entries(
    node: RaftNode,
    from: NodeId,
    resp: InstallSnapshotResponse,
    result: (RaftNode, Actions),
)
    requires
        node.wf(),
        resp.term <= node@.persistent.current_term,
        node@.role == Role::Leader ==> node@.persistent.log.snapshot_index < u64::MAX,
        call_ensures(RaftNode::handle_install_snapshot_response, (node, from, resp), result),
    ensures
        ({
            let before = node@.leader_state->0;
            let after = result.0@.leader_state->0;
            &&& result.1@ == ActionsView::none()
            &&& node@.role != Role::Leader || !node@.peers.contains(from) ==> result.0@ == node@
            &&& node@.role == Role::Leader && node@.peers.contains(from) ==> {
                &&& result.0@ == NodeView { leader_state: result.0@.leader_state, ..node@ }
                &&& after.next_index.contains_key(from)
                &&& sent_after(result.0@, from) == node@.persistent.log.snapshot_index
                &&& after.match_index == before.match_index
                &&& only_of(before, after, from)
            }
        }),
{
}

} // verus!
