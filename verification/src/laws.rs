//! What holds of every step of a node.

use vstd::prelude::*;

use crate::log::LogView;
use crate::message::{
    AppendEntriesResponse, AppendEntriesView, ClientOperation, ClientRequest, ClientResult,
    Command, LogEntry, MessageView, NodeId, VoteRequest,
};
use crate::state::{ActionsView, Role};
use crate::transitions::{Event, NodeView};

verus! {

/// A node that is well formed stays so.
#[verifier::spinoff_prover]
pub proof fn stays_well_formed(node: NodeView, event: Event)
    requires
        node.wf(),
        node.admits(event),
    ensures
        node.on(event).0.wf(),
{
    match event {
        Event::AppendEntries(req) => {
            if node.accepts(req) {
                merged_log_is_well_formed(node.log(), req.entries);
            }
        },
        Event::InstallSnapshot(req) => {
            let log = node.log();
            compacted_log_is_well_formed(log, req.last_included_index);
        },
        _ => {},
    }
}

/// The term of a node never falls.
pub proof fn term_never_falls(node: NodeView, event: Event)
    requires
        node.admits(event),
    ensures
        node.on(event).0.term() >= node.term(),
{
}

/// A node votes for at most one candidate in a term: a vote that it has cast
/// stays as long as the term does.
pub proof fn one_vote_per_term(node: NodeView, event: Event)
    requires
        node.admits(event),
        node.persistent.voted_for is Some,
        node.on(event).0.term() == node.term(),
    ensures
        node.on(event).0.persistent.voted_for == node.persistent.voted_for,
{
}

/// Durable state that has changed is handed out to be persisted, in its new
/// form, together with the messages that follow from it.
#[verifier::spinoff_prover]
pub proof fn changes_are_persisted(node: NodeView, event: Event)
    requires
        node.admits(event),
    ensures
        ({
            let (after, actions) = node.on(event);
            &&& actions.persist is Some ==> actions.persist == Some(after.persistent)
            &&& actions.persist is None ==> after.persistent == node.persistent
        }),
{
    let (after, actions) = node.on(event);
    match event {
        Event::AppendEntries(req) => {},
        Event::VoteRequest(req) => {},
        Event::InstallSnapshot(req) => {},
        _ => {},
    }
}

/// The commit index never falls.
#[verifier::spinoff_prover]
pub proof fn commit_never_falls(node: NodeView, event: Event)
    requires
        node.wf(),
        node.admits(event),
    ensures
        node.on(event).0.volatile.commit_index >= node.volatile.commit_index,
{
    commit_targets_fit(node, event);
}

/// What an event makes of the commit index of a leader comes from one commit
/// target, and that target is a `u64`.
proof fn commit_targets_fit(node: NodeView, event: Event)
    requires
        node.wf(),
        node.admits(event),
    ensures
        event is Tick ==> fits(node.round_started()),
        event matches Event::AppendEntriesResponse(from, resp) ==> node.role == Role::Leader
            && resp.term <= node.term() ==> fits(
            NodeView { leader_state: Some(node.after_answer(from, resp)), ..node },
        ),
        event matches Event::ClientRequest(req) ==> node.role == Role::Leader ==> (
        match req.operation {
            ClientOperation::Get { .. } => true,
            ClientOperation::Put { key, value } => fits(
                node.with_command(Command::Put { key, value }),
            ),
            ClientOperation::Delete { key } => fits(node.with_command(Command::Delete { key })),
        }),
{
    match event {
        Event::Tick => commit_target_in_range(node.round_started()),
        Event::AppendEntriesResponse(from, resp) => commit_target_in_range(
            NodeView { leader_state: Some(node.after_answer(from, resp)), ..node },
        ),
        Event::ClientRequest(req) => match req.operation {
            ClientOperation::Get { .. } => {},
            ClientOperation::Put { key, value } => {
                if node.role == Role::Leader {
                    commit_target_in_range(node.with_command(Command::Put { key, value }));
                }
            },
            ClientOperation::Delete { key } => {
                if node.role == Role::Leader {
                    commit_target_in_range(node.with_command(Command::Delete { key }));
                }
            },
        },
        _ => {},
    }
}

/// The commit target is a `u64` that lies between the commit index and the end
/// of the log, and the leader may commit up to it.
spec fn fits(node: NodeView) -> bool {
    &&& node.volatile.commit_index <= node.commit_target() <= u64::MAX
    &&& node.commit_target() > node.volatile.commit_index ==> node.commit_target()
        <= node.log().last_index() && node.committable(node.commit_target())
}

/// The commit target lies between the commit index and the end of the log.
proof fn commit_target_in_range(node: NodeView)
    ensures
        node.commit_target() >= node.volatile.commit_index,
        node.commit_target() > node.volatile.commit_index ==> node.commit_target()
            <= node.log().last_index() && node.committable(node.commit_target()),
        node.log().wf() ==> node.commit_target() <= u64::MAX,
{
    let commit = node.volatile.commit_index as int;
    let last = node.log().last_index();
    if commit <= last {
        crate::log::highest_is_highest(|n: int| node.committable(n), commit, last);
    }
    if node.log().wf() {
        last_index_fits(node.log());
    }
}

proof fn last_index_fits(log: LogView)
    requires
        log.wf(),
    ensures
        log.last_index() <= u64::MAX,
{
    if log.entries.len() > 0 {
        assert(log.entries[log.entries.len() - 1].index == log.snapshot_index + 1 + (
        log.entries.len() - 1));
    }
}

proof fn merged_log_is_well_formed(log: LogView, entries: Seq<LogEntry>)
    requires
        log.wf(),
        log.takes_all(entries),
    ensures
        log.with_entries(entries).wf(),
    decreases entries.len(),
{
    if entries.len() > 0 {
        merged_log_is_well_formed(log.with_entry(entries[0]), entries.skip(1));
    }
}

proof fn compacted_log_is_well_formed(log: LogView, index: u64)
    requires
        log.wf(),
    ensures
        log.compacted(index).wf(),
{
    let after = log.compacted(index);
    if index > log.snapshot_index {
        assert forall|j: int| 0 <= j < after.entries.len() implies (#[trigger]
        after.entries[j]).index == after.snapshot_index + 1 + j by {
            assert(after.entries[j] == log.entries[j + log.count_up_to(index as int)]);
        }
    }
}

// ── Commitment ─────────────────────────────────────────────────────────────

/// The entries handed out to be applied are the newly committed ones, in the
/// order of the log, each of them once.
#[verifier::spinoff_prover]
pub proof fn newly_committed_entries_are_applied(node: NodeView, event: Event)
    requires
        node.wf(),
        node.admits(event),
    ensures
        ({
            let (after, actions) = node.on(event);
            actions.entries_to_apply == after.log().between(
                node.volatile.commit_index as int,
                after.volatile.commit_index as int,
            )
        }),
{
    commit_targets_fit(node, event);
    match event {
        Event::AppendEntries(req) => {},
        Event::InstallSnapshot(req) => {},
        Event::ClientRequest(req) => {},
        Event::AppendEntriesResponse(from, resp) => {},
        Event::Tick => {},
        _ => {},
    }
}

/// Where the snapshot does not go beyond the commit index, the entries handed
/// out are numbered from the old commit index to the new one without a gap.
#[verifier::spinoff_prover]
pub proof fn applied_entries_are_consecutive(node: NodeView, event: Event)
    requires
        node.wf(),
        node.admits(event),
        node.log().snapshot_index <= node.volatile.commit_index <= node.log().last_index(),
        !(event is InstallSnapshot),
    ensures
        ({
            let (after, actions) = node.on(event);
            let commit = node.volatile.commit_index;
            &&& actions.entries_to_apply.len() == after.volatile.commit_index - commit
            &&& forall|i: int|
                0 <= i < actions.entries_to_apply.len() ==> (#[trigger]
                actions.entries_to_apply[i]).index == commit + 1 + i
        }),
{
    let (after, actions) = node.on(event);
    stays_well_formed(node, event);
    commit_never_falls(node, event);
    newly_committed_entries_are_applied(node, event);
    base_stays(node, event);
    committed_entries_are_in_the_log(node, event);
    if after.volatile.commit_index > node.volatile.commit_index {
        between_is_consecutive(
            after.log(),
            node.volatile.commit_index as int,
            after.volatile.commit_index as int,
        );
    }
}

proof fn between_is_consecutive(log: LogView, lo: int, hi: int)
    requires
        log.wf(),
        log.snapshot_index <= lo <= hi <= log.last_index(),
    ensures
        log.between(lo, hi).len() == hi - lo,
        forall|i: int|
            0 <= i < hi - lo ==> (#[trigger] log.between(lo, hi)[i]).index == lo + 1 + i,
{
    assert forall|i: int| 0 <= i < hi - lo implies (#[trigger] log.between(lo, hi)[i]).index == lo
        + 1 + i by {
        assert(log.between(lo, hi)[i] == log.entries[lo - log.snapshot_index + i]);
    }
}

/// What becomes committed is in the log.
#[verifier::spinoff_prover]
pub proof fn committed_entries_are_in_the_log(node: NodeView, event: Event)
    requires
        node.wf(),
        node.admits(event),
    ensures
        node.on(event).0.volatile.commit_index > node.volatile.commit_index ==> node.on(
            event,
        ).0.volatile.commit_index <= node.on(event).0.log().last_index(),
{
    commit_targets_fit(node, event);
    match event {
        Event::AppendEntries(req) => {},
        Event::InstallSnapshot(req) => {},
        Event::ClientRequest(req) => {},
        Event::AppendEntriesResponse(from, resp) => {},
        Event::VoteResponse(from, resp) => {},
        _ => {},
    }
}

/// Only a snapshot from the leader moves the base of the log.
pub proof fn base_stays(node: NodeView, event: Event)
    requires
        !(event is InstallSnapshot),
    ensures
        node.on(event).0.log().snapshot_index == node.log().snapshot_index,
        node.on(event).0.log().snapshot_term == node.log().snapshot_term,
{
    if let Event::AppendEntries(req) = event {
        merged_log_keeps_base(node.log(), req.entries);
    }
}

proof fn merged_log_keeps_base(log: LogView, entries: Seq<LogEntry>)
    ensures
        log.with_entries(entries).snapshot_index == log.snapshot_index,
        log.with_entries(entries).snapshot_term == log.snapshot_term,
    decreases entries.len(),
{
    if entries.len() > 0 {
        merged_log_keeps_base(log.with_entry(entries[0]), entries.skip(1));
    }
}

/// A leader commits an entry only if it is one of the current term and a
/// majority of the nodes holds it, the leader included; all entries before it
/// are committed with it.
#[verifier::spinoff_prover]
pub proof fn leader_commits_by_majority(node: NodeView, event: Event)
    requires
        node.wf(),
        node.admits(event),
        node.role == Role::Leader,
        event is Tick || event is AppendEntriesResponse || event is ClientRequest,
        node.on(event).0.volatile.commit_index > node.volatile.commit_index,
    ensures
        ({
            let after = node.on(event).0;
            let index = after.volatile.commit_index as int;
            &&& index <= after.log().last_index()
            &&& after.log().term_at(index) == after.term()
            &&& after.majority_holds(index)
        }),
{
    commit_targets_fit(node, event);
    assert forall|n: NodeView, c: int, i: int| #[trigger]
        n.with_commit(c).majority_holds(i) == n.majority_holds(i) by {}
}

/// A leader commits all that it may: no index above the commit index that it
/// has after an answer could be committed as well.
pub proof fn leader_commits_all_it_may(
    node: NodeView,
    from: NodeId,
    resp: AppendEntriesResponse,
    index: int,
)
    requires
        node.wf(),
        node.admits(Event::AppendEntriesResponse(from, resp)),
        node.role == Role::Leader,
        resp.term <= node.term(),
        node.volatile.commit_index <= node.log().last_index(),
        index <= node.log().last_index(),
        index > node.handle_append_entries_response(from, resp).0.volatile.commit_index,
    ensures
        !node.handle_append_entries_response(from, resp).0.committable(index),
{
    let answered = NodeView { leader_state: Some(node.after_answer(from, resp)), ..node };
    let after = node.handle_append_entries_response(from, resp).0;
    commit_target_in_range(answered);
    let may = |n: int| answered.committable(n);
    crate::log::highest_is_highest(
        may,
        answered.volatile.commit_index as int,
        answered.log().last_index(),
    );
    assert(!may(index));
    assert(after.committable(index) == answered.committable(index));
}

// ── Leadership ─────────────────────────────────────────────────────────────

/// A leader never times out for an election.
pub proof fn leaders_do_not_time_out(node: NodeView)
    requires
        node.role == Role::Leader,
    ensures
        node.election_timeout() == (node, ActionsView::none()),
{
}

/// A leader never overwrites or deletes entries of its own log: while it leads,
/// its log only grows.
pub proof fn leader_appends_only(node: NodeView, event: Event)
    requires
        node.role == Role::Leader,
        node.on(event).0.role == Role::Leader,
        !(event is AppendEntries) && !(event is InstallSnapshot),
    ensures
        node.log().entries.is_prefix_of(node.on(event).0.log().entries),
{
}

/// A node gains the leadership only from a majority of the votes, its own
/// included: as a candidate from the votes that it has counted in its term, or
/// at once if it has no peers.
pub proof fn leadership_needs_a_majority(node: NodeView, event: Event)
    requires
        node.admits(event),
        node.role != Role::Leader,
        node.on(event).0.role == Role::Leader,
    ensures
        match event {
            Event::VoteResponse(from, resp) => {
                &&& node.role == Role::Candidate
                &&& resp.vote_granted && resp.term == node.term()
                &&& node.on(event).0.term() == node.term()
                &&& 1 + node.tally(from).voters().len() >= node.config.quorum()
            },
            Event::ElectionTimeout => node.peers.len() == 0,
            _ => false,
        },
{
}

/// A new election starts without votes: a candidate counts no vote that it got
/// in an earlier term.
pub proof fn elections_start_without_votes(node: NodeView)
    requires
        node.role != Role::Leader,
        node.admits(Event::ElectionTimeout),
        node.peers.len() > 0,
    ensures
        node.election_timeout().0.leader_state is None,
        node.election_timeout().0.term() == node.term() + 1,
        node.election_timeout().0.persistent.voted_for == Some(node.id),
{
}

/// A new leader appends an entry of its own term and sends it, with all else
/// that follows the end of its log before the election, to every peer at once.
pub proof fn new_leader_sends_its_entry(node: NodeView, peer: NodeId)
    requires
        node.log().wf(),
        node.log().last_index() < u64::MAX,
        node.peers.contains(peer),
    ensures
        ({
            let (leader, actions) = node.become_leader();
            let request = leader.append_entries_for(peer);
            &&& actions.messages.contains((peer, MessageView::AppendEntriesRequest(request)))
            &&& request.entries == seq![node.noop()]
            &&& request.prev_log_index == node.log().last_index()
        }),
{
    let (leader, actions) = node.become_leader();
    let request = leader.append_entries_for(peer);
    assert(request.entries =~= seq![node.noop()]);
    let k = node.peers.index_of(peer);
    assert(leader.in_reach()(node.peers[k]));
    broadcast use vstd::seq_lib::group_seq_properties;

    leader.peers.lemma_filter_contains(leader.in_reach(), k);
    let reached = leader.peers.filter(leader.in_reach());
    let j = reached.index_of(peer);
    assert(actions.messages[j] == (peer, MessageView::AppendEntriesRequest(request)));
}

// ── Votes ──────────────────────────────────────────────────────────────────

/// The election restriction: a node grants its vote only to a candidate whose
/// log is at least as up to date as its own, it does so only in the
/// candidate's term, and it has recorded and persisted the vote by then.
pub proof fn granted_votes_are_recorded(node: NodeView, req: VoteRequest)
    ensures
        ({
            let (after, actions) = node.handle_vote_request(req);
            &&& actions.messages.len() == 1
            &&& actions.messages[0].0 == req.candidate_id
            &&& actions.messages[0].1 matches MessageView::VoteResponse(resp) && {
                &&& resp.peer_id == node.id
                &&& resp.term == after.term()
                &&& resp.vote_granted ==> {
                    &&& node.log().no_newer_than(req.last_log_term, req.last_log_index as int)
                    &&& after.term() == req.term
                    &&& after.persistent.voted_for == Some(req.candidate_id)
                    &&& actions.persist == Some(after.persistent)
                }
            }
        }),
{
}

/// A node that is asked twice for its vote in a term by different candidates
/// grants it to the first at most.
pub proof fn second_candidate_is_denied(node: NodeView, first: VoteRequest, second: VoteRequest)
    requires
        first.term == second.term,
        first.candidate_id != second.candidate_id,
        node.observe_term(first.term).0.grants(first),
    ensures
        ({
            let after = node.handle_vote_request(first).0;
            let answer = after.handle_vote_request(second).1.messages[0].1;
            answer matches MessageView::VoteResponse(resp) && !resp.vote_granted
        }),
{
}

/// Every message of a past term is answered with the current one and changes
/// nothing.
pub proof fn stale_requests_are_refused(
    node: NodeView,
    vote: VoteRequest,
    append: AppendEntriesView,
)
    requires
        vote.term < node.term(),
        append.term < node.term(),
    ensures
        node.handle_vote_request(vote).0 == node,
        node.handle_vote_request(vote).1.messages[0].1 matches MessageView::VoteResponse(resp)
            && resp.term == node.term() && !resp.vote_granted,
        node.handle_append_entries(append).0 == node,
        node.handle_append_entries(append).1.messages[0].1
            matches MessageView::AppendEntriesResponse(resp) && resp.term == node.term()
            && !resp.success,
{
}

/// A node that sees a higher term than its own in any message becomes a
/// follower in that term, whatever else the message makes of it.
pub proof fn higher_terms_are_adopted(node: NodeView, event: Event, term: u64)
    requires
        node.admits(event),
        term > node.term(),
        match event {
            Event::VoteRequest(req) => req.term == term,
            Event::VoteResponse(_, resp) => resp.term == term,
            Event::AppendEntries(req) => req.term == term,
            Event::AppendEntriesResponse(_, resp) => resp.term == term,
            Event::InstallSnapshot(req) => req.term == term,
            Event::InstallSnapshotResponse(_, resp) => resp.term == term,
            _ => false,
        },
    ensures
        node.on(event).0.term() == term,
        node.on(event).0.role == Role::Follower,
        node.on(event).0.leader_state is None,
{
}

/// A node that does not lead answers a client with the leader that it knows of,
/// and with nothing else; the request changes nothing.
pub proof fn clients_are_redirected(node: NodeView, req: ClientRequest)
    requires
        node.role != Role::Leader,
    ensures
        node.handle_client_request(req).0 == node,
        node.handle_client_request(req).1 == (ActionsView {
            client_responses: node.handle_client_request(req).1.client_responses,
            ..ActionsView::none()
        }),
        node.handle_client_request(req).1.client_responses.len() == 1,
        node.handle_client_request(req).1.client_responses[0].id == req.id,
        node.handle_client_request(req).1.client_responses[0].result == (ClientResult::NotLeader {
            leader_hint: node.current_leader,
        }),
{
}

} // verus!
