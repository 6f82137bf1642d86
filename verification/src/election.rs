//! Elections: who gets a vote, who wins, and what a winner does first.

use vstd::prelude::*;

use crate::config::RaftConfig;
use crate::log::RaftLog;
use crate::message::{
    AppendEntriesResponse, AppendEntriesView, Command, InstallSnapshotResponse, LogEntry,
    MessageView, NodeId, VoteRequest, VoteResponse,
};
use crate::node::RaftNode;
use crate::state::{Actions, ActionsView, PersistentView, Role};
use crate::transitions::NodeView;

verus! {

/// Whether more than half of so many nodes are this many.
pub open spec fn is_majority(count: int, size: int) -> bool {
    2 * count > size
}

// ── Votes ──────────────────────────────────────────────────────────────────

/// A node grants its vote exactly when it may. The request is not of a past term; the
/// node has voted for no other candidate in the request's term; and the candidate's log
/// ends with a higher term than its own, or with the same term and no earlier. It tells
/// the candidate, and nobody else, and a vote that it grants is recorded.
pub proof fn votes_are_granted_when_they_may_be(
    node: RaftNode,
    req: VoteRequest,
    result: (RaftNode, Actions),
)
    requires
        call_ensures(RaftNode::handle_vote_request, (node, req), result),
    ensures
        ({
            let old = node@;
            let after = result.0@;
            let actions = result.1@;
            let newer = req.term > old.persistent.current_term;
            let free = newer || old.persistent.voted_for is None || old.persistent.voted_for
                == Some(req.candidate_id);
            let up_to_date = req.last_log_term > old.log().last_term() || (req.last_log_term
                == old.log().last_term() && req.last_log_index >= old.log().last_index());
            let granted = req.term >= old.persistent.current_term && free && up_to_date;
            &&& actions.messages == seq![
                (
                    req.candidate_id,
                    MessageView::VoteResponse(
                        VoteResponse {
                            term: if newer {
                                req.term
                            } else {
                                old.persistent.current_term
                            },
                            vote_granted: granted,
                            peer_id: old.id,
                        },
                    ),
                ),
            ]
            &&& after.persistent.current_term == if newer {
                req.term
            } else {
                old.persistent.current_term
            }
            &&& after.persistent.voted_for == if granted {
                Some(req.candidate_id)
            } else if newer {
                None
            } else {
                old.persistent.voted_for
            }
            &&& after.persistent.log == old.persistent.log
            &&& after.role == if newer {
                Role::Follower
            } else {
                old.role
            }
            &&& actions.persist == if granted || newer {
                Some(after.persistent)
            } else {
                None
            }
            &&& actions.reset_election_timer == (granted || newer)
            &&& after.leader_state == if newer {
                None
            } else {
                old.leader_state
            }
            &&& after.current_leader == if newer {
                None
            } else {
                old.current_leader
            }
            &&& after.volatile == old.volatile
            &&& after.id == old.id && after.peers == old.peers && after.config == old.config
            &&& actions == ActionsView {
                messages: actions.messages,
                persist: actions.persist,
                reset_election_timer: actions.reset_election_timer,
                ..ActionsView::none()
            }
        }),
{
}

/// A node that has answered a request grants the same one again, and refuses every
/// other candidate in that term.
pub proof fn votes_are_kept(
    node: RaftNode,
    first: VoteRequest,
    second: VoteRequest,
    between: (RaftNode, Actions),
    result: (RaftNode, Actions),
)
    requires
        call_ensures(RaftNode::handle_vote_request, (node, first), between),
        call_ensures(RaftNode::handle_vote_request, (between.0, second), result),
        between.1@.messages[0].1 matches MessageView::VoteResponse(resp) && resp.vote_granted,
        second.term == first.term,
    ensures
        second == first ==> result.1@.messages == between.1@.messages,
        second.candidate_id != first.candidate_id ==> (result.1@.messages[0].1
            matches MessageView::VoteResponse(resp) && !resp.vote_granted),
        result.0@.persistent == between.0@.persistent,
{
}

// ── Candidates ─────────────────────────────────────────────────────────────

/// What a candidate asks of its peers.
pub open spec fn asks(node: NodeView, messages: Seq<(NodeId, MessageView)>, term: u64) -> bool {
    &&& messages.len() == node.peers.len()
    &&& forall|k: int|
        0 <= k < messages.len() ==> #[trigger] messages[k] == (
            node.peers[k],
            MessageView::VoteRequest(
                VoteRequest {
                    term,
                    candidate_id: node.id,
                    last_log_index: node.log().last_index() as u64,
                    last_log_term: node.log().last_term(),
                },
            ),
        )
}

/// A node that hears of no leader stands for election in the next term. It votes for
/// itself, writes that down, and asks each of its peers once, with where its log ends. A
/// node without peers leads at once, and a leader goes on as it was.
pub proof fn timeouts_start_elections(node: RaftNode, result: (RaftNode, Actions))
    requires
        node@.role != Role::Leader ==> node@.persistent.current_term < u64::MAX,
        call_ensures(RaftNode::election_timeout, (node,), result),
    ensures
        ({
            let old = node@;
            let after = result.0@;
            let actions = result.1@;
            if old.role == Role::Leader {
                after == old && actions == ActionsView::none()
            } else {
                let term = (old.persistent.current_term + 1) as u64;
                &&& after.persistent.current_term == old.persistent.current_term + 1
                &&& after.persistent.voted_for == Some(old.id)
                &&& actions.persist == Some(after.persistent)
                &&& if old.peers.len() == 0 {
                    after.role == Role::Leader
                } else {
                    &&& after.role == Role::Candidate
                    &&& after.leader_state is None
                    &&& after.current_leader is None
                    &&& after.persistent.log == old.persistent.log
                    &&& asks(old, actions.messages, term)
                    &&& actions == ActionsView {
                        messages: actions.messages,
                        persist: actions.persist,
                        reset_election_timer: true,
                        ..ActionsView::none()
                    }
                }
                &&& after.volatile == old.volatile
                &&& after.id == old.id && after.peers == old.peers && after.config
                    == old.config
            }
        }),
{
}

/// Nodes that have taken in granted votes, one after the other.
pub open spec fn count_votes(
    nodes: Seq<RaftNode>,
    actions: Seq<Actions>,
    voters: Seq<NodeId>,
) -> bool {
    let term = nodes[0]@.persistent.current_term;
    &&& nodes.len() == voters.len() + 1
    &&& actions.len() == voters.len()
    &&& forall|i: int|
        0 <= i < voters.len() ==> #[trigger] call_ensures(
            RaftNode::handle_vote_response,
            (nodes[i], voters[i], VoteResponse { term, vote_granted: true, peer_id: voters[i] }),
            (nodes[i + 1], actions[i]),
        )
}

/// A candidate wins when, with its own, it has the votes of more than half of the
/// cluster, each voter counted once, and not before.
pub proof fn majorities_elect(nodes: Seq<RaftNode>, actions: Seq<Actions>, voters: Seq<NodeId>)
    requires
        nodes[0]@.role == Role::Candidate,
        nodes[0]@.leader_state is None,
        count_votes(nodes, actions, voters),
        voters.no_duplicates(),
        voters.len() > 0,
    ensures
        nodes.last()@.role == Role::Leader <==> is_majority(
            1 + voters.len() as int,
            nodes[0]@.config.cluster_size as int,
        ),
        nodes.last()@.role != Role::Leader ==> nodes.last()@.role == Role::Candidate,
        nodes.last()@.persistent.current_term == nodes[0]@.persistent.current_term,
        nodes.last()@.persistent.voted_for == nodes[0]@.persistent.voted_for,
{
    votes_so_far(nodes, actions, voters, voters.len() as int);
}

proof fn votes_so_far(
    nodes: Seq<RaftNode>,
    actions: Seq<Actions>,
    voters: Seq<NodeId>,
    count: int,
)
    requires
        nodes[0]@.role == Role::Candidate,
        nodes[0]@.leader_state is None,
        count_votes(nodes, actions, voters),
        voters.no_duplicates(),
        0 < count <= voters.len(),
    ensures
        ({
            let node = nodes[count]@;
            &&& node.persistent.current_term == nodes[0]@.persistent.current_term
            &&& node.persistent.voted_for == nodes[0]@.persistent.voted_for
            &&& node.config == nodes[0]@.config
            &&& if is_majority(1 + count, node.config.cluster_size as int) {
                node.role == Role::Leader
            } else {
                &&& node.role == Role::Candidate
                &&& node.leader_state is Some
                &&& node.leader_state->0.voters() == voters.take(count).to_set()
            }
        }),
    decreases count,
{
    let before = nodes[count - 1]@;
    let node = nodes[count]@;
    let from = voters[count - 1];
    let term = nodes[0]@.persistent.current_term;
    let vote = VoteResponse { term, vote_granted: true, peer_id: from };
    assert(call_ensures(
        RaftNode::handle_vote_response,
        (nodes[count - 1], voters[count - 1], vote),
        (nodes[count - 1 + 1], actions[count - 1]),
    ));
    let earlier = voters.take(count - 1);
    let now = voters.take(count);
    assert(now =~= earlier.push(from));
    assert(now.to_set() =~= earlier.to_set().insert(from)) by {
        assert forall|p: NodeId| now.to_set().contains(p) <==> earlier.to_set().insert(
            from,
        ).contains(p) by {
            if earlier.contains(p) {
                let k = earlier.index_of(p);
                assert(now[k] == p);
            }
            assert(now[count - 1] == from);
        }
    }
    now.unique_seq_to_set();
    if count > 1 {
        votes_so_far(nodes, actions, voters, count - 1);
    }
    if !is_majority(count, before.config.cluster_size as int) || count == 1 {
        let tally = before.tally(from);
        if count == 1 {
            assert(earlier.to_set() =~= Set::empty());
            assert(tally.voters() =~= set![from]);
        } else {
            assert(tally.voters() =~= before.leader_state->0.voters().insert(from)) by {
                assert forall|p: NodeId| tally.voters().contains(p) <==>
                    before.leader_state->0.voters().insert(from).contains(p) by {}
            }
        }
        assert(tally.voters() == now.to_set());
    }
}

/// A candidate that has not won yet goes on waiting: it keeps count of its votes, and
/// does nothing else.
pub proof fn candidates_wait_for_votes(
    node: RaftNode,
    from: NodeId,
    resp: VoteResponse,
    result: (RaftNode, Actions),
)
    requires
        node@.role == Role::Candidate,
        call_ensures(RaftNode::handle_vote_response, (node, from, resp), result),
        result.0@.role == Role::Candidate,
    ensures
        result.0@ == (NodeView { leader_state: result.0@.leader_state, ..node@ }),
        result.1@ == ActionsView::none(),
{
}

/// A vote that is denied, or of another term than the candidacy, wins nothing; a later
/// term makes the candidate a follower.
pub proof fn other_answers_win_nothing(
    node: RaftNode,
    from: NodeId,
    resp: VoteResponse,
    result: (RaftNode, Actions),
)
    requires
        call_ensures(RaftNode::handle_vote_response, (node, from, resp), result),
        node@.role != Role::Candidate || !resp.vote_granted || resp.term
            != node@.persistent.current_term,
    ensures
        resp.term <= node@.persistent.current_term ==> result.0@ == node@ && result.1@
            == ActionsView::none(),
        resp.term > node@.persistent.current_term ==> deposed(node@, resp.term, result),
{
}

// ── Stepping down ──────────────────────────────────────────────────────────

/// Whether a node has become a follower in a later term, and nothing else has become
/// of it: it has no vote and no leader there yet, and its log is as it was. The term is
/// handed out to be written, and the node waits anew for a leader.
pub open spec fn deposed(old: NodeView, term: u64, result: (RaftNode, Actions)) -> bool {
    &&& result.0@ == NodeView {
        role: Role::Follower,
        persistent: PersistentView {
            current_term: term,
            voted_for: None,
            log: old.persistent.log,
        },
        leader_state: None,
        current_leader: None,
        ..old
    }
    &&& result.1@ == ActionsView {
        persist: Some(result.0@.persistent),
        reset_election_timer: true,
        ..ActionsView::none()
    }
}

/// An answer of a later term deposes whoever gets it.
pub proof fn later_terms_depose(
    node: RaftNode,
    from: NodeId,
    appended: AppendEntriesResponse,
    installed: InstallSnapshotResponse,
    term: u64,
    a: (RaftNode, Actions),
    b: (RaftNode, Actions),
    c: (RaftNode, Actions),
    d: (RaftNode, Actions),
)
    requires
        term > node@.persistent.current_term,
        appended.term == term,
        installed.term == term,
        call_ensures(RaftNode::handle_append_entries_response, (node, from, appended), a),
        call_ensures(RaftNode::handle_install_snapshot_response, (node, from, installed), b),
        call_ensures(RaftNode::step_down, (node, term), c),
        call_ensures(RaftNode::observe_term, (node, term), d),
    ensures
        deposed(node@, term, a),
        deposed(node@, term, b),
        deposed(node@, term, c),
        deposed(node@, term, d),
{
}

/// The sight of a term that is not later changes nothing.
pub proof fn other_terms_change_nothing(node: RaftNode, term: u64, result: (RaftNode, Actions))
    requires
        term <= node@.persistent.current_term,
        call_ensures(RaftNode::observe_term, (node, term), result),
    ensures
        result.0@ == node@,
        result.1@ == ActionsView::none(),
{
}

/// A new node is a follower in term 0 that has no vote, no log, and nothing committed,
/// and it is what it says it is.
pub proof fn new_nodes_are_followers(
    id: NodeId,
    peers: Vec<NodeId>,
    config: RaftConfig,
    node: RaftNode,
    term: u64,
    leads: bool,
)
    requires
        call_ensures(RaftNode::new, (id, peers, config), node),
        call_ensures(RaftNode::current_term, (&node,), term),
        call_ensures(RaftNode::is_leader, (&node,), leads),
    ensures
        node.id == id,
        node.peers@ == peers@,
        node.config == config,
        node.role == Role::Follower,
        node.persistent.current_term == 0,
        node.persistent.voted_for is None,
        node.persistent.log@.entries.len() == 0,
        node.persistent.log@.snapshot_index == 0,
        node.persistent.log@.snapshot_term == 0,
        node.volatile.commit_index == 0,
        node.volatile.last_applied == 0,
        node.leader_state is None,
        node.current_leader is None,
        term == 0,
        !leads,
{
    assert(node@.leader_state is None);
}

/// A node tells its term, its log and whether it leads.
pub proof fn nodes_tell_what_they_are(
    node: &RaftNode,
    term: u64,
    leads: bool,
    log: &RaftLog,
)
    requires
        call_ensures(RaftNode::current_term, (node,), term),
        call_ensures(RaftNode::is_leader, (node,), leads),
        call_ensures(RaftNode::log, (node,), log),
    ensures
        term == node.persistent.current_term,
        leads <==> node.role == Role::Leader,
        log@ == node.persistent.log@,
{
}

// ── The winner ─────────────────────────────────────────────────────────────

/// The entry that a new leader appends.
pub open spec fn first_entry(old: NodeView, term: u64) -> LogEntry {
    LogEntry { term, index: (old.log().last_index() + 1) as u64, command: Command::Noop }
}

/// The request with which a new leader tells a peer of itself and of its first entry.
pub open spec fn first_request(old: NodeView, term: u64) -> AppendEntriesView {
    AppendEntriesView {
        term,
        leader_id: old.id,
        prev_log_index: old.log().last_index() as u64,
        prev_log_term: if old.log().last_index() == 0 {
            0
        } else {
            old.log().last_term()
        },
        entries: seq![first_entry(old, term)],
        leader_commit: old.volatile.commit_index,
        round: 0,
    }
}

/// Whether a node has just taken up the leadership in `term`: it has appended an entry
/// of that term to its log, hands its state out to be written, and tells every peer of
/// the entry. It expects every peer to have the log that it had itself, and knows of
/// none that has it.
pub open spec fn takes_up_leadership(
    old: NodeView,
    term: u64,
    after: NodeView,
    actions: ActionsView,
) -> bool {
    let state = after.leader_state->0;
    &&& after.role == Role::Leader
    &&& after.persistent.current_term == term
    &&& after.current_leader == Some(old.id)
    &&& after.persistent.log.entries == old.persistent.log.entries.push(first_entry(old, term))
    &&& after.persistent.log.snapshot_index == old.persistent.log.snapshot_index
    &&& after.persistent.log.snapshot_term == old.persistent.log.snapshot_term
    &&& after.volatile == old.volatile
    &&& after.id == old.id && after.peers == old.peers && after.config == old.config
    &&& after.leader_state is Some
    &&& state.round == 0
    &&& forall|p: NodeId| #[trigger]
        old.peers.contains(p) ==> state.next_index.contains_key(p) && state.next_index[p]
            == old.log().last_index() + 1 && state.match_index.contains_key(p)
            && state.match_index[p] == 0 && state.acked_rounds.contains_key(p)
            && state.acked_rounds[p] == 0 && state.heartbeat_acks.contains_key(p)
            && !state.heartbeat_acks[p]
    &&& actions == ActionsView {
        messages: actions.messages,
        persist: Some(after.persistent),
        ..ActionsView::none()
    }
    &&& actions.messages.len() == old.peers.len()
    &&& forall|k: int|
        0 <= k < actions.messages.len() ==> #[trigger] actions.messages[k] == (
            old.peers[k],
            MessageView::AppendEntriesRequest(first_request(old, term)),
        )
}

/// A candidate that wins takes up the leadership of its term.
pub proof fn winners_lead(
    node: RaftNode,
    from: NodeId,
    resp: VoteResponse,
    result: (RaftNode, Actions),
)
    requires
        node.wf(),
        node@.log().last_index() < u64::MAX,
        node@.role == Role::Candidate,
        call_ensures(RaftNode::handle_vote_response, (node, from, resp), result),
        result.0@.role == Role::Leader,
    ensures
        takes_up_leadership(node@, node@.persistent.current_term, result.0@, result.1@),
        result.0@.persistent.voted_for == node@.persistent.voted_for,
{
    let voted = NodeView { leader_state: Some(node@.tally(from)), ..node@ };
    leadership_is_taken_up(voted);
}

/// A node without peers that hears of no leader takes up the leadership of the next
/// term.
pub proof fn lone_nodes_lead(node: RaftNode, result: (RaftNode, Actions))
    requires
        node.wf(),
        node@.log().last_index() < u64::MAX,
        node@.persistent.current_term < u64::MAX,
        node@.role != Role::Leader,
        node@.peers.len() == 0,
        call_ensures(RaftNode::election_timeout, (node,), result),
    ensures
        takes_up_leadership(
            node@,
            (node@.persistent.current_term + 1) as u64,
            result.0@,
            result.1@,
        ),
{
    leadership_is_taken_up(node@.candidacy());
}

proof fn leadership_is_taken_up(node: NodeView)
    requires
        node.log().wf(),
        node.log().last_index() < u64::MAX,
    ensures
        ({
            let (after, actions) = node.become_leader();
            takes_up_leadership(node, node.persistent.current_term, after, actions)
        }),
{
    let (after, actions) = node.become_leader();
    assert forall|p: NodeId| node.peers.contains(p) implies (after.in_reach())(p)
        && !(after.lagging())(p) by {}
    all_pass(node.peers, after.in_reach());
    none_pass(node.peers, after.lagging());
    assert(actions.send_snapshot_to =~= Seq::empty());
    assert forall|k: int| 0 <= k < actions.messages.len() implies #[trigger] actions.messages[k]
        == (
        node.peers[k],
        MessageView::AppendEntriesRequest(first_request(node, node.persistent.current_term)),
    ) by {
        let p = node.peers[k];
        assert(node.peers.contains(p));
        let request = after.append_entries_for(p);
        assert(request.entries =~= seq![first_entry(node, node.persistent.current_term)]);
        if node.log().entries.len() > 0 {
            assert(after.log().entries[node.log().entries.len() - 1]
                == node.log().entries.last());
        }
        assert(request =~= first_request(node, node.persistent.current_term));
    }
}

pub(crate) proof fn all_pass<T>(s: Seq<T>, p: spec_fn(T) -> bool)
    requires
        forall|x: T| #[trigger] s.contains(x) ==> p(x),
    ensures
        s.filter(p) == s,
    decreases s.len(),
{
    reveal(Seq::filter);
    if s.len() > 0 {
        assert(s.contains(s[s.len() - 1]));
        assert forall|x: T| #[trigger] s.drop_last().contains(x) implies p(x) by {
            let k = s.drop_last().index_of(x);
            assert(s[k] == x);
            assert(s.contains(x));
        }
        all_pass(s.drop_last(), p);
        assert(s.filter(p) =~= s);
    } else {
        assert(s.filter(p) =~= s);
    }
}

pub(crate) proof fn none_pass<T>(s: Seq<T>, p: spec_fn(T) -> bool)
    requires
        forall|x: T| #[trigger] s.contains(x) ==> !p(x),
    ensures
        s.filter(p).len() == 0,
    decreases s.len(),
{
    reveal(Seq::filter);
    if s.len() > 0 {
        assert(s.contains(s[s.len() - 1]));
        assert forall|x: T| #[trigger] s.drop_last().contains(x) implies !p(x) by {
            let k = s.drop_last().index_of(x);
            assert(s[k] == x);
            assert(s.contains(x));
        }
        none_pass(s.drop_last(), p);
    }
}

/// A copy of a node is that node.
pub proof fn copied_nodes_are_alike(node: &RaftNode, copy: RaftNode)
    requires
        call_ensures(RaftNode::clone, (node,), copy),
    ensures
        copy@ == node@,
{
}

/// What is said of a node is what it holds.
pub proof fn nodes_are_what_they_hold(node: RaftNode)
    ensures
        node@.id == node.id,
        node@.peers == node.peers@,
        node@.role == node.role,
        node@.persistent == node.persistent@,
        node@.volatile == node.volatile,
        node@.leader_state is Some <==> node.leader_state is Some,
        node.leader_state matches Some(state) ==> node@.leader_state == Some(state@),
        node@.config == node.config,
        node@.current_leader == node.current_leader,
{
}

} // verus!
