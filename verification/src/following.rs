//! What a follower does: it takes over its leader's log, says where it cannot, and comes
//! to hold all of it.

use vstd::prelude::*;

use crate::history::History;
use crate::leading::{higher, lower, request_for, sent_after};
use crate::log::{LogView, RaftLog};
use crate::message::{
    AppendEntriesRequest, AppendEntriesResponse, InstallSnapshotRequest, InstallSnapshotResponse,
    LogEntry, MessageView, NodeId, RaftMessage,
};
use crate::node::RaftNode;
use crate::state::{Actions, ActionsView, PersistentView, Role};
use crate::transitions::{Event, NodeView};

verus! {

// ── Entries ────────────────────────────────────────────────────────────────

/// Whether a log has, at the index before the first new entry, the term that the leader
/// has there. All logs agree before their first entry.
pub open spec fn agrees(log: LogView, prev_index: u64, prev_term: u64) -> bool {
    prev_index == 0 || log.term_at(prev_index as int) == prev_term
}

/// The answer to a request for new entries.
pub open spec fn answer_of(actions: ActionsView) -> AppendEntriesResponse {
    actions.messages[0].1->AppendEntriesResponse_0
}

/// Whether the one message is an answer to the leader.
pub open spec fn answers(actions: ActionsView, leader: NodeId) -> bool {
    &&& actions.messages.len() == 1
    &&& actions.messages[0].0 == leader
    &&& actions.messages[0].1 is AppendEntriesResponse
}

/// What a request of a leader makes of a node but for its log: it is in the leader's
/// term, knows its leader, and waits anew.
pub open spec fn follows(
    old: NodeView,
    after: NodeView,
    actions: ActionsView,
    term: u64,
    leader: NodeId,
) -> bool {
    let newer = term > old.persistent.current_term;
    &&& after.persistent.current_term == term
    &&& after.persistent.voted_for == if newer {
        None
    } else {
        old.persistent.voted_for
    }
    &&& after.role == if newer {
        Role::Follower
    } else {
        old.role
    }
    &&& after.leader_state == if newer {
        None
    } else {
        old.leader_state
    }
    &&& after.current_leader == Some(leader)
    &&& actions.reset_election_timer
    &&& after.id == old.id && after.peers == old.peers && after.config == old.config
    &&& after.volatile.last_applied == old.volatile.last_applied
    &&& actions.client_responses.len() == 0
    &&& actions.send_snapshot_to.len() == 0
}

/// A request of a past term changes nothing, and is answered with the current term.
pub proof fn past_leaders_are_told(
    node: RaftNode,
    req: AppendEntriesRequest,
    result: (RaftNode, Actions),
)
    requires
        req.term < node@.persistent.current_term,
        call_ensures(RaftNode::handle_append_entries, (node, req), result),
    ensures
        result.0@ == node@,
        answers(result.1@, req.leader_id),
        answer_of(result.1@) == (AppendEntriesResponse {
            term: node@.persistent.current_term,
            success: false,
            conflict_index: None,
            conflict_term: None,
            match_index: 0,
            round: 0,
            peer_id: node@.id,
        }),
        result.1@ == (ActionsView { messages: result.1@.messages, ..ActionsView::none() }),
{
}

/// A follower whose log agrees with the leader's at the index before the new entries
/// takes them over, and tells how far it agrees now. It follows the leader's commit
/// index as far as its log goes, never back, and hands out just the entries that are
/// newly committed.
pub proof fn followers_take_over_entries(
    node: RaftNode,
    req: AppendEntriesRequest,
    merged: RaftLog,
    result: (RaftNode, Actions),
)
    requires
        req.term >= node@.persistent.current_term,
        agrees(node@.log(), req.prev_log_index, req.prev_log_term),
        call_ensures(
            RaftLog::merge_entries,
            (&node.persistent.log, &req.entries),
            Some(merged),
        ),
        merged@.last_index() <= u64::MAX,
        call_ensures(RaftNode::handle_append_entries, (node, req), result),
    ensures
        ({
            let old = node@;
            let after = result.0@;
            let actions = result.1@;
            let commit = after.volatile.commit_index;
            &&& follows(old, after, actions, req.term, req.leader_id)
            &&& after.persistent.log == merged@
            &&& commit == higher(
                old.volatile.commit_index as int,
                lower(req.leader_commit as int, merged@.last_index()),
            )
            &&& answers(actions, req.leader_id)
            &&& answer_of(actions) == (AppendEntriesResponse {
                term: req.term,
                success: true,
                conflict_index: None,
                conflict_term: None,
                match_index: if req.entries@.len() == 0 {
                    req.prev_log_index
                } else {
                    req.entries@.last().index
                },
                round: req.round,
                peer_id: old.id,
            })
            &&& actions.persist == Some(after.persistent)
            &&& actions.entries_to_apply == merged@.between(
                old.volatile.commit_index as int,
                commit as int,
            )
            &&& actions.install_snapshot is None
        }),
{
}

/// A follower whose log does not agree leaves it as it is and says where to go on. If it
/// has no term there, it says where its log ends. If it has another term there, it says
/// which, and where the entries of that term that end there start.
pub proof fn followers_point_at_conflicts(
    node: RaftNode,
    req: AppendEntriesRequest,
    result: (RaftNode, Actions),
)
    requires
        node.wf(),
        node@.log().last_index() < u64::MAX,
        req.term >= node@.persistent.current_term,
        !agrees(node@.log(), req.prev_log_index, req.prev_log_term),
        call_ensures(RaftNode::handle_append_entries, (node, req), result),
    ensures
        ({
            let old = node@;
            let after = result.0@;
            let actions = result.1@;
            let resp = answer_of(actions);
            let term = old.log().term_at(req.prev_log_index as int);
            &&& follows(old, after, actions, req.term, req.leader_id)
            &&& after.persistent.log == old.persistent.log
            &&& after.volatile == old.volatile
            &&& answers(actions, req.leader_id)
            &&& !resp.success
            &&& resp.term == req.term
            &&& resp.round == req.round
            &&& resp.peer_id == old.id
            &&& resp.match_index == 0
            &&& term == 0 ==> resp.conflict_term is None && resp.conflict_index == Some(
                (old.log().last_index() + 1) as u64,
            )
            &&& term != 0 ==> resp.conflict_term == Some(term) && points_at_run(
                old.log(),
                resp.conflict_index,
                req.prev_log_index as int,
            )
            &&& actions.persist == if req.term > old.persistent.current_term {
                Some(after.persistent)
            } else {
                None
            }
            &&& actions.entries_to_apply.len() == 0
            &&& actions.install_snapshot is None
        }),
{
    let log = node@.log();
    let prev = req.prev_log_index as int;
    if log.term_at(prev) != 0 {
        run_starts_there(log, prev);
    }
}

/// Whether an index is the first of the entries of one term that end at `end`.
pub open spec fn points_at_run(log: LogView, index: Option<u64>, end: int) -> bool {
    index matches Some(start) && {
        &&& 1 <= start <= end
        &&& forall|i: int| start <= i <= end ==> #[trigger] log.term_at(i) == log.term_at(end)
        &&& start == 1 || log.term_at(start - 1) != log.term_at(end)
    }
}

proof fn run_starts_there(log: LogView, end: int)
    requires
        1 <= end <= u64::MAX,
        log.term_at(end) != 0,
    ensures
        points_at_run(log, Some(log.run_start(end) as u64), end),
{
    let other = |i: int| log.term_at(i) != log.term_at(end);
    crate::log::highest_is_highest(other, 0, end);
    let found = crate::log::highest(other, 0, end);
    assert(found < end) by {
        if found == end {
            assert(other(end));
        }
    }
    assert forall|i: int| found + 1 <= i <= end implies #[trigger] log.term_at(i) == log.term_at(
        end,
    ) by {
        assert(!other(i));
    }
    if found > 0 {
        assert(other(found));
    }
}

// ── Catching up ────────────────────────────────────────────────────────────

/// Two logs are akin: where one has an entry of a term, and the other one of the same
/// term at that index or before it, both have the same term at the earlier index.
pub open spec fn akin(a: LogView, b: LogView) -> bool {
    forall|i: int, j: int|
        1 <= j <= i && #[trigger] a.term_at(i) != 0 && a.term_at(i) == #[trigger] b.term_at(j)
            && a.term_at(j) != 0 ==> a.term_at(j) == b.term_at(j)
}

/// Whether a leader is about to send entries to a follower.
pub open spec fn is_reached(leader: NodeView, follower: NodeView) -> bool {
    &&& leader.wf() && follower.wf()
    &&& leader.role == Role::Leader
    &&& leader.peers.contains(follower.id)
    &&& follower.persistent.current_term <= leader.persistent.current_term
    &&& sent_after(leader, follower.id) <= leader.log().last_index() < u64::MAX
    &&& follower.log().last_index() < u64::MAX
    &&& forall|i: int| leader.log().holds(i) ==> #[trigger] leader.log().term_at(i) != 0
    &&& leader.log().snapshot_index > 0 ==> leader.log().snapshot_term != 0
    &&& akin(leader.log(), follower.log())
}

/// A leader and a follower after the leader's request has reached the follower and the
/// answer has come back, and whether the follower has accepted the request.
pub open spec fn exchanged(leader: NodeView, follower: NodeView) -> (NodeView, NodeView, bool) {
    let (told, actions) = follower.handle_append_entries(request_for(leader, follower.id));
    let resp = answer_of(actions);
    (leader.handle_append_entries_response(follower.id, resp).0, told, resp.success)
}

/// Every exchange makes progress: the follower accepts the request, or the leader goes
/// back. Both keep their logs, and the next exchange can take place.
pub proof fn exchanges_make_progress(leader: NodeView, follower: NodeView)
    requires
        is_reached(leader, follower),
        sent_after(leader, follower.id) >= leader.log().snapshot_index,
    ensures
        ({
            let (next, told, accepted) = exchanged(leader, follower);
            !accepted ==> {
                &&& sent_after(next, follower.id) < sent_after(leader, follower.id)
                &&& next.log() == leader.log()
                &&& told.log() == follower.log()
                &&& told.id == follower.id
                &&& is_reached(next, told)
            }
        }),
{
    let id = follower.id;
    let req = request_for(leader, id);
    let prev = sent_after(leader, id);
    let (told, actions) = follower.handle_append_entries(req);
    let resp = answer_of(actions);
    let next = leader.handle_append_entries_response(id, resp).0;
    if !resp.success {
        assert(!agrees(follower.log(), req.prev_log_index, req.prev_log_term));
        assert(prev >= 1);
        let term = follower.log().term_at(prev);
        let mine = leader.log().term_at(prev);
        assert(mine != 0) by {
            if prev != leader.log().snapshot_index {
                assert(leader.log().holds(prev));
            }
        }
        assert(mine != term);
        if term != 0 {
            run_starts_there(follower.log(), prev);
            let same = |i: int| leader.log().term_at(i) == term;
            crate::log::highest_is_highest(same, 0, leader.log().last_index());
            let found = crate::log::highest(same, 0, leader.log().last_index());
            if found > 0 {
                assert(same(found));
                if found >= prev {
                    assert(leader.log().term_at(found) == follower.log().term_at(prev));
                    assert(leader.log().term_at(prev) == follower.log().term_at(prev));
                }
            }
        }
        let state = leader.after_answer(id, resp);
        assert(next.leader_state == Some(state));
        assert(sent_after(next, id) < prev);
        assert(told.log() == follower.log());
        assert(next.tracks_peers()) by {
            assert(leader.tracks_peers());
            assert(leader.leader_state->0.next_index.contains_key(id));
        }
    }
}

/// A request that a follower accepts brings it all that the leader has: the two logs are
/// the same up to the leader's end wherever both hold an entry, and the leader knows that
/// the follower has got that far, and sends it nothing of that again.
pub proof fn accepted_requests_bring_the_log(leader: NodeView, follower: NodeView)
    requires
        is_reached(leader, follower),
        sent_after(leader, follower.id) >= leader.log().snapshot_index,
        crate::replication::terms_positive(leader.log()),
        crate::replication::logs_match(leader.log(), follower.log()),
        follower.admits(Event::AppendEntries(request_for(leader, follower.id))),
        exchanged(leader, follower).2,
    ensures
        ({
            let (next, told, accepted) = exchanged(leader, follower);
            let last = leader.log().last_index();
            &&& forall|i: int|
                leader.log().holds(i) && told.log().holds(i) ==> #[trigger] leader.log().at(i)
                    == #[trigger] told.log().at(i)
            &&& told.log().last_index() >= last
            &&& next.leader_state->0.match_index.contains_key(follower.id)
            &&& next.leader_state->0.match_index[follower.id] >= last
            &&& sent_after(next, follower.id) == last
            &&& next.log() == leader.log()
        }),
{
    let req = request_for(leader, follower.id);
    let (told, actions) = follower.handle_append_entries(req);
    assert(leader.append_entries_for(follower.id) == req);
    crate::replication::acknowledged_entries_are_replicated(leader, follower);
    let prev = sent_after(leader, follower.id);
    let last = leader.log().last_index();
    assert(told.log().last_index() >= last) by {
        let first = follower.log();
        crate::laws::base_stays(follower, Event::AppendEntries(req));
        if prev < last {
            assert(follower.log().covers(last) || told.log().holds(last));
        } else {
            assert(req.entries.len() == 0);
            assert(told.log() == first);
            if prev > 0 {
                assert(first.term_at(prev) == leader.log().term_at(prev));
                assert(leader.log().term_at(prev) != 0) by {
                    if prev != leader.log().snapshot_index {
                        assert(leader.log().holds(prev));
                    }
                }
            }
        }
    }
}

/// Whether the follower accepts a request after at most so many rejections, or the
/// leader comes to send it a snapshot.
pub open spec fn catches_up(leader: NodeView, follower: NodeView, rejections: nat) -> bool
    decreases rejections,
{
    let (next, told, accepted) = exchanged(leader, follower);
    ||| sent_after(leader, follower.id) < leader.log().snapshot_index
    ||| accepted
    ||| (rejections > 0 && catches_up(next, told, (rejections - 1) as nat))
}

/// A follower catches up: when requests and answers arrive, it accepts a request after
/// no more rejections than the leader has entries before the first one that it sends,
/// or gets a snapshot.
pub proof fn followers_catch_up(leader: NodeView, follower: NodeView)
    requires
        is_reached(leader, follower),
    ensures
        catches_up(leader, follower, sent_after(leader, follower.id) as nat),
    decreases sent_after(leader, follower.id),
{
    let before = sent_after(leader, follower.id);
    if before >= leader.log().snapshot_index {
        exchanges_make_progress(leader, follower);
        let (next, told, accepted) = exchanged(leader, follower);
        if !accepted {
            followers_catch_up(next, told);
            more_rejections_are_enough(
                next,
                told,
                sent_after(next, told.id) as nat,
                (before - 1) as nat,
            );
        }
    }
}

proof fn more_rejections_are_enough(leader: NodeView, follower: NodeView, few: nat, many: nat)
    requires
        catches_up(leader, follower, few),
        few <= many,
    ensures
        catches_up(leader, follower, many),
    decreases few,
{
    let (next, told, accepted) = exchanged(leader, follower);
    if sent_after(leader, follower.id) >= leader.log().snapshot_index && !accepted {
        more_rejections_are_enough(next, told, (few - 1) as nat, (many - 1) as nat);
    }
}

/// The logs of any two nodes of a cluster are akin, and so every leader brings every
/// follower of its term up to date.
pub proof fn logs_are_akin(run: Seq<History>, i: int, a: NodeId, b: NodeId)
    requires
        crate::history::is_history(run),
        0 <= i < run.len(),
        run[i].has(a),
        run[i].has(b),
    ensures
        akin(run[i].node(a).log(), run[i].node(b).log()),
{
    crate::safety::inv_holds_throughout(run, i);
    let h = run[i];
    let x = h.node(a).log();
    let y = h.node(b).log();
    assert(h.node_ok(a) && h.node_ok(b));
    crate::progress::whole_log_stays(h, a);
    crate::progress::whole_log_stays(h, b);
    assert forall|i: int, j: int|
        1 <= j <= i && #[trigger] x.term_at(i) != 0 && x.term_at(i) == #[trigger] y.term_at(j)
            && x.term_at(j) != 0 implies x.term_at(j) == y.term_at(j) by {
        known_terms(h, a, i);
        known_terms(h, a, j);
        known_terms(h, b, j);
        let one = h.logs[a];
        let other = h.logs[b];
        assert(h.traced_at(one, i));
        assert(h.traced_at(other, j));
        let source = h.leader_logs[x.term_at(i)];
        assert(one.take(i)[j - 1] == source.take(i)[j - 1]);
        assert(other.take(j)[j - 1] == source.take(j)[j - 1]);
    }
}

/// A term that a log knows of is the one in the whole log.
proof fn known_terms(h: History, id: NodeId, index: int)
    requires
        h.inv(),
        h.has(id),
        h.node(id).log().term_at(index) != 0,
    ensures
        1 <= index <= h.logs[id].len(),
        h.node(id).log().term_at(index) == crate::history::term_of(h.logs[id], index),
{
    assert(h.node_ok(id));
    crate::progress::whole_log_stays(h, id);
}

// ── Snapshots ──────────────────────────────────────────────────────────────

/// A snapshot of the current leader that goes beyond what is committed is installed: all
/// that it covers is committed, and what follows it in the log stays if the log has the
/// snapshot's last entry, and goes otherwise. Any other snapshot leaves the log alone.
/// The sender is told the term in either case.
pub proof fn snapshots_are_installed(
    node: RaftNode,
    req: InstallSnapshotRequest,
    result: (RaftNode, Actions),
)
    requires
        node.wf(),
        call_ensures(RaftNode::handle_install_snapshot, (node, req), result),
    ensures
        ({
            let old = node@;
            let after = result.0@;
            let actions = result.1@;
            let index = req.last_included_index;
            let at = index - old.persistent.log.snapshot_index - 1;
            let entries = old.persistent.log.entries;
            let past = req.term < old.persistent.current_term;
            let newer = req.term > old.persistent.current_term;
            let installs = !past && index > old.volatile.commit_index;
            let goes_on = 0 <= at < entries.len() && entries[at].term == req.last_included_term;
            &&& actions.messages == seq![
                (
                    req.leader_id,
                    MessageView::InstallSnapshotResponse(
                        InstallSnapshotResponse {
                            term: after.persistent.current_term,
                            peer_id: old.id,
                        },
                    ),
                ),
            ]
            &&& past ==> after == old && actions.persist is None && !actions.reset_election_timer
            &&& !past ==> follows(old, after, actions, req.term, req.leader_id)
            &&& installs ==> {
                &&& actions.install_snapshot == Some(req@)
                &&& after.volatile.commit_index == index
                &&& after.persistent.log.snapshot_index == index
                &&& after.persistent.log.snapshot_term == req.last_included_term
                &&& after.persistent.log.entries == if goes_on {
                    entries.skip(at + 1)
                } else {
                    Seq::empty()
                }
            }
            &&& !installs ==> {
                &&& actions.install_snapshot is None
                &&& after.volatile == old.volatile
                &&& after.persistent.log == old.persistent.log
            }
            &&& actions.persist == if installs || newer {
                Some(after.persistent)
            } else {
                None
            }
            &&& actions.entries_to_apply.len() == 0
        }),
{
    let at = req.last_included_index - node@.persistent.log.snapshot_index - 1;
    let entries = node@.persistent.log.entries;
    if 0 <= at < entries.len() {
        assert(node@.log().after(req.last_included_index as int) =~= entries.skip(at + 1));
    }
}

/// A node compacts its log as its log is compacted, and nothing else becomes of it.
pub proof fn nodes_compact_their_logs(
    node: RaftNode,
    index: u64,
    after: RaftNode,
    log: RaftLog,
)
    requires
        call_ensures(RaftNode::compact_log, (node, index), after),
        call_ensures(RaftLog::compact_up_to, (&node.persistent.log, index), log),
    ensures
        after@ == (NodeView {
            persistent: PersistentView { log: log@, ..node@.persistent },
            ..node@
        }),
{
}

// ── What can be handled ────────────────────────────────────────────────────

/// Whether no counter of a node is at its end.
pub open spec fn has_room(node: NodeView) -> bool {
    &&& node.log().last_index() < u64::MAX
    &&& node.persistent.current_term < u64::MAX
    &&& node.leader_state is Some ==> node.leader_state->0.round < u64::MAX
}

/// Whether the entries of a request are numbered from the one after the index before
/// them, and that index is no later than the end of the log.
pub open spec fn joins(log: LogView, req: AppendEntriesRequest) -> bool {
    &&& req.prev_log_index <= log.last_index()
    &&& forall|i: int|
        0 <= i < req.entries@.len() ==> (#[trigger] req.entries@[i]).index == req.prev_log_index + 1
            + i
}

/// A node whose counters have room can handle every message, but for new entries that
/// do not join its log, and both its timers.
pub proof fn ordinary_messages_can_be_handled(
    node: &RaftNode,
    from: NodeId,
    message: &RaftMessage,
    can: bool,
    can_append: bool,
    can_time_out: bool,
    can_tick: bool,
)
    requires
        node.wf(),
        has_room(node@),
        message matches RaftMessage::AppendEntriesRequest(req) ==> joins(node@.log(), *req),
        call_ensures(RaftNode::can_handle, (node, from, message), can),
        message matches RaftMessage::AppendEntriesRequest(req) ==> call_ensures(
            RaftNode::can_handle_append_entries,
            (node, req),
            can_append,
        ),
        call_ensures(RaftNode::can_time_out, (node,), can_time_out),
        call_ensures(RaftNode::can_tick, (node,), can_tick),
    ensures
        can,
        message is AppendEntriesRequest ==> can_append,
        can_time_out,
        can_tick,
{
    if let RaftMessage::AppendEntriesRequest(req) = message {
        joined_entries_are_taken(node@.log(), req.entries@, req.prev_log_index + 1);
    }
}

proof fn joined_entries_are_taken(log: LogView, entries: Seq<LogEntry>, first: int)
    requires
        log.wf(),
        first <= log.last_index() + 1,
        forall|i: int| 0 <= i < entries.len() ==> (#[trigger] entries[i]).index == first + i,
    ensures
        log.takes_all(entries),
    decreases entries.len(),
{
    if entries.len() > 0 {
        let next = log.with_entry(entries[0]);
        let rest = entries.skip(1);
        assert(entries[0].index == first);
        assert forall|i: int| 0 <= i < rest.len() implies (#[trigger] rest[i]).index == first + 1
            + i by {
            assert(rest[i] == entries[i + 1]);
        }
        joined_entries_are_taken(next, rest, first + 1);
    }
}

} // verus!
