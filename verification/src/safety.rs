//! No committed entry is lost, and no two nodes commit different entries.

use vstd::prelude::*;

use crate::cluster::{Cluster, Step};
use crate::history::History;
use crate::message::{LogEntry, NodeId};
use crate::state::Role;

verus! {

// ── What no run breaks ─────────────────────────────────────────────────────

pub(crate) proof fn inv_holds_throughout(run: Seq<History>, i: int)
    requires
        crate::history::is_history(run),
        0 <= i < run.len(),
    ensures
        run[i].inv(),
    decreases i,
{
    if i == 0 {
        crate::progress::inv_holds_at_the_start(run[0]);
    } else {
        inv_holds_throughout(run, i - 1);
        let before = run[i - 1];
        let after = run[i];
        assert(after.follows(before));
        let step = choose|step: Step| before.steps_to(after, step);
        crate::progress::inv_is_kept(before, after, step);
    }
}

pub(crate) proof fn runs_grow(run: Seq<History>, i: int, j: int)
    requires
        crate::history::is_history(run),
        0 <= i <= j < run.len(),
    ensures
        crate::growth::grows(run[i], run[j]),
    decreases j - i,
{
    if i == j {
        assert forall|t: u64| #[trigger] run[i].has_led(t) implies {
            run[i].leader_logs[t].is_prefix_of(run[i].leader_logs[t])
        } by {
            let log = run[i].leader_logs[t];
            assert(log =~= log.subrange(0, log.len() as int));
        }
    } else {
        runs_grow(run, i, j - 1);
        inv_holds_throughout(run, j - 1);
        let before = run[j - 1];
        let after = run[j];
        assert(after.follows(before));
        let step = choose|step: Step| before.steps_to(after, step);
        crate::progress::inv_is_kept(before, after, step);
        crate::growth::growth_goes_on(run[i], before, after);
    }
}

/// The live log of a node is at all times the end of its whole log, and its terms
/// never fall.
pub proof fn live_logs_are_tails(run: Seq<History>, i: int, id: NodeId)
    requires
        crate::history::is_history(run),
        0 <= i < run.len(),
        run[i].has(id),
    ensures
        run[i].log_is_whole(id),
        crate::history::ordered(run[i].logs[id]),
        run[i].node(id).log().snapshot_index <= run[i].node(id).volatile.commit_index
            <= run[i].logs[id].len(),
{
    inv_holds_throughout(run, i);
    assert(run[i].node_ok(id));
    crate::growth::traced_log_is_ordered(run[i], run[i].logs[id]);
}

/// Where two nodes have an entry of the same term at one index, their logs are the
/// same up to there.
pub proof fn logs_match(run: Seq<History>, i: int, a: NodeId, b: NodeId, index: int)
    requires
        crate::history::is_history(run),
        0 <= i < run.len(),
        run[i].has(a),
        run[i].has(b),
        1 <= index <= run[i].logs[a].len(),
        index <= run[i].logs[b].len(),
        crate::history::term_of(run[i].logs[a], index) == crate::history::term_of(run[i].logs[b], index),
    ensures
        run[i].logs[a].take(index) == run[i].logs[b].take(index),
{
    inv_holds_throughout(run, i);
    assert(run[i].node_ok(a));
    assert(run[i].node_ok(b));
    crate::growth::traced_logs_match(run[i], run[i].logs[a], run[i].logs[b], index);
}

/// Two nodes never commit different entries: whatever is committed at both, now
/// or at different times, is the same at both.
pub proof fn committed_logs_agree(
    run: Seq<History>,
    i: int,
    j: int,
    a: NodeId,
    b: NodeId,
    index: int,
)
    requires
        crate::history::is_history(run),
        0 <= i <= j < run.len(),
        run[i].has(a),
        run[j].has(b),
        1 <= index <= run[i].node(a).volatile.commit_index,
        index <= run[j].node(b).volatile.commit_index,
    ensures
        index <= run[i].logs[a].len(),
        index <= run[j].logs[b].len(),
        run[i].logs[a][index - 1] == run[j].logs[b][index - 1],
{
    inv_holds_throughout(run, i);
    inv_holds_throughout(run, j);
    runs_grow(run, i, j);
    assert(run[i].node_ok(a));
    assert(run[j].node_ok(b));
    let of_a = run[i].logs[a].take(run[i].node(a).volatile.commit_index as int);
    let of_b = run[j].logs[b].take(run[j].node(b).volatile.commit_index as int);
    let term_a = run[i].node(a).term();
    crate::growth::settled_is_kept(run[i], run[j], of_a, term_a, term_a);
    crate::completeness::settled_logs_agree(
        run[j],
        of_a,
        of_b,
        term_a,
        run[j].node(b).term(),
        index - 1,
    );
    assert(of_a[index - 1] == run[i].logs[a][index - 1]);
    assert(of_b[index - 1] == run[j].logs[b][index - 1]);
}

/// No committed entry is lost: whatever a node has committed is in the log of
/// every node that leads from then on in that node's term or a later one.
pub proof fn committed_log_reaches_leaders(
    run: Seq<History>,
    i: int,
    j: int,
    a: NodeId,
    leader: NodeId,
)
    requires
        crate::history::is_history(run),
        0 <= i <= j < run.len(),
        run[i].has(a),
        run[j].has(leader),
        run[j].node(leader).role == Role::Leader,
        run[j].node(leader).term() >= run[i].node(a).term(),
    ensures
        run[i].logs[a].take(run[i].node(a).volatile.commit_index as int).is_prefix_of(
            run[j].logs[leader],
        ),
{
    inv_holds_throughout(run, i);
    inv_holds_throughout(run, j);
    runs_grow(run, i, j);
    assert(run[i].node_ok(a));
    assert(run[j].node_ok(leader));
    assert(run[j].leader_ok(leader));
    let committed = run[i].logs[a].take(run[i].node(a).volatile.commit_index as int);
    let term = run[i].node(a).term();
    crate::growth::settled_is_kept(run[i], run[j], committed, term, term);
    crate::completeness::leaders_have_what_is_settled(
        run[j],
        committed,
        term,
        run[j].node(leader).term(),
    );
}

/// Whether the nodes are a majority, and the whole log of each of them has the entry.
pub open spec fn majority_has(h: History, entry: LogEntry, nodes: Set<NodeId>) -> bool {
    &&& nodes.subset_of(h.cluster.nodes.dom())
    &&& 2 * nodes.len() > h.cluster.nodes.dom().len()
    &&& forall|n: NodeId| #[trigger]
        nodes.contains(n) ==> 1 <= entry.index <= h.logs[n].len() && h.logs[n][entry.index - 1]
            == entry
}

/// A committed entry is durable on a majority: as long as a node has it committed, a
/// majority of the nodes has it in the log or in the snapshot that it has on disk.
pub proof fn committed_entries_are_on_a_majority(run: Seq<History>, i: int, id: NodeId, index: int)
    requires
        crate::history::is_history(run),
        0 <= i < run.len(),
        run[i].has(id),
        1 <= index <= run[i].node(id).volatile.commit_index,
    ensures
        index <= run[i].logs[id].len(),
        exists|nodes: Set<NodeId>| #[trigger]
            majority_has(run[i], run[i].logs[id][index - 1], nodes),
{
    let h = run[i];
    inv_holds_throughout(run, i);
    assert(h.node_ok(id));
    crate::growth::traced_log_is_ordered(h, h.logs[id]);
    let committed = h.logs[id].take(h.node(id).volatile.commit_index as int);
    let entry = h.logs[id][index - 1];
    let (term, len) = choose|term: u64, len: int|
        term <= h.node(id).term() && #[trigger] h.starts(committed, term, len);
    assert(h.starts(committed, term, len));
    let nodes = choose|nodes: Set<NodeId>| #[trigger] h.held_by(term, len, nodes);
    assert(h.held_by(term, len, nodes));
    assert forall|n: NodeId| #[trigger] nodes.contains(n) implies 1 <= entry.index
        <= h.logs[n].len() && h.logs[n][entry.index - 1] == entry by {
        assert(h.accepts_up_to(n, term) >= len);
        holders_keep_what_is_chosen(h, n, term, len);
        assert(committed[index - 1] == h.start_of(term, committed.len() as int)[index - 1]);
        assert(h.start_of(term, len)[index - 1] == h.logs[n].subrange(0, len)[index - 1]);
    }
    assert(majority_has(h, entry, nodes));
}

/// A node that has taken over what was chosen still has it.
proof fn holders_keep_what_is_chosen(h: History, n: NodeId, term: u64, len: int)
    requires
        h.inv(),
        h.has(n),
        h.chosen(term, len),
        h.accepts_up_to(n, term) >= len,
    ensures
        h.start_of(term, len).is_prefix_of(h.logs[n]),
{
    assert(h.node_ok(n));
    assert(h.accepted.contains_key((n, term)));
    assert(h.accepted_ok(n, term));
    let bound = h.node(n).term() as int;
    assert(h.keeps(h.logs[n], term, len, bound));
    if !h.start_of(term, len).is_prefix_of(h.logs[n]) {
        let s = choose|s: u64| term < s <= bound && #[trigger] h.lacks(s, term, len);
        crate::completeness::later_leaders_have_it(h, term, len, s);
    }
}

/// Whether the nodes are a majority of a cluster, and each of them has the entry in its
/// log or has a snapshot that covers it.
pub open spec fn majority_keeps(cluster: Cluster, entry: LogEntry, nodes: Set<NodeId>) -> bool {
    &&& nodes.subset_of(cluster.nodes.dom())
    &&& 2 * nodes.len() > cluster.nodes.dom().len()
    &&& forall|n: NodeId| #[trigger]
        nodes.contains(n) ==> {
            let log = cluster.nodes[n].log();
            log.covers(entry.index as int) || log.get(entry.index as int) == Some(entry)
        }
}

/// The state machine after the entries of a log have been applied one after the
/// other.
pub open spec fn replayed(log: Seq<LogEntry>) -> Map<Seq<char>, Seq<char>>
    decreases log.len(),
{
    if log.len() == 0 {
        Map::empty()
    } else {
        crate::kv::applied(replayed(log.drop_last()), log.last().command).0
    }
}

/// Equally many committed entries of two nodes have the same outcome.
pub proof fn committed_logs_replay_alike(
    run: Seq<History>,
    i: int,
    j: int,
    a: NodeId,
    b: NodeId,
    applied: int,
)
    requires
        crate::history::is_history(run),
        0 <= i <= j < run.len(),
        run[i].has(a),
        run[j].has(b),
        0 <= applied <= run[i].node(a).volatile.commit_index,
        applied <= run[j].node(b).volatile.commit_index,
    ensures
        replayed(run[i].logs[a].take(applied)) == replayed(run[j].logs[b].take(applied)),
{
    live_logs_are_tails(run, i, a);
    live_logs_are_tails(run, j, b);
    assert(run[i].logs[a].take(applied) =~= run[j].logs[b].take(applied)) by {
        assert forall|k: int| 0 <= k < applied implies run[i].logs[a][k] == run[j].logs[b][k] by {
            committed_logs_agree(run, i, j, a, b, k + 1);
        }
    }
}

/// A live entry of a node is the one at its index in the whole log.
proof fn live_entry(run: Seq<History>, i: int, id: NodeId, index: int)
    requires
        crate::history::is_history(run),
        0 <= i < run.len(),
        run[i].has(id),
        run[i].node(id).log().holds(index),
    ensures
        1 <= index <= run[i].logs[id].len(),
        run[i].node(id).log().at(index) == run[i].logs[id][index - 1],
{
    live_logs_are_tails(run, i, id);
}

proof fn live_logs_agree(run: Seq<History>, i: int, j: int, a: NodeId, b: NodeId, index: int)
    requires
        crate::history::is_history(run),
        0 <= i <= j < run.len(),
        run[i].has(a),
        run[j].has(b),
        run[i].node(a).log().holds(index),
        run[j].node(b).log().holds(index),
        index <= run[i].node(a).volatile.commit_index,
        index <= run[j].node(b).volatile.commit_index,
    ensures
        run[i].node(a).log().at(index) == run[j].node(b).log().at(index),
{
    live_entry(run, i, a, index);
    live_entry(run, j, b, index);
    committed_logs_agree(run, i, j, a, b, index);
}

proof fn live_logs_reach_leaders(
    run: Seq<History>,
    i: int,
    j: int,
    a: NodeId,
    leader: NodeId,
    index: int,
)
    requires
        crate::history::is_history(run),
        0 <= i <= j < run.len(),
        run[i].has(a),
        run[j].has(leader),
        run[i].node(a).log().holds(index),
        index <= run[i].node(a).volatile.commit_index,
        run[j].node(leader).role == Role::Leader,
        run[j].node(leader).term() >= run[i].node(a).term(),
    ensures
        index <= run[j].node(leader).log().last_index(),
        run[j].node(leader).log().snapshot_index < index ==> run[j].node(leader).log().at(index)
            == run[i].node(a).log().at(index),
{
    live_entry(run, i, a, index);
    live_logs_are_tails(run, i, a);
    live_logs_are_tails(run, j, leader);
    committed_log_reaches_leaders(run, i, j, a, leader);
    let committed = run[i].logs[a].take(run[i].node(a).volatile.commit_index as int);
    let log = run[j].logs[leader];
    assert(committed[index - 1] == log.subrange(0, committed.len() as int)[index - 1]);
    if run[j].node(leader).log().snapshot_index < index {
        live_entry(run, j, leader, index);
    }
}

/// In a run of a cluster two committed entries at one index are the same, at
/// whatever nodes and whatever times they are found.
pub proof fn committed_entries_agree(
    run: Seq<Cluster>,
    i: int,
    j: int,
    a: NodeId,
    b: NodeId,
    index: int,
)
    requires
        crate::history::is_orderly_run(run),
        0 <= i <= j < run.len(),
        run[i].nodes.contains_key(a),
        run[j].nodes.contains_key(b),
        run[i].nodes[a].log().holds(index),
        run[j].nodes[b].log().holds(index),
        index <= run[i].nodes[a].volatile.commit_index,
        index <= run[j].nodes[b].volatile.commit_index,
    ensures
        run[i].nodes[a].log().at(index) == run[j].nodes[b].log().at(index),
{
    let histories = some_history(run);
    assert(histories[i].cluster == run[i]);
    assert(histories[j].cluster == run[j]);
    live_logs_agree(histories, i, j, a, b, index);
}

/// In a run of a cluster no committed entry is lost: an entry that a node has
/// committed is in the log of every leader from then on in that node's term or a
/// later one, if it has not been compacted into the leader's snapshot.
pub proof fn committed_entries_are_not_lost(
    run: Seq<Cluster>,
    i: int,
    j: int,
    a: NodeId,
    leader: NodeId,
    index: int,
)
    requires
        crate::history::is_orderly_run(run),
        0 <= i <= j < run.len(),
        run[i].nodes.contains_key(a),
        run[j].nodes.contains_key(leader),
        run[i].nodes[a].log().holds(index),
        index <= run[i].nodes[a].volatile.commit_index,
        run[j].nodes[leader].role == Role::Leader,
        run[j].nodes[leader].term() >= run[i].nodes[a].term(),
    ensures
        index <= run[j].nodes[leader].log().last_index(),
        run[j].nodes[leader].log().snapshot_index < index ==> run[j].nodes[leader].log().at(index)
            == run[i].nodes[a].log().at(index),
{
    let histories = some_history(run);
    assert(histories[i].cluster == run[i]);
    assert(histories[j].cluster == run[j]);
    live_logs_reach_leaders(histories, i, j, a, leader, index);
}

/// In a run of a cluster a committed entry that a node has in its log is on a majority
/// of the nodes.
pub proof fn committed_entries_are_replicated(run: Seq<Cluster>, i: int, id: NodeId, index: int)
    requires
        crate::history::is_orderly_run(run),
        0 <= i < run.len(),
        run[i].nodes.contains_key(id),
        run[i].nodes[id].log().holds(index),
        index <= run[i].nodes[id].volatile.commit_index,
    ensures
        exists|nodes: Set<NodeId>| #[trigger]
            majority_keeps(run[i], run[i].nodes[id].log().at(index), nodes),
{
    let histories = some_history(run);
    let h = histories[i];
    assert(h.cluster == run[i]);
    live_entry(histories, i, id, index);
    committed_entries_are_on_a_majority(histories, i, id, index);
    let entry = h.logs[id][index - 1];
    let nodes = choose|nodes: Set<NodeId>| #[trigger] majority_has(h, entry, nodes);
    assert(majority_keeps(run[i], entry, nodes)) by {
        assert forall|n: NodeId| #[trigger] nodes.contains(n) implies {
            let log = run[i].nodes[n].log();
            log.covers(entry.index as int) || log.get(entry.index as int) == Some(entry)
        } by {
            assert(h.has(n));
            live_logs_are_tails(histories, i, n);
            let log = run[i].nodes[n].log();
            if !log.covers(entry.index as int) {
                live_entry(histories, i, n, entry.index as int);
            }
        }
    }
}

proof fn some_history(run: Seq<Cluster>) -> (histories: Seq<History>)
    requires
        crate::history::is_orderly_run(run),
    ensures
        crate::history::is_history(histories),
        histories.len() == run.len(),
        forall|i: int| 0 <= i < run.len() ==> (#[trigger] histories[i]).cluster == run[i],
{
    crate::history::runs_have_histories(run);
    crate::history::history_of(run)
}

} // verus!
