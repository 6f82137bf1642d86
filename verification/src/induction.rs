//! What always holds of a history is kept by an event at one node, if that node does
//! its own part right.

use vstd::prelude::*;

use crate::cluster::{Cluster, Envelope};
use crate::history::History;
use crate::message::{LogEntry, MessageView, NodeId};
use crate::state::Role;
use crate::transitions::NodeView;

verus! {

// ── An event at one node ───────────────────────────────────────────────────

/// What an event does to the whole log of the node where it happens.
pub enum Shift {
    /// Nothing.
    Stay,
    /// A leader appends an entry.
    Push(LogEntry),
    /// The node takes over the leader's log up to an index.
    Take(int),
}

/// Nothing changes but at one node, and the history is carried on accordingly.
pub open spec fn framed(h: History, next: History, id: NodeId) -> bool {
    let before = h.node(id);
    let after = next.node(id);
    let term = after.term();
    let wins = after.role == Role::Leader && !h.has_led(term);
    &&& h.inv()
    &&& next.cluster.inv()
    &&& h.has(id)
    &&& next.cluster.nodes.dom() == h.cluster.nodes.dom()
    &&& next.logs.dom() == h.logs.dom()
    &&& forall|n: NodeId| n != id ==> #[trigger] next.node(n) == h.node(n)
    &&& forall|n: NodeId| n != id ==> #[trigger] next.logs[n] == h.logs[n]
    &&& before.term() <= term
    &&& next.cluster.leaders == if after.role == Role::Leader {
        h.cluster.leaders.insert((term, id))
    } else {
        h.cluster.leaders
    }
    &&& forall|v: NodeId, t: u64, c: NodeId| #[trigger]
        next.cluster.has_ballot(v, t, c) <==> h.cluster.has_ballot(v, t, c) || (v == id && t == term
            && after.persistent.voted_for == Some(c))
    &&& next.leader_logs == if after.role == Role::Leader {
        h.leader_logs.insert(term, next.logs[id])
    } else {
        h.leader_logs
    }
    &&& next.chiefs == if wins {
        h.chiefs.insert(term, id)
    } else {
        h.chiefs
    }
    &&& next.first_logs == if wins {
        h.first_logs.insert(term, h.logs[id])
    } else {
        h.first_logs
    }
    &&& next.electors == if wins {
        h.electors.insert(
            term,
            next.cluster.nodes.dom().filter(|v: NodeId| next.cluster.has_ballot(v, term, id)),
        )
    } else {
        h.electors
    }
    &&& next.voted_with == if after.persistent.voted_for is Some && !h.cluster.has_ballot(
        id,
        term,
        after.persistent.voted_for->0,
    ) {
        h.voted_with.insert((id, term), h.logs[id])
    } else {
        h.voted_with
    }
    &&& next.stood_with == h.stood_with || (term > before.term() && next.stood_with
        == h.stood_with.insert((id, term), h.logs[id]))
}

pub open spec fn max_of(a: nat, b: nat) -> nat {
    if a > b {
        a
    } else {
        b
    }
}

/// What becomes of the node's own log, and of what it has taken over.
pub open spec fn shifted(h: History, next: History, id: NodeId, shift: Shift) -> bool {
    let after = next.node(id);
    let term = after.term();
    let log = next.logs[id];
    &&& after.wf()
    &&& crate::takeover::tail_of(after.log(), log)
    &&& match shift {
        Shift::Stay => log == h.logs[id],
        Shift::Push(entry) => {
            &&& after.role == Role::Leader
            &&& log == h.logs[id].push(entry)
            &&& entry.term == term
            &&& entry.index == h.logs[id].len() + 1
        },
        Shift::Take(end) => {
            &&& after.role != Role::Leader
            &&& h.has_led(term)
            &&& 0 <= end <= h.leader_logs[term].len()
            &&& log == crate::history::overwritten(h.logs[id], h.start_of(term, end))
        },
    }
    &&& if after.role == Role::Leader {
        next.accepted == h.accepted.insert((id, term), log.len())
    } else {
        next.accepted == h.accepted || (shift matches Shift::Take(end) && next.accepted
            == h.accepted.insert((id, term), max_of(end as nat, h.accepts_up_to(id, term))))
    }
}

/// What becomes of the node's role.
pub open spec fn recast(h: History, next: History, id: NodeId, shift: Shift) -> bool {
    let before = h.node(id);
    let after = next.node(id);
    let term = after.term();
    &&& after.role == Role::Leader ==> {
        ||| before.role == Role::Leader && before.term() == term
        ||| {
            &&& !h.has_led(term)
            &&& shift is Push
            &&& crate::history::term_of(h.logs[id], h.logs[id].len() as int) < term
            &&& next.stood_with.contains_key((id, term))
            &&& next.stood_with[(id, term)] == h.logs[id]
        }
    }
    &&& after.role == Role::Candidate ==> {
        ||| before.role == Role::Candidate && before.term() == term && (shift is Stay || h.has_led(
            term,
        ))
        ||| {
            &&& before.term() < term
            &&& shift is Stay
            &&& next.stood_with.contains_key((id, term))
            &&& next.stood_with[(id, term)] == h.logs[id]
        }
    }
    &&& after.role == Role::Leader ==> {
        &&& after.leader_state is Some
        &&& forall|p: NodeId|
            p != id && #[trigger] after.leader_state->0.match_index.contains_key(p)
                ==> after.leader_state->0.match_index[p] <= next.accepts_up_to(p, term)
        &&& forall|p: NodeId| #[trigger]
            after.leader_state->0.next_index.contains_key(p)
                ==> after.leader_state->0.next_index[p] <= next.logs[id].len() + 1
    }
}

/// A vote that the node casts is for a candidate whose log is no older.
pub open spec fn voted(h: History, next: History, id: NodeId) -> bool {
    let term = next.node(id).term();
    forall|c: NodeId|
        #![trigger next.stood_with[(c, term)]]
        next.node(id).persistent.voted_for == Some(c) && !h.cluster.has_ballot(id, term, c) ==> {
            &&& next.stood_with.contains_key((c, term))
            &&& h.traced(next.stood_with[(c, term)])
            &&& crate::history::term_of(next.stood_with[(c, term)], next.stood_with[(c, term)].len() as int) < term
            &&& crate::history::no_newer(h.logs[id], next.stood_with[(c, term)])
        }
}

/// What becomes of the node's commit index.
pub open spec fn recommitted(h: History, next: History, id: NodeId) -> bool {
    let after = next.node(id);
    let commit = after.volatile.commit_index;
    &&& after.log().snapshot_index <= commit <= next.logs[id].len()
    &&& commit == h.node(id).volatile.commit_index || next.settled(
        next.logs[id].take(commit as int),
        after.term(),
    ) || (commit <= h.node(id).volatile.commit_index && next.logs[id] == h.logs[id])
}

pub(crate) proof fn event_grows(h: History, next: History, id: NodeId, shift: Shift)
    requires
        framed(h, next, id),
        shifted(h, next, id, shift),
        recast(h, next, id, shift),
    ensures
        crate::growth::grows(h, next),
{
    let term = next.node(id).term();
    assert(h.node_ok(id));
    assert forall|t: u64| #[trigger] h.has_led(t) implies {
        &&& next.has_led(t)
        &&& h.leader_logs[t].is_prefix_of(next.leader_logs[t])
        &&& next.first_logs[t] == h.first_logs[t]
    } by {
        if next.node(id).role == Role::Leader && t == term {
            assert(h.leader_ok(id));
            assert(h.leader_logs[t] == h.logs[id]);
            assert(h.logs[id] =~= next.logs[id].subrange(0, h.logs[id].len() as int));
        } else {
            assert(h.leader_logs[t] =~= next.leader_logs[t].subrange(
                0,
                h.leader_logs[t].len() as int,
            ));
        }
    }
    assert forall|n: NodeId, t: u64| #[trigger]
        h.accepts_up_to(n, t) <= next.accepts_up_to(n, t) by {
        if n == id && t == term && next.node(id).role == Role::Leader {
            if h.accepted.contains_key((id, term)) {
                assert(h.accepted_ok(id, term));
                assert(h.leader_ok(id));
            }
        }
    }
    assert forall|n: NodeId, t: u64| #[trigger] h.stood_with.contains_key((n, t)) implies
        next.stood_with.contains_key((n, t)) && next.stood_with[(n, t)] == h.stood_with[(n, t)] by {
        assert(h.node(n).term() >= t);
    }
}

pub(crate) proof fn prefix_of_prefix(a: Seq<LogEntry>, b: Seq<LogEntry>, c: Seq<LogEntry>)
    requires
        a.is_prefix_of(b),
        b.is_prefix_of(c),
    ensures
        a.is_prefix_of(c),
{
    assert(a =~= c.subrange(0, a.len() as int)) by {
        assert forall|i: int| 0 <= i < a.len() implies a[i] == c[i] by {
            assert(a[i] == b.subrange(0, a.len() as int)[i]);
            assert(b[i] == c.subrange(0, b.len() as int)[i]);
        }
    }
}

/// What two logs have in common at their start is still there after one has been
/// overwritten by the start of the other.
pub(crate) proof fn common_start_stays(
    start: Seq<LogEntry>,
    log: Seq<LogEntry>,
    source: Seq<LogEntry>,
    end: int,
)
    requires
        start.is_prefix_of(log),
        start.is_prefix_of(source),
        0 <= end <= source.len(),
    ensures
        start.is_prefix_of(crate::history::overwritten(log, source.take(end))),
{
    let s = source.take(end);
    if !s.is_prefix_of(log) {
        if start.len() > end {
            assert(s =~= log.subrange(0, end)) by {
                assert forall|i: int| 0 <= i < end implies s[i] == log[i] by {
                    assert(start[i] == log.subrange(0, start.len() as int)[i]);
                    assert(start[i] == source.subrange(0, start.len() as int)[i]);
                }
            }
            assert(false);
        }
        assert(start =~= s.subrange(0, start.len() as int)) by {
            assert forall|i: int| 0 <= i < start.len() implies start[i] == s[i] by {
                assert(start[i] == source.subrange(0, start.len() as int)[i]);
            }
        }
    }
}

/// Whatever the node keeps of a leader's log, the new log keeps.
proof fn shifted_log_keeps(
    h: History,
    next: History,
    id: NodeId,
    shift: Shift,
    term: u64,
    len: int,
)
    requires
        framed(h, next, id),
        shifted(h, next, id, shift),
        recast(h, next, id, shift),
        term <= h.node(id).term(),
        0 <= len <= h.accepts_up_to(id, term),
    ensures
        next.keeps(next.logs[id], term, len, next.node(id).term() as int),
{
    event_grows(h, next, id, shift);
    let bound = next.node(id).term();
    let old_log = h.logs[id];
    let new_log = next.logs[id];
    assert(h.node_ok(id));
    assert(h.keeps(old_log, term, len, h.node(id).term() as int));
    let start = h.start_of(term, len);
    if h.accepted.contains_key((id, term)) {
        assert(h.accepted_ok(id, term));
        crate::growth::start_is_kept(h, next, term, len);
    }
    if !h.accepted.contains_key((id, term)) {
        assert(next.start_of(term, len) =~= Seq::empty());
        assert(next.start_of(term, len).is_prefix_of(new_log));
    } else if !start.is_prefix_of(old_log) {
        crate::growth::keeping_is_kept(
            h,
            next,
            old_log,
            term,
            len,
            h.node(id).term() as int,
            bound as int,
        );
        if next.start_of(term, len).is_prefix_of(old_log) {
            assert(false);
        }
        let s = choose|s: u64| term < s <= bound && #[trigger] next.lacks(s, term, len);
        assert(next.lacks(s, term, len));
    } else {
        match shift {
            Shift::Stay => {},
            Shift::Push(entry) => {
                assert(old_log =~= new_log.subrange(0, old_log.len() as int));
                prefix_of_prefix(start, old_log, new_log);
            },
            Shift::Take(end) => {
                let source = h.leader_logs[bound];
                assert(h.reign_ok(bound));
                if term == bound {
                    assert(start =~= source.subrange(0, len));
                    common_start_stays(start, old_log, source, end);
                } else if start.is_prefix_of(h.first_logs[bound]) {
                    prefix_of_prefix(start, h.first_logs[bound], source);
                    common_start_stays(start, old_log, source, end);
                } else {
                    assert(h.lacks(bound, term, len));
                    assert(next.lacks(bound, term, len));
                }
            },
        }
    }
}

proof fn moved_node_keeps_all(h: History, next: History, id: NodeId, shift: Shift)
    requires
        framed(h, next, id),
        shifted(h, next, id, shift),
        recast(h, next, id, shift),
    ensures
        next.keeps_all(
            id,
            next.logs[id],
            next.node(id).term() + 1,
            next.node(id).term() as int,
        ),
{
    event_grows(h, next, id, shift);
    let bound = next.node(id).term();
    let log = next.logs[id];
    assert forall|term: u64, len: int|
        term < bound + 1 && 0 <= len <= next.accepts_up_to(id, term) implies #[trigger] next.keeps(
        log,
        term,
        len,
        bound as int,
    ) by {
        if len <= h.accepts_up_to(id, term) && term <= h.node(id).term() {
            shifted_log_keeps(h, next, id, shift, term, len);
        } else if len == 0 {
            assert(next.start_of(term, len) =~= Seq::empty());
            assert(next.start_of(term, len).is_prefix_of(log));
        } else {
            // It is taken over only now, from the leader of this term.
            if h.accepted.contains_key((id, term)) {
                assert(h.accepted_ok(id, term));
            }
            assert(term == bound);
            if next.node(id).role == Role::Leader {
                assert(next.start_of(term, len) =~= log.subrange(0, len));
            } else {
                let end = shift->Take_0;
                assert(len <= end);
                let start = h.start_of(term, len);
                let source = h.start_of(term, end);
                assert(start =~= source.subrange(0, len));
                assert(source =~= source.subrange(0, end));
                crate::growth::start_is_kept(h, next, term, len);
                assert(source.is_prefix_of(log));
                prefix_of_prefix(start, source, log);
            }
        }
    }
}

proof fn moved_log_is_traced(h: History, next: History, id: NodeId, shift: Shift)
    requires
        framed(h, next, id),
        shifted(h, next, id, shift),
        recast(h, next, id, shift),
    ensures
        next.traced(next.logs[id]),
        crate::history::term_of(next.logs[id], next.logs[id].len() as int) <= next.node(id).term(),
{
    event_grows(h, next, id, shift);
    let old_log = h.logs[id];
    let log = next.logs[id];
    let term = next.node(id).term();
    assert(h.node_ok(id));
    crate::growth::traces_are_kept(h, next, old_log);
    match shift {
        Shift::Stay => {},
        Shift::Push(entry) => {
            assert forall|i: int| 1 <= i <= log.len() implies #[trigger] next.traced_at(log, i) by {
                if i < log.len() {
                    assert(next.traced_at(old_log, i));
                    assert(log.take(i) =~= old_log.take(i));
                    assert(log[i - 1] == old_log[i - 1]);
                }
            }
        },
        Shift::Take(end) => {
            assert(h.reign_ok(term));
            let source = h.leader_logs[term];
            crate::growth::traces_are_kept(h, next, source);
            crate::growth::traced_prefix(next, source, end);
            if end > 0 {
                assert(source[end - 1].term <= source[source.len() - 1].term);
                assert(source[source.len() - 1].term == term);
            }
        },
    }
}

proof fn moved_commit_is_settled(h: History, next: History, id: NodeId, shift: Shift)
    requires
        framed(h, next, id),
        shifted(h, next, id, shift),
        recast(h, next, id, shift),
        recommitted(h, next, id),
    ensures
        next.settled(
            next.logs[id].take(next.node(id).volatile.commit_index as int),
            next.node(id).term(),
        ),
{
    event_grows(h, next, id, shift);
    assert(h.node_ok(id));
    let commit = next.node(id).volatile.commit_index as int;
    let old_commit = h.node(id).volatile.commit_index as int;
    let old_log = h.logs[id];
    let log = next.logs[id];
    let known = old_log.take(old_commit);
    if !next.settled(log.take(commit), next.node(id).term()) {
        crate::growth::settled_is_kept(h, next, known, h.node(id).term(), next.node(id).term());
        if commit == old_commit {
            assert(log.take(commit) =~= known) by {
                match shift {
                    Shift::Stay => {},
                    Shift::Push(entry) => {},
                    Shift::Take(end) => {
                        let term = next.node(id).term();
                        crate::completeness::leaders_have_what_is_settled(
                            h,
                            known,
                            h.node(id).term(),
                            term,
                        );
                        assert(known =~= old_log.subrange(0, known.len() as int));
                        common_start_stays(known, old_log, h.leader_logs[term], end);
                        assert(known =~= log.subrange(0, known.len() as int));
                    },
                }
            }
        } else {
            assert(log.take(commit) =~= known.take(commit));
            start_of_settled(next, known, log.take(commit), next.node(id).term());
        }
    }
}

/// The beginning of what is settled is settled.
pub(crate) proof fn start_of_settled(
    h: History,
    log: Seq<LogEntry>,
    start: Seq<LogEntry>,
    bound: u64,
)
    requires
        h.settled(log, bound),
        start.len() <= log.len(),
        start == log.take(start.len() as int),
    ensures
        h.settled(start, bound),
{
    if start.len() > 0 {
        let (term, len) = choose|term: u64, len: int|
            term <= bound && #[trigger] h.starts(log, term, len);
        assert(start =~= h.start_of(term, start.len() as int)) by {
            assert forall|i: int| 0 <= i < start.len() implies start[i] == h.start_of(
                term,
                start.len() as int,
            )[i] by {
                assert(log[i] == h.start_of(term, log.len() as int)[i]);
            }
        }
        assert(h.starts(start, term, len));
    }
}

pub(crate) proof fn moved_node_is_ok(h: History, next: History, id: NodeId, shift: Shift)
    requires
        framed(h, next, id),
        shifted(h, next, id, shift),
        recast(h, next, id, shift),
        recommitted(h, next, id),
    ensures
        next.node_ok(id),
{
    event_grows(h, next, id, shift);
    assert(h.node_ok(id));
    moved_log_is_traced(h, next, id, shift);
    moved_node_keeps_all(h, next, id, shift);
    moved_commit_is_settled(h, next, id, shift);
    let after = next.node(id);
    let term = after.term();
    if after.role == Role::Candidate {
        assert(!next.cluster.leaders.contains((term, id))) by {
            if h.cluster.leaders.contains((term, id)) {
                assert(h.has_led(term));
                assert(h.reign_ok(term));
                crate::cluster::one_leader_per_term(h.cluster, term, id, h.chiefs[term]);
            }
        }
        if before_was_candidate(h, id, term) {
            assert(h.candidate_ok(id));
            assert(h.stood_with.contains_key((id, term)));
        }
    }
}

spec fn before_was_candidate(h: History, id: NodeId, term: u64) -> bool {
    h.node(id).role == Role::Candidate && h.node(id).term() == term
}

proof fn other_node_stays_ok(h: History, next: History, id: NodeId, shift: Shift, n: NodeId)
    requires
        framed(h, next, id),
        shifted(h, next, id, shift),
        recast(h, next, id, shift),
        n != id,
        h.has(n),
    ensures
        next.node_ok(n),
{
    event_grows(h, next, id, shift);
    assert(h.node_ok(n));
    assert(next.node(n) == h.node(n));
    assert(next.logs[n] == h.logs[n]);
    let node = h.node(n);
    let log = h.logs[n];
    crate::growth::traces_are_kept(h, next, log);
    assert forall|t: u64| #[trigger] next.accepts_up_to(n, t) == h.accepts_up_to(n, t) by {}
    crate::growth::keeping_all_is_kept(
        h,
        next,
        n,
        log,
        node.term() + 1,
        node.term() as int,
        node.term() as int,
    );
    crate::growth::settled_is_kept(
        h,
        next,
        log.take(node.volatile.commit_index as int),
        node.term(),
        node.term(),
    );
    if node.role == Role::Leader {
        assert(h.leader_ok(n));
        let term = node.term();
        if next.node(id).role == Role::Leader && next.node(id).term() == term {
            assert(next.has(n) && next.has(id));
            assert(next.cluster.leaders.contains((term, n)));
            crate::cluster::one_leader_per_term(next.cluster, term, n, id);
        }
        assert forall|p: NodeId|
            p != n && #[trigger] node.leader_state->0.match_index.contains_key(p) implies
            node.leader_state->0.match_index[p] <= next.accepts_up_to(p, term) by {
            assert(h.accepts_up_to(p, term) <= next.accepts_up_to(p, term));
        }
    }
    if node.role == Role::Candidate {
        assert(h.candidate_ok(n));
        assert(h.stood_with.contains_key((n, node.term())));
    }
}

pub(crate) proof fn reigns_stay_ok(h: History, next: History, id: NodeId, shift: Shift, term: u64)
    requires
        framed(h, next, id),
        shifted(h, next, id, shift),
        recast(h, next, id, shift),
        voted(h, next, id),
        h.has_led(term),
    ensures
        next.reign_ok(term),
{
    event_grows(h, next, id, shift);
    assert(h.reign_ok(term));
    let chief = h.chiefs[term];
    let first = h.first_logs[term];
    let old_log = h.leader_logs[term];
    let log = next.leader_logs[term];
    assert(next.chiefs[term] == chief);
    assert(next.has(chief)) by {
        assert(h.has(chief));
    }
    assert(next.node(chief).term() >= term) by {
        if chief != id {
            assert(next.node(chief) == h.node(chief));
        }
    }
    crate::growth::traces_are_kept(h, next, old_log);
    assert(h.stood_with.contains_key((chief, term)));
    if next.node(id).role == Role::Leader && next.node(id).term() == term {
        assert(h.node_ok(id));
        assert(h.leader_ok(id));
        assert(old_log == h.logs[id]);
        assert(log == next.logs[id]);
        moved_log_is_traced(h, next, id, shift);
        if let Shift::Push(entry) = shift {
            assert(crate::history::ordered(log)) by {
                assert forall|i: int| 0 <= i < log.len() implies (#[trigger] log[i]).index == i + 1
                    && log[i].term > 0 by {
                    if i < old_log.len() {
                        assert(log[i] == old_log[i]);
                    } else {
                        assert(old_log[old_log.len() - 1].term > 0);
                    }
                }
                assert forall|i: int, j: int| 0 <= i <= j < log.len() implies (#[trigger]
                log[i]).term <= (#[trigger] log[j]).term by {
                    if j < old_log.len() {
                        assert(old_log[i].term <= old_log[j].term);
                    } else if i < old_log.len() {
                        assert(old_log[i].term <= old_log[old_log.len() - 1].term);
                        assert(old_log[old_log.len() - 1].term == term);
                    }
                }
            }
            assert(old_log =~= log.subrange(0, old_log.len() as int));
            prefix_of_prefix(first, old_log, log);
            assert forall|i: int| first.len() <= i < log.len() implies (#[trigger] log[i]).term
                == term by {
                if i < old_log.len() {
                    assert(log[i] == old_log[i]);
                }
            }
        }
    }
    assert forall|v: NodeId| #[trigger] next.electors[term].contains(v) implies {
        &&& next.cluster.has_ballot(v, term, chief)
        &&& next.keeps_all(v, next.voted_with[(v, term)], term as int, term - 1)
    } by {
        assert(h.electors[term].contains(v));
        assert(h.cluster.has_ballot(v, term, chief));
        ballot_log_stays(h, next, id, v, term, chief);
        assert(h.has(v) && h.node(v).term() >= term);
        assert forall|t: u64| t < term implies #[trigger] next.accepts_up_to(v, t)
            == h.accepts_up_to(v, t) by {
            if v == id {
                assert(next.node(id).term() >= term);
            }
        }
        crate::growth::keeping_all_is_kept(
            h,
            next,
            v,
            h.voted_with[(v, term)],
            term as int,
            term - 1,
            term - 1,
        );
    }
}

/// The log that goes with a vote is not changed by another vote.
proof fn ballot_log_stays(
    h: History,
    next: History,
    id: NodeId,
    voter: NodeId,
    term: u64,
    candidate: NodeId,
)
    requires
        framed(h, next, id),
        h.cluster.has_ballot(voter, term, candidate),
    ensures
        next.voted_with[(voter, term)] == h.voted_with[(voter, term)],
        next.voted_with.contains_key((voter, term)),
        next.cluster.has_ballot(voter, term, candidate),
{
    assert(h.ballot_ok(voter, term, candidate));
    assert(next.cluster.has_ballot(voter, term, candidate));
    if voter == id && term == next.node(id).term() && next.node(id).persistent.voted_for is Some {
        let c = next.node(id).persistent.voted_for->0;
        assert(next.cluster.has_ballot(id, term, c));
        assert(c == candidate);
    }
}

proof fn ballots_stay_ok(
    h: History,
    next: History,
    id: NodeId,
    shift: Shift,
    voter: NodeId,
    term: u64,
    candidate: NodeId,
)
    requires
        framed(h, next, id),
        shifted(h, next, id, shift),
        recast(h, next, id, shift),
        voted(h, next, id),
        next.cluster.has_ballot(voter, term, candidate),
    ensures
        next.ballot_ok(voter, term, candidate),
{
    event_grows(h, next, id, shift);
    if h.cluster.has_ballot(voter, term, candidate) {
        assert(h.ballot_ok(voter, term, candidate));
        ballot_log_stays(h, next, id, voter, term, candidate);
        assert(h.stood_with.contains_key((candidate, term)));
        crate::growth::traces_are_kept(h, next, h.voted_with[(voter, term)]);
        crate::growth::traces_are_kept(h, next, h.stood_with[(candidate, term)]);
        assert(h.has(voter) && h.node(voter).term() >= term);
        assert forall|t: u64| t < term implies #[trigger] next.accepts_up_to(voter, t)
            == h.accepts_up_to(voter, t) by {
            if voter == id {
                assert(next.node(id).term() >= term);
            }
        }
        crate::growth::keeping_all_is_kept(
            h,
            next,
            voter,
            h.voted_with[(voter, term)],
            term as int,
            term as int,
            term as int,
        );
    } else {
        // The vote is cast now.
        assert(voter == id && term == next.node(id).term());
        let log = h.logs[id];
        let stood = next.stood_with[(candidate, term)];
        assert(next.voted_with[(id, term)] == log);
        assert(h.node_ok(id));
        crate::growth::traces_are_kept(h, next, log);
        crate::growth::traces_are_kept(h, next, stood);
        let old_term = h.node(id).term();
        assert(h.keeps_all(id, log, term as int, old_term as int)) by {
            assert forall|t: u64, len: int|
                t < term && 0 <= len <= h.accepts_up_to(id, t) implies #[trigger] h.keeps(
                log,
                t,
                len,
                old_term as int,
            ) by {
                if t > old_term {
                    if h.accepted.contains_key((id, t)) {
                        assert(h.accepted_ok(id, t));
                    }
                    assert(h.start_of(t, len) =~= Seq::empty());
                    assert(h.start_of(t, len).is_prefix_of(log));
                }
            }
        }
        crate::growth::keeping_all_is_kept(
            h,
            next,
            id,
            log,
            term as int,
            old_term as int,
            term as int,
        );
    }
}

/// The leader that is elected now was elected by a majority that kept all it had.
pub(crate) proof fn new_reign_is_ok(h: History, next: History, id: NodeId, shift: Shift)
    requires
        framed(h, next, id),
        shifted(h, next, id, shift),
        recast(h, next, id, shift),
        voted(h, next, id),
        next.node(id).role == Role::Leader,
        !h.has_led(next.node(id).term()),
    ensures
        next.reign_ok(next.node(id).term()),
{
    event_grows(h, next, id, shift);
    let term = next.node(id).term();
    let first = h.logs[id];
    let log = next.logs[id];
    let entry = shift->Push_0;
    assert(h.node_ok(id));
    assert(next.has(id));
    moved_log_is_traced(h, next, id, shift);
    crate::growth::traced_log_is_ordered(h, first);
    assert(crate::history::ordered(log)) by {
        assert forall|i: int| 0 <= i < log.len() implies (#[trigger] log[i]).index == i + 1
            && log[i].term > 0 by {
            if i < first.len() {
                assert(log[i] == first[i]);
            }
        }
        assert forall|i: int, j: int| 0 <= i <= j < log.len() implies (#[trigger] log[i]).term <= (
        #[trigger] log[j]).term by {
            if j < first.len() {
                assert(first[i].term <= first[j].term);
            } else if i < first.len() {
                assert(first[i].term <= first[first.len() - 1].term);
            }
        }
    }
    assert(first =~= log.subrange(0, first.len() as int));
    assert(next.cluster.leaders.contains((term, id)));
    let voters = choose|voters: Set<NodeId>| next.cluster.elected_by(term, id, voters);
    assert(next.cluster.elected_by(term, id, voters));
    let electors = next.electors[term];
    assert(voters.subset_of(electors));
    vstd::set_lib::lemma_len_subset(electors, next.cluster.nodes.dom());
    vstd::set_lib::lemma_len_subset(voters, electors);
    assert forall|v: NodeId| #[trigger] electors.contains(v) implies {
        &&& next.cluster.has_ballot(v, term, id)
        &&& next.keeps_all(v, next.voted_with[(v, term)], term as int, term - 1)
    } by {
        ballots_stay_ok(h, next, id, shift, v, term, id);
        let seen = next.voted_with[(v, term)];
        // No leader has led in this term before.
        assert forall|t: u64, len: int|
            t < term && 0 <= len <= next.accepts_up_to(v, t) implies #[trigger] next.keeps(
            seen,
            t,
            len,
            term - 1,
        ) by {
            no_rival_kept(h, next, id, shift, v, t, len);
        }
    }
}

proof fn no_rival_kept(
    h: History,
    next: History,
    id: NodeId,
    shift: Shift,
    v: NodeId,
    t: u64,
    len: int,
)
    requires
        framed(h, next, id),
        shifted(h, next, id, shift),
        recast(h, next, id, shift),
        voted(h, next, id),
        next.node(id).role == Role::Leader,
        !h.has_led(next.node(id).term()),
        next.cluster.has_ballot(v, next.node(id).term(), id),
        t < next.node(id).term(),
        0 <= len <= next.accepts_up_to(v, t),
    ensures
        next.keeps(
            next.voted_with[(v, next.node(id).term())],
            t,
            len,
            next.node(id).term() - 1,
        ),
{
    event_grows(h, next, id, shift);
    let term = next.node(id).term();
    let seen = next.voted_with[(v, term)];
    assert(next.accepts_up_to(v, t) == h.accepts_up_to(v, t));
    if !h.accepted.contains_key((v, t)) {
        assert(next.start_of(t, len) =~= Seq::empty());
        assert(next.start_of(t, len).is_prefix_of(seen));
    } else {
        assert(h.accepted_ok(v, t));
        if h.cluster.has_ballot(v, term, id) {
            assert(h.ballot_ok(v, term, id));
            ballot_log_stays(h, next, id, v, term, id);
            assert(h.keeps(seen, t, len, term as int));
            if !h.start_of(t, len).is_prefix_of(seen) {
                let s = choose|s: u64| t < s <= term && #[trigger] h.lacks(s, t, len);
                assert(h.has_led(s) && s != term);
                assert(h.lacks(s, t, len));
                assert(h.keeps(seen, t, len, term - 1));
            }
            crate::growth::keeping_is_kept(h, next, seen, t, len, term - 1, term - 1);
        } else {
            assert(v == id);
            assert(seen == h.logs[id]);
            assert(h.node_ok(id));
            let old_term = h.node(id).term();
            assert(h.keeps(seen, t, len, old_term as int));
            if !h.start_of(t, len).is_prefix_of(seen) {
                let s = choose|s: u64| t < s <= old_term && #[trigger] h.lacks(s, t, len);
                assert(h.has_led(s) && s != term);
                assert(h.lacks(s, t, len));
                assert(h.keeps(seen, t, len, term - 1));
            }
            crate::growth::keeping_is_kept(h, next, seen, t, len, term - 1, term - 1);
        }
    }
}

/// What always holds is kept, if the node's own part is done right and its
/// messages are true.
pub(crate) proof fn framed_event_keeps_inv(h: History, next: History, id: NodeId, shift: Shift)
    requires
        framed(h, next, id),
        shifted(h, next, id, shift),
        recast(h, next, id, shift),
        voted(h, next, id),
        recommitted(h, next, id),
        forall|e: Envelope| #[trigger]
            next.cluster.sent.contains(e) ==> h.cluster.sent.contains(e) || next.message_ok(e),
    ensures
        next.inv(),
        crate::growth::grows(h, next),
{
    event_grows(h, next, id, shift);
    let term = next.node(id).term();
    assert forall|n: NodeId| #[trigger] next.has(n) implies next.node_ok(n) by {
        assert(h.has(n));
        if n == id {
            moved_node_is_ok(h, next, id, shift);
        } else {
            other_node_stays_ok(h, next, id, shift, n);
        }
    }
    assert forall|t: u64| #[trigger] next.has_led(t) implies next.reign_ok(t) by {
        if h.has_led(t) {
            reigns_stay_ok(h, next, id, shift, t);
        } else {
            new_reign_is_ok(h, next, id, shift);
        }
    }
    assert forall|t: u64, n: NodeId| #[trigger]
        next.cluster.leaders.contains((t, n)) implies next.has_led(t) by {
        if h.cluster.leaders.contains((t, n)) {
            assert(h.has_led(t));
        }
    }
    assert forall|v: NodeId, t: u64, c: NodeId| #[trigger]
        next.cluster.has_ballot(v, t, c) implies next.ballot_ok(v, t, c) by {
        ballots_stay_ok(h, next, id, shift, v, t, c);
    }
    assert forall|n: NodeId, t: u64| #[trigger]
        next.stood_with.contains_key((n, t)) implies next.has(n) && next.node(n).term() >= t by {
        if h.stood_with.contains_key((n, t)) {
            assert(h.has(n) && h.node(n).term() >= t);
            if n != id {
                assert(next.node(n) == h.node(n));
            }
        }
    }
    assert forall|n: NodeId, t: u64| #[trigger]
        next.accepted.contains_key((n, t)) implies next.accepted_ok(n, t) by {
        if h.accepted.contains_key((n, t)) {
            assert(h.accepted_ok(n, t));
            crate::growth::start_is_kept(h, next, t, 0);
            if n != id {
                assert(next.node(n) == h.node(n));
            }
        }
        if n == id && t == term {
            if h.accepted.contains_key((n, t)) {
                assert(h.leader_logs[t].is_prefix_of(next.leader_logs[t]));
            }
            if let Shift::Take(end) = shift {
                assert(h.leader_logs[t].is_prefix_of(next.leader_logs[t]));
            }
        } else if h.accepted.contains_key((n, t)) {
            assert(h.leader_logs[t].is_prefix_of(next.leader_logs[t]));
        }
    }
    assert forall|e: Envelope| #[trigger]
        next.cluster.sent.contains(e) implies next.message_ok(e) by {
        if h.cluster.sent.contains(e) {
            crate::growth::messages_stay_ok(h, next, e);
        }
    }
}

// ── What a leader does ─────────────────────────────────────────────────────

/// What a leader knows of its peers and of itself.
pub open spec fn leads(h: History, id: NodeId) -> bool {
    let node = h.node(id);
    &&& h.has(id)
    &&& node.role == Role::Leader
    &&& node.wf()
    &&& crate::takeover::tail_of(node.log(), h.logs[id])
    &&& h.leader_ok(id)
    &&& crate::history::ordered(h.logs[id])
    &&& h.logs[id].len() > 0
}

/// The requests that a leader sends are true.
pub(crate) proof fn leader_requests_are_ok(h: History, id: NodeId, node: NodeView, e: Envelope)
    requires
        leads(h, id),
        node == h.node(id),
        node.volatile.commit_index <= h.logs[id].len(),
        h.settled(h.logs[id].take(node.volatile.commit_index as int), node.term()),
        Cluster::envelopes(id, node.replicate().messages).contains(e),
        h.cluster.membership(),
    ensures
        h.message_ok(e),
{
    let messages = node.replicate().messages;
    let sent = messages.map_values(
        |m: (NodeId, MessageView)| Envelope { from: id, to: m.0, message: m.1 },
    );
    assert(sent.to_set().contains(e));
    let i = choose|i: int| 0 <= i < sent.len() && sent[i] == e;
    let reached = node.peers.filter(node.in_reach());
    let peer = reached[i];
    assert(reached.contains(peer));
    node.peers.lemma_filter_contains_rev(node.in_reach(), peer);
    node.peers.lemma_filter_pred(node.in_reach(), i);
    assert(node.tracks_peers());
    assert(node.leader_state->0.next_index.contains_key(peer));
    let req = node.append_entries_for(peer);
    assert(e.message == MessageView::AppendEntriesRequest(req));
    let log = node.log();
    let whole = h.logs[id];
    let prev = node.prev_index(peer);
    assert(!node.needs_snapshot(peer));
    assert(log.snapshot_index <= prev <= whole.len());
    assert(prev <= u64::MAX);
    assert(req.entries =~= whole.subrange(prev, whole.len() as int));
    assert(log.term_at(prev) == crate::history::term_of(whole, prev)) by {
        if prev > log.snapshot_index {
            assert(log.at(prev) == whole[prev - 1]);
        }
    }
    assert(h.start_of(node.term(), node.volatile.commit_index as int) == whole.take(
        node.volatile.commit_index as int,
    ));
}

/// What the leader counts as held by a majority in its own term is chosen.
pub(crate) proof fn majority_chooses(h: History, id: NodeId, node: NodeView, index: int)
    requires
        h.cluster.membership(),
        leads(h, id),
        h.node(id).leader_state == node.leader_state,
        h.node(id).persistent == node.persistent,
        h.node(id).peers == node.peers,
        h.node(id).config == node.config,
        h.node(id).id == node.id,
        node.committable(index),
        node.log().snapshot_index < index <= node.log().last_index(),
        forall|p: NodeId, t: u64| #[trigger]
            h.accepted.contains_key((p, t)) ==> h.cluster.nodes.contains_key(p),
    ensures
        h.chosen(node.term(), index),
{
    let term = node.term();
    let whole = h.logs[id];
    let all = h.cluster.nodes.dom();
    assert(h.has(id));
    assert(node.log().at(index) == whole[index - 1]);
    assert(crate::history::term_of(h.leader_logs[term], index) == term);
    if node.peers.len() == 0 {
        let nodes = set![id];
        assert(node.peers.to_set() =~= Set::empty());
        assert(all =~= nodes) by {
            assert forall|n: NodeId| all.contains(n) implies n == id by {
                if n != id {
                    assert(all.remove(id).contains(n));
                }
            }
        }
        assert(h.held_by(term, index, nodes));
    } else {
        let replicas = node.leader_state->0.replicas(id, index);
        let nodes = replicas.insert(id);
        assert forall|p: NodeId| #[trigger] replicas.contains(p) implies p != id
            && h.accepts_up_to(p, term) >= index && all.contains(p) by {
            assert(node.leader_state->0.match_index.contains_key(p));
            assert(h.accepted.contains_key((p, term)));
        }
        assert(nodes.subset_of(all));
        assert(replicas.subset_of(all));
        vstd::set_lib::lemma_len_subset(replicas, all);
        assert(nodes.len() == replicas.len() + 1);
        assert(h.held_by(term, index, nodes)) by {
            assert forall|n: NodeId| #[trigger] nodes.contains(n) implies h.accepts_up_to(n, term)
                >= index by {
                if n != id {
                    assert(replicas.contains(n));
                }
            }
        }
    }
}

} // verus!
