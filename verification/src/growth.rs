//! What a history never takes back, and what it shows of the logs in it: every log
//! can be traced to the leaders that made its entries.

use vstd::prelude::*;

use crate::cluster::Envelope;
use crate::history::History;
use crate::message::{LogEntry, MessageView, NodeId};

verus! {

// ── Growth ─────────────────────────────────────────────────────────────────

/// What a history never takes back.
pub open spec fn grows(h: History, next: History) -> bool {
    &&& next.cluster.nodes.dom() == h.cluster.nodes.dom()
    &&& forall|t: u64| #[trigger]
        h.has_led(t) ==> {
            &&& next.has_led(t)
            &&& h.leader_logs[t].is_prefix_of(next.leader_logs[t])
            &&& next.first_logs[t] == h.first_logs[t]
        }
    &&& forall|n: NodeId, t: u64| #[trigger] h.accepts_up_to(n, t) <= next.accepts_up_to(n, t)
    &&& forall|n: NodeId, t: u64| #[trigger]
        h.stood_with.contains_key((n, t)) ==> next.stood_with.contains_key((n, t))
            && next.stood_with[(n, t)] == h.stood_with[(n, t)]
}

/// Growth goes on from one history to the next.
pub(crate) proof fn growth_goes_on(first: History, before: History, after: History)
    requires
        grows(first, before),
        grows(before, after),
    ensures
        grows(first, after),
{
    assert forall|t: u64| #[trigger] first.has_led(t) implies {
        &&& after.has_led(t)
        &&& first.leader_logs[t].is_prefix_of(after.leader_logs[t])
        &&& after.first_logs[t] == first.first_logs[t]
    } by {
        assert(before.has_led(t));
        crate::induction::prefix_of_prefix(
            first.leader_logs[t],
            before.leader_logs[t],
            after.leader_logs[t],
        );
    }
    assert forall|n: NodeId, t: u64| #[trigger]
        first.accepts_up_to(n, t) <= after.accepts_up_to(n, t) by {
        assert(before.accepts_up_to(n, t) <= after.accepts_up_to(n, t));
    }
    assert forall|n: NodeId, t: u64| #[trigger] first.stood_with.contains_key((n, t)) implies
        after.stood_with.contains_key((n, t)) && after.stood_with[(n, t)] == first.stood_with[(
        n,
        t,
    )] by {
        assert(before.stood_with.contains_key((n, t)));
    }
}

/// A history whose records are the same has grown.
pub(crate) proof fn local_change_grows(h: History, next: History)
    requires
        next == (History { cluster: next.cluster, ..h }),
        next.cluster.nodes.dom() == h.cluster.nodes.dom(),
    ensures
        grows(h, next),
{
    assert forall|t: u64| #[trigger] h.has_led(t) implies h.leader_logs[t].is_prefix_of(
        next.leader_logs[t],
    ) by {
        assert(h.leader_logs[t] =~= h.leader_logs[t].subrange(0, h.leader_logs[t].len() as int));
    }
}

pub(crate) proof fn start_is_kept(h: History, next: History, term: u64, len: int)
    requires
        grows(h, next),
        h.has_led(term),
        0 <= len <= h.leader_logs[term].len(),
    ensures
        next.start_of(term, len) == h.start_of(term, len),
        len <= next.leader_logs[term].len(),
{
    assert(h.leader_logs[term].is_prefix_of(next.leader_logs[term]));
    assert(next.start_of(term, len) =~= h.start_of(term, len)) by {
        assert forall|i: int| 0 <= i < len implies next.leader_logs[term][i]
            == h.leader_logs[term][i] by {
            assert(h.leader_logs[term][i] == next.leader_logs[term].subrange(
                0,
                h.leader_logs[term].len() as int,
            )[i]);
        }
    }
}

pub(crate) proof fn traces_are_kept(h: History, next: History, log: Seq<LogEntry>)
    requires
        grows(h, next),
        h.traced(log),
    ensures
        next.traced(log),
{
    assert forall|i: int| 1 <= i <= log.len() implies #[trigger] next.traced_at(log, i) by {
        assert(h.traced_at(log, i));
        start_is_kept(h, next, crate::history::term_of(log, i), i);
    }
}

pub(crate) proof fn choices_are_kept(h: History, next: History, term: u64, len: int)
    requires
        grows(h, next),
        h.chosen(term, len),
    ensures
        next.chosen(term, len),
        next.start_of(term, len) == h.start_of(term, len),
{
    start_is_kept(h, next, term, len);
    let nodes = choose|nodes: Set<NodeId>| #[trigger] h.held_by(term, len, nodes);
    assert(next.held_by(term, len, nodes)) by {
        assert forall|n: NodeId| #[trigger] nodes.contains(n) implies next.accepts_up_to(n, term)
            >= len by {
            assert(h.accepts_up_to(n, term) >= len);
        }
    }
    assert(crate::history::term_of(next.leader_logs[term], len) == crate::history::term_of(h.leader_logs[term], len)) by {
        assert(next.start_of(term, len)[len - 1] == next.leader_logs[term][len - 1]);
        assert(h.start_of(term, len)[len - 1] == h.leader_logs[term][len - 1]);
    }
}

pub(crate) proof fn settled_is_kept(
    h: History,
    next: History,
    log: Seq<LogEntry>,
    bound: u64,
    later: u64,
)
    requires
        grows(h, next),
        h.settled(log, bound),
        bound <= later,
    ensures
        next.settled(log, later),
{
    if log.len() > 0 {
        let (term, len) = choose|term: u64, len: int|
            term <= bound && #[trigger] h.starts(log, term, len);
        choices_are_kept(h, next, term, len);
        start_is_kept(h, next, term, log.len() as int);
        assert(next.starts(log, term, len));
    }
}

pub(crate) proof fn keeping_is_kept(
    h: History,
    next: History,
    log: Seq<LogEntry>,
    term: u64,
    len: int,
    bound: int,
    later: int,
)
    requires
        grows(h, next),
        h.has_led(term),
        0 <= len <= h.leader_logs[term].len(),
        h.keeps(log, term, len, bound),
        bound <= later,
    ensures
        next.keeps(log, term, len, later),
{
    start_is_kept(h, next, term, len);
    if !h.start_of(term, len).is_prefix_of(log) {
        let s = choose|s: u64| term < s <= bound && #[trigger] h.lacks(s, term, len);
        assert(h.has_led(s));
        assert(next.lacks(s, term, len));
    }
}

/// What a log keeps of earlier terms stays kept, as long as its node takes over
/// nothing more in those terms.
pub(crate) proof fn keeping_all_is_kept(
    h: History,
    next: History,
    id: NodeId,
    log: Seq<LogEntry>,
    below: int,
    bound: int,
    later: int,
)
    requires
        grows(h, next),
        h.inv(),
        h.keeps_all(id, log, below, bound),
        bound <= later,
        forall|t: u64| t < below ==> #[trigger] next.accepts_up_to(id, t) == h.accepts_up_to(id, t),
    ensures
        next.keeps_all(id, log, below, later),
{
    assert forall|term: u64, len: int|
        term < below && 0 <= len <= next.accepts_up_to(id, term) implies #[trigger] next.keeps(
        log,
        term,
        len,
        later,
    ) by {
        assert(next.accepts_up_to(id, term) == h.accepts_up_to(id, term));
        assert(h.keeps(log, term, len, bound));
        if h.accepted.contains_key((id, term)) {
            assert(h.accepted_ok(id, term));
            keeping_is_kept(h, next, log, term, len, bound, later);
        } else {
            assert(len == 0);
            assert(next.start_of(term, len) =~= Seq::empty());
            assert(next.start_of(term, len).is_prefix_of(log));
        }
    }
}

pub(crate) proof fn messages_stay_ok(h: History, next: History, e: Envelope)
    requires
        grows(h, next),
        h.message_ok(e),
    ensures
        next.message_ok(e),
{
    match e.message {
        MessageView::VoteRequest(req) => {
            traces_are_kept(h, next, h.stood_with[(e.from, req.term)]);
        },
        MessageView::AppendEntriesRequest(req) => {
            let end = req.prev_log_index + req.entries.len();
            let old_log = h.leader_logs[req.term];
            let new_log = next.leader_logs[req.term];
            start_is_kept(h, next, req.term, end);
            start_is_kept(h, next, req.term, req.leader_commit as int);
            assert(next.start_of(req.term, end) == h.start_of(req.term, end));
            assert(new_log.subrange(req.prev_log_index as int, end) =~= old_log.subrange(
                req.prev_log_index as int,
                end,
            )) by {
                assert forall|i: int| req.prev_log_index <= i < end implies new_log[i]
                    == old_log[i] by {
                    assert(next.start_of(req.term, end)[i] == h.start_of(req.term, end)[i]);
                }
            }
            assert(crate::history::term_of(new_log, req.prev_log_index as int) == crate::history::term_of(
                old_log,
                req.prev_log_index as int,
            )) by {
                if req.prev_log_index > 0 {
                    let i = req.prev_log_index - 1;
                    assert(next.start_of(req.term, end)[i] == h.start_of(req.term, end)[i]);
                }
            }
            settled_is_kept(
                h,
                next,
                h.start_of(req.term, req.leader_commit as int),
                req.term,
                req.term,
            );
        },
        MessageView::AppendEntriesResponse(resp) => {
            assert(h.accepts_up_to(e.from, resp.term) <= next.accepts_up_to(e.from, resp.term));
            if h.has_led(resp.term) {
                assert(h.leader_logs[resp.term].is_prefix_of(next.leader_logs[resp.term]));
            }
        },
        MessageView::InstallSnapshotRequest(req) => {
            let end = req.last_included_index as int;
            start_is_kept(h, next, req.term, end);
            if end > 0 {
                assert(next.start_of(req.term, end)[end - 1] == h.start_of(req.term, end)[end - 1]);
            }
            settled_is_kept(h, next, h.start_of(req.term, end), req.term, req.term);
        },
        _ => {},
    }
}

// ── Log matching ───────────────────────────────────────────────────────────

/// Where two traced logs have an entry of the same term at one index, they are
/// the same up to there.
pub(crate) proof fn traced_logs_match(h: History, a: Seq<LogEntry>, b: Seq<LogEntry>, index: int)
    requires
        h.traced(a),
        h.traced(b),
        1 <= index <= a.len(),
        index <= b.len(),
        crate::history::term_of(a, index) == crate::history::term_of(b, index),
    ensures
        a.take(index) == b.take(index),
{
    assert(h.traced_at(a, index));
    assert(h.traced_at(b, index));
}

/// A traced log is the beginning of the log of the leader of its last term, and
/// so its terms are in order.
pub(crate) proof fn traced_log_is_ordered(h: History, log: Seq<LogEntry>)
    requires
        h.inv(),
        h.traced(log),
    ensures
        crate::history::ordered(log),
        log.len() > 0 ==> {
            let term = crate::history::term_of(log, log.len() as int);
            &&& h.has_led(term)
            &&& log.len() <= h.leader_logs[term].len()
            &&& log == h.start_of(term, log.len() as int)
        },
{
    if log.len() > 0 {
        let last = log.len() as int;
        let term = crate::history::term_of(log, last);
        assert(h.traced_at(log, last));
        assert(log.take(last) =~= log);
        assert(h.reign_ok(term));
        let source = h.leader_logs[term];
        assert forall|i: int| 0 <= i < log.len() implies log[i] == source[i] by {
            assert(log.take(last)[i] == source.take(last)[i]);
        }
        assert(crate::history::ordered(log)) by {
            assert forall|i: int| 0 <= i < log.len() implies (#[trigger] log[i]).index == i + 1
                && log[i].term > 0 by {
                assert(source[i].index == i + 1);
            }
            assert forall|i: int, j: int| 0 <= i <= j < log.len() implies (#[trigger] log[i]).term
                <= (#[trigger] log[j]).term by {
                assert(source[i].term <= source[j].term);
            }
        }
    }
}

pub(crate) proof fn traced_prefix(h: History, log: Seq<LogEntry>, len: int)
    requires
        h.traced(log),
        0 <= len <= log.len(),
    ensures
        h.traced(log.take(len)),
{
    let start = log.take(len);
    assert forall|i: int| 1 <= i <= start.len() implies #[trigger] h.traced_at(start, i) by {
        assert(h.traced_at(log, i));
        assert(start.take(i) =~= log.take(i));
        assert(start[i - 1] == log[i - 1]);
    }
}

} // verus!
