//! What a request of a leader makes of a whole log: either the log starts with what
//! the leader sent, or it gives way to it.

use vstd::prelude::*;

use crate::cluster::Envelope;
use crate::history::History;
use crate::log::LogView;
use crate::message::{AppendEntriesView, InstallSnapshotView, LogEntry, MessageView, NodeId};

verus! {

// ── What an event does to a whole log ──────────────────────────────────────

/// The live log is the end of the whole log.
pub open spec fn tail_of(log: LogView, whole: Seq<LogEntry>) -> bool {
    &&& log.wf()
    &&& log.snapshot_index <= whole.len()
    &&& log.entries == whole.skip(log.snapshot_index as int)
    &&& log.snapshot_term == crate::history::term_of(whole, log.snapshot_index as int)
}

/// Where two logs have an entry of the same term at one index, they are the same
/// up to there.
spec fn match_each_other(a: Seq<LogEntry>, b: Seq<LogEntry>) -> bool {
    forall|i: int|
        1 <= i <= a.len() && i <= b.len() && #[trigger] crate::history::term_of(a, i) == #[trigger] crate::history::term_of(b, i)
            ==> a.take(i) == b.take(i)
}

/// To take the entries of a leader's log from some index on, where the logs agree
/// up to there, is to be overwritten by the leader's log.
proof fn merge_overwrites(
    log: LogView,
    whole: Seq<LogEntry>,
    source: Seq<LogEntry>,
    prev: int,
    end: int,
)
    requires
        tail_of(log, whole),
        crate::history::ordered(source),
        match_each_other(whole, source),
        log.snapshot_index <= prev <= end <= source.len(),
        prev <= whole.len(),
        whole.take(prev) == source.take(prev),
    ensures
        ({
            let merged = log.with_entries(source.subrange(prev, end));
            let after = crate::history::overwritten(whole, source.take(end));
            &&& tail_of(merged, after)
            &&& merged.snapshot_index == log.snapshot_index
            &&& after == whole.take(log.snapshot_index as int) + merged.entries
        }),
    decreases end - prev,
{
    let entries = source.subrange(prev, end);
    let base = log.snapshot_index as int;
    if prev == end {
        assert(entries =~= Seq::empty());
        assert(source.take(end) =~= whole.subrange(0, end));
        assert(whole =~= whole.take(base) + whole.skip(base));
    } else {
        let entry = source[prev];
        assert(entries[0] == entry);
        assert(entry.index == prev + 1);
        assert(entries.skip(1) =~= source.subrange(prev + 1, end));
        let next = log.with_entry(entry);
        if log.holds(prev + 1) && log.at(prev + 1).term == entry.term {
            assert(log.at(prev + 1) == whole[prev]);
            assert(crate::history::term_of(whole, prev + 1) == crate::history::term_of(source, prev + 1));
            merge_overwrites(log, whole, source, prev + 1, end);
        } else {
            let cut = source.take(prev + 1);
            assert(cut =~= whole.take(prev).push(entry));
            assert(next.entries =~= cut.skip(base)) by {
                if log.holds(prev + 1) {
                    assert(log.entries.take(prev - base) =~= whole.subrange(base, prev));
                } else {
                    assert(prev == whole.len());
                    assert(whole.take(prev) =~= whole);
                }
            }
            assert(tail_of(next, cut)) by {
                assert(crate::history::term_of(cut, base) == crate::history::term_of(whole, base)) by {
                    if base > 0 {
                        assert(whole.take(prev)[base - 1] == whole[base - 1]);
                        assert(source.take(prev)[base - 1] == source[base - 1]);
                    }
                }
                assert forall|i: int| 0 <= i < next.entries.len() implies (#[trigger]
                next.entries[i]).index == next.snapshot_index + 1 + i by {
                    assert(next.entries[i] == source[base + i]);
                }
            }
            assert(match_each_other(cut, source)) by {
                assert forall|i: int|
                    1 <= i <= cut.len() && i <= source.len() && #[trigger] crate::history::term_of(cut, i)
                        == #[trigger] crate::history::term_of(source, i) implies cut.take(i) == source.take(i) by {
                    assert(cut.take(i) =~= source.take(i));
                }
            }
            assert(cut.take(prev + 1) =~= source.take(prev + 1));
            merge_overwrites(next, cut, source, prev + 1, end);
            // Both come to the same: the leader's log.
            assert(crate::history::overwritten(cut, source.take(end)) =~= source.take(end)) by {
                if source.take(end).is_prefix_of(cut) {
                    assert(end == prev + 1);
                }
            }
            assert(!source.take(end).is_prefix_of(whole)) by {
                if source.take(end).is_prefix_of(whole) {
                    assert(source.take(end)[prev] == whole.subrange(0, end)[prev]);
                    assert(log.holds(prev + 1));
                    assert(log.at(prev + 1) == whole[prev]);
                }
            }
            assert(cut.take(base) =~= whole.take(base)) by {
                assert forall|i: int| 0 <= i < base implies cut[i] == whole[i] by {
                    assert(whole.take(prev)[i] == source.take(prev)[i]);
                }
            }
        }
    }
}

/// Entries that the snapshot covers make no difference.
proof fn covered_entries_are_skipped(
    log: LogView,
    source: Seq<LogEntry>,
    prev: int,
    from: int,
    end: int,
)
    requires
        crate::history::ordered(source),
        0 <= prev <= from <= end <= source.len(),
        from <= log.snapshot_index,
    ensures
        log.with_entries(source.subrange(prev, end)) == log.with_entries(
            source.subrange(from, end),
        ),
    decreases from - prev,
{
    if prev < from {
        let entries = source.subrange(prev, end);
        assert(entries[0] == source[prev]);
        assert(source[prev].index == prev + 1);
        assert(entries.skip(1) =~= source.subrange(prev + 1, end));
        assert(log.with_entry(entries[0]) == log);
        covered_entries_are_skipped(log, source, prev + 1, from, end);
    }
}

/// A follower that accepts a request of a leader is overwritten by that leader's
/// log, as far as the request goes.
pub(crate) proof fn accepted_request_overwrites(
    h: History,
    id: NodeId,
    e: Envelope,
    req: AppendEntriesView,
)
    requires
        h.inv(),
        h.has(id),
        h.message_ok(e),
        e.message == MessageView::AppendEntriesRequest(req),
        h.node(id).accepts(req),
        h.node(id).log().takes_all(req.entries),
    ensures
        ({
            let log = h.node(id).log();
            let merged = log.with_entries(req.entries);
            let end = req.prev_log_index + req.entries.len();
            let after = crate::history::overwritten(h.logs[id], h.start_of(req.term, end));
            &&& tail_of(merged, after)
            &&& merged.snapshot_index == log.snapshot_index
            &&& after == h.logs[id].take(log.snapshot_index as int) + merged.entries
            &&& req.end() == end
        }),
{
    assert(h.node_ok(id));
    assert(h.reign_ok(req.term));
    let log = h.node(id).log();
    let whole = h.logs[id];
    let source = h.leader_logs[req.term];
    let prev = req.prev_log_index as int;
    let end = prev + req.entries.len();
    crate::growth::traced_log_is_ordered(h, whole);
    assert(tail_of(log, whole));
    assert(match_each_other(whole, source)) by {
        assert forall|i: int|
            1 <= i <= whole.len() && i <= source.len() && #[trigger] crate::history::term_of(whole, i)
                == #[trigger] crate::history::term_of(source, i) implies whole.take(i) == source.take(i) by {
            crate::growth::traced_logs_match(h, whole, source, i);
        }
    }
    let base = log.snapshot_index as int;
    if prev < base {
        // What the snapshot covers is committed, and the leader has it too.
        assert(prev == 0) by {
            if prev > 0 {
                assert(source[prev - 1].term > 0);
            }
        }
        let known = whole.take(h.node(id).volatile.commit_index as int);
        crate::completeness::leaders_have_what_is_settled(h, known, h.node(id).term(), req.term);
        assert forall|i: int| 0 <= i < known.len() implies whole[i] == source[i] by {
            assert(known[i] == source.subrange(0, known.len() as int)[i]);
        }
        let from = if end < base {
            end
        } else {
            base
        };
        covered_entries_are_skipped(log, source, prev, from, end);
        if end < base {
            assert(source.subrange(end, end) =~= Seq::empty());
            assert(source.take(end) =~= whole.subrange(0, end));
            assert(whole =~= whole.take(base) + whole.skip(base));
        } else {
            assert(whole.take(base) =~= source.take(base));
            merge_overwrites(log, whole, source, base, end);
        }
    } else {
        log_agrees_at_prev(h, id, req);
        merge_overwrites(log, whole, source, prev, end);
    }
    if req.entries.len() > 0 {
        assert(req.entries.last() == source[end - 1]);
    }
}

/// Where the entry before the first one of a request is not compacted away, the log
/// of a node that accepts the request is the leader's up to there.
proof fn log_agrees_at_prev(h: History, id: NodeId, req: AppendEntriesView)
    requires
        h.inv(),
        h.has(id),
        h.has_led(req.term),
        req.prev_log_index <= h.leader_logs[req.term].len(),
        req.prev_log_term == crate::history::term_of(
            h.leader_logs[req.term],
            req.prev_log_index as int,
        ),
        h.node(id).accepts(req),
        h.node(id).log().snapshot_index <= req.prev_log_index,
    ensures
        req.prev_log_index <= h.logs[id].len(),
        h.logs[id].take(req.prev_log_index as int) == h.leader_logs[req.term].take(
            req.prev_log_index as int,
        ),
{
    assert(h.node_ok(id));
    assert(h.reign_ok(req.term));
    let log = h.node(id).log();
    let whole = h.logs[id];
    let source = h.leader_logs[req.term];
    let prev = req.prev_log_index as int;
    if prev == 0 {
        assert(whole.take(0) =~= source.take(0));
    } else {
        assert(source[prev - 1].term > 0);
        assert(log.term_at(prev) == crate::history::term_of(source, prev));
        if prev != log.snapshot_index {
            assert(log.holds(prev));
            assert(log.at(prev) == whole[prev - 1]);
        }
        assert(crate::history::term_of(whole, prev) == crate::history::term_of(source, prev));
        crate::growth::traced_logs_match(h, whole, source, prev);
    }
}

/// A snapshot of a leader that is installed overwrites the node's log with the
/// leader's, as far as the snapshot goes.
pub(crate) proof fn installed_snapshot_overwrites(
    h: History,
    id: NodeId,
    e: Envelope,
    req: InstallSnapshotView,
)
    requires
        h.inv(),
        h.has(id),
        h.message_ok(e),
        e.message == MessageView::InstallSnapshotRequest(req),
        req.last_included_index > h.node(id).volatile.commit_index,
    ensures
        ({
            let index = req.last_included_index as int;
            let after = crate::history::overwritten(h.logs[id], h.start_of(req.term, index));
            &&& tail_of(h.node(id).log_with_snapshot(req), after)
            &&& h.node(id).log_with_snapshot(req).snapshot_index == index
            &&& after == if h.node(id).log().holds(index) && h.node(id).log().term_at(index)
                == req.last_included_term {
                h.logs[id]
            } else {
                h.start_of(req.term, index)
            }
        }),
{
    assert(h.node_ok(id));
    assert(h.reign_ok(req.term));
    let log = h.node(id).log();
    let whole = h.logs[id];
    let source = h.leader_logs[req.term];
    let index = req.last_included_index as int;
    let start = h.start_of(req.term, index);
    crate::growth::traced_log_is_ordered(h, whole);
    if log.holds(index) && log.term_at(index) == req.last_included_term {
        assert(log.at(index) == whole[index - 1]);
        assert(crate::history::term_of(whole, index) == crate::history::term_of(source, index));
        crate::growth::traced_logs_match(h, whole, source, index);
        assert(start =~= whole.subrange(0, index));
        let compacted = log.compacted(req.last_included_index);
        assert(compacted.entries =~= whole.skip(index));
        assert forall|i: int| 0 <= i < compacted.entries.len() implies (#[trigger]
        compacted.entries[i]).index == compacted.snapshot_index + 1 + i by {
            assert(compacted.entries[i] == whole[index + i]);
        }
    } else {
        assert(!start.is_prefix_of(whole)) by {
            if start.is_prefix_of(whole) {
                assert(start[index - 1] == whole.subrange(0, index)[index - 1]);
                assert(log.holds(index));
                assert(log.at(index) == whole[index - 1]);
            }
        }
        assert(start.skip(index) =~= Seq::empty());
        assert(crate::history::term_of(start, index) == crate::history::term_of(source, index));
    }
}

} // verus!
