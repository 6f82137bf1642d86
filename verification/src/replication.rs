//! What an AppendEntries request makes of a follower's log.

use vstd::prelude::*;

use crate::log::LogView;
use crate::message::{AppendEntriesView, LogEntry, MessageView};
use crate::state::Role;
use crate::transitions::{Event, NodeView};

verus! {

/// The entries are numbered without a gap, starting at `first`.
pub open spec fn consecutive(entries: Seq<LogEntry>, first: int) -> bool {
    forall|i: int| 0 <= i < entries.len() ==> (#[trigger] entries[i]).index == first + i
}

/// Two logs match: where they hold an entry of the same term at the same index,
/// it is the same entry, and so are all the entries before it.
pub open spec fn logs_match(a: LogView, b: LogView) -> bool {
    forall|i: int|
        a.holds(i) && b.holds(i) && (#[trigger] a.at(i)).term == (#[trigger] b.at(i)).term
            ==> agree_up_to(a, b, i)
}

/// Two logs agree on every entry up to `index` that both of them hold.
pub open spec fn agree_up_to(a: LogView, b: LogView, index: int) -> bool {
    forall|j: int| j <= index && a.holds(j) && b.holds(j) ==> #[trigger] a.at(j) == #[trigger] b.at(j)
}

/// Every entry belongs to a term; the first leader leads in term 1.
pub open spec fn terms_positive(log: LogView) -> bool {
    forall|i: int| log.holds(i) ==> (#[trigger] log.at(i)).term > 0
}

/// A log that has taken consecutive entries holds each of them, with its term, unless
/// its snapshot covers the entry; what came before them is as it was.
pub proof fn merged_log_holds_the_entries(log: LogView, entries: Seq<LogEntry>, first: int)
    requires
        log.wf(),
        log.takes_all(entries),
        consecutive(entries, first),
        entries.len() > 0,
    ensures
        ({
            let merged = log.with_entries(entries);
            &&& merged.wf()
            &&& merged.snapshot_index == log.snapshot_index
            &&& merged.last_index() >= first + entries.len() - 1
            &&& forall|i: int|
                0 <= i < entries.len() && !log.covers(first + i) ==> merged.holds(first + i)
                    && #[trigger] merged.at(first + i).term == (#[trigger] entries[i]).term
            &&& forall|j: int|
                j < first ==> (merged.holds(j) <==> #[trigger] log.holds(j)) && (log.holds(j)
                    ==> merged.at(j) == log.at(j))
        }),
    decreases entries.len(),
{
    let next = log.with_entry(entries[0]);
    let rest = entries.skip(1);
    assert(entries[0].index == first);
    if rest.len() > 0 {
        assert(consecutive(rest, first + 1)) by {
            assert forall|i: int| 0 <= i < rest.len() implies (#[trigger] rest[i]).index == first
                + 1 + i by {
                assert(rest[i] == entries[i + 1]);
            }
        }
        merged_log_holds_the_entries(next, rest, first + 1);
        let merged = log.with_entries(entries);
        assert(next.snapshot_index == log.snapshot_index);
        assert(!log.covers(first) ==> next.holds(first));
        assert forall|i: int| 0 <= i < entries.len() && !log.covers(first + i) implies merged.holds(
            first + i,
        ) && #[trigger] merged.at(first + i).term == (#[trigger] entries[i]).term by {
            if i > 0 {
                assert(rest[i - 1] == entries[i]);
                assert(merged.at(first + 1 + (i - 1)).term == rest[i - 1].term);
            } else {
                assert(next.holds(first + i));
            }
        }
        assert forall|j: int| j < first implies (merged.holds(j) <==> #[trigger] log.holds(j)) && (
        log.holds(j) ==> merged.at(j) == log.at(j)) by {
            assert(next.holds(j) <==> log.holds(j));
            assert(log.holds(j) ==> next.at(j) == log.at(j));
        }
    } else {
        assert(log.with_entries(entries) == next.with_entries(rest));
    }
}

/// Whether the log has the entry: its snapshot covers it, or the log holds it.
pub open spec fn has(log: LogView, entry: LogEntry) -> bool {
    log.covers(entry.index as int) || (log.holds(entry.index as int) && log.at(
        entry.index as int,
    ).term == entry.term)
}

/// A log that has all the entries already is not changed by them.
pub proof fn held_entries_change_nothing(log: LogView, entries: Seq<LogEntry>)
    requires
        forall|i: int| 0 <= i < entries.len() ==> has(log, #[trigger] entries[i]),
    ensures
        log.takes_all(entries),
        log.with_entries(entries) == log,
    decreases entries.len(),
{
    if entries.len() > 0 {
        let rest = entries.skip(1);
        assert(has(log, entries[0]));
        assert forall|i: int| 0 <= i < rest.len() implies has(log, #[trigger] rest[i]) by {
            assert(rest[i] == entries[i + 1]);
        }
        held_entries_change_nothing(log, rest);
    }
}

/// A request that is delivered a second time changes nothing more, and hands
/// out nothing more to be applied, even if the follower has compacted its log in the
/// meantime, up to any index.
pub proof fn redelivery_changes_nothing(node: NodeView, req: AppendEntriesView, index: u64)
    requires
        node.wf(),
        node.admits(Event::AppendEntries(req)),
        node.accepts(req),
        consecutive(req.entries, req.prev_log_index + 1),
        index <= node.handle_append_entries(req).0.log().last_index() < u64::MAX,
    ensures
        ({
            let after = node.handle_append_entries(req).0.compact_log(index);
            &&& after.admits(Event::AppendEntries(req))
            &&& after.handle_append_entries(req).0 == after
            &&& after.handle_append_entries(req).1.entries_to_apply.len() == 0
        }),
{
    let after = node.handle_append_entries(req).0.compact_log(index);
    let log = node.log();
    let merged = log.with_entries(req.entries);
    let compacted = merged.compacted(index);
    let prev = req.prev_log_index as int;
    if req.entries.len() > 0 {
        merged_log_holds_the_entries(log, req.entries, prev + 1);
    } else {
        assert(merged == log);
    }
    assert(merged.wf()) by {
        crate::laws::stays_well_formed(node, Event::AppendEntries(req));
    }
    assert forall|i: int| 0 <= i < req.entries.len() implies has(
        compacted,
        #[trigger] req.entries[i],
    ) by {
        let at = prev + 1 + i;
        assert(req.entries[i].index == at);
        if !log.covers(at) {
            assert(merged.at(at).term == req.entries[i].term);
            if !compacted.covers(at) && index > merged.snapshot_index {
                assert(compacted.at(at) == merged.at(at));
            }
        }
    }
    held_entries_change_nothing(compacted, req.entries);
    assert(after.log() == compacted);
    assert(compacted.last_index() == merged.last_index());
    assert(after.handle_append_entries(req).0 =~= after);
}

/// A follower that takes over the entries of its leader comes to hold the same
/// entries, and the two logs go on matching.
pub proof fn merged_log_matches_the_leader(leader: LogView, log: LogView, prev: int)
    requires
        leader.wf(),
        log.wf(),
        terms_positive(leader),
        logs_match(leader, log),
        leader.snapshot_index <= prev <= leader.last_index(),
        prev == 0 || log.term_at(prev) == leader.term_at(prev),
        log.takes_all(leader.after(prev)),
    ensures
        ({
            let merged = log.with_entries(leader.after(prev));
            &&& logs_match(leader, merged)
            &&& agree_up_to(leader, merged, leader.last_index())
            &&& forall|i: int|
                prev < i <= leader.last_index() ==> log.covers(i) || #[trigger] merged.holds(i)
        }),
{
    assert(agree_up_to(leader, log, prev)) by {
        if leader.holds(prev) && log.holds(prev) {
            assert(leader.at(prev).term == log.at(prev).term);
        }
    }
    merge_step(leader, log, prev);
}

proof fn merge_step(leader: LogView, log: LogView, prev: int)
    requires
        leader.wf(),
        log.wf(),
        logs_match(leader, log),
        leader.snapshot_index <= prev <= leader.last_index(),
        agree_up_to(leader, log, prev),
        log.takes_all(leader.after(prev)),
    ensures
        ({
            let merged = log.with_entries(leader.after(prev));
            &&& logs_match(leader, merged)
            &&& agree_up_to(leader, merged, leader.last_index())
            &&& merged.snapshot_index == log.snapshot_index
            &&& forall|i: int|
                prev < i <= leader.last_index() ==> log.covers(i) || #[trigger] merged.holds(i)
            &&& forall|i: int| i <= prev && log.holds(i) ==> #[trigger] merged.holds(i)
        }),
    decreases leader.last_index() - prev,
{
    let entries = leader.after(prev);
    let merged = log.with_entries(entries);
    if prev == leader.last_index() {
        assert(entries.len() == 0);
        assert forall|i: int| leader.holds(i) && merged.holds(i) && (#[trigger] leader.at(i)).term
            == (#[trigger] merged.at(i)).term implies agree_up_to(leader, merged, i) by {}
    } else {
        let entry = entries[0];
        let next = log.with_entry(entry);
        assert(entry == leader.at(prev + 1));
        assert(entry.index == prev + 1);
        assert(entries.skip(1) =~= leader.after(prev + 1));
        assert(agree_up_to(leader, next, prev + 1)) by {
            if log.covers(prev + 1) {
                assert(next == log);
            } else if log.holds(prev + 1) && log.at(prev + 1).term == entry.term {
                assert(leader.at(prev + 1).term == log.at(prev + 1).term);
                assert(agree_up_to(leader, log, prev + 1));
            } else {
                assert forall|j: int| j <= prev + 1 && leader.holds(j) && next.holds(j) implies
                    #[trigger] leader.at(j) == #[trigger] next.at(j) by {
                    if j <= prev {
                        assert(log.holds(j) && next.at(j) == log.at(j));
                    }
                }
            }
        }
        assert(logs_match(leader, next)) by {
            assert forall|i: int| leader.holds(i) && next.holds(i) && (#[trigger] leader.at(
                i,
            )).term == (#[trigger] next.at(i)).term implies agree_up_to(leader, next, i) by {
                if log.covers(prev + 1) {
                    assert(next == log);
                } else if log.holds(prev + 1) && log.at(prev + 1).term == entry.term {
                    assert(log.at(i) == next.at(i));
                } else {
                    assert(i <= prev + 1);
                }
            }
        }
        merge_step(leader, next, prev + 1);
        assert(next.snapshot_index == log.snapshot_index);
        assert(log.covers(prev + 1) || next.holds(prev + 1));
        assert(log.covers(prev + 1) || merged.holds(prev + 1));
        assert forall|i: int| i <= prev && log.holds(i) implies #[trigger] merged.holds(i) by {
            assert(next.holds(i));
        }
    }
}

/// Where a leader's request is accepted, the answer says what the follower holds:
/// its log agrees with the leader's up to the index in the answer, which is the end
/// of the leader's log, and has every entry that was sent, live or in its snapshot.
pub proof fn acknowledged_entries_are_replicated(leader: NodeView, follower: NodeView)
    requires
        leader.wf(),
        follower.wf(),
        leader.role == Role::Leader,
        leader.peers.contains(follower.id),
        !leader.needs_snapshot(follower.id),
        leader.prev_index(follower.id) <= leader.log().last_index(),
        terms_positive(leader.log()),
        logs_match(leader.log(), follower.log()),
        follower.admits(Event::AppendEntries(leader.append_entries_for(follower.id))),
        follower.accepts(leader.append_entries_for(follower.id)),
    ensures
        ({
            let (held, actions) = follower.handle_append_entries(
                leader.append_entries_for(follower.id),
            );
            actions.messages[0].1 matches MessageView::AppendEntriesResponse(resp) && {
                &&& actions.messages[0].0 == leader.id
                &&& resp.success
                &&& resp.term == leader.term()
                &&& resp.match_index == leader.log().last_index()
                &&& agree_up_to(leader.log(), held.log(), resp.match_index as int)
                &&& forall|i: int|
                    leader.prev_index(follower.id) < i <= resp.match_index
                        ==> follower.log().covers(i) || #[trigger] held.log().holds(i)
                &&& logs_match(leader.log(), held.log())
            }
        }),
{
    let prev = leader.prev_index(follower.id);
    let req = leader.append_entries_for(follower.id);
    merged_log_matches_the_leader(leader.log(), follower.log(), prev);
    if req.entries.len() > 0 {
        let i = leader.log().entries.len() - 1;
        assert(req.entries.last() == leader.log().entries[i]);
    }
}

} // verus!
