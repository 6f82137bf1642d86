//! Leader completeness: what a majority has taken over from a leader reaches every
//! later leader, since each of them needed the vote of a node that had it, and no
//! node votes for a log that is older than its own.

use vstd::prelude::*;

use crate::history::History;
use crate::message::{LogEntry, NodeId};

verus! {

// ── Leader completeness ────────────────────────────────────────────────────

/// What was chosen in a term is in the log with which every later leader was
/// elected.
pub(crate) proof fn later_leaders_have_it(h: History, term: u64, len: int, later: u64)
    requires
        h.inv(),
        h.chosen(term, len),
        h.has_led(later),
        term < later,
    ensures
        h.start_of(term, len).is_prefix_of(h.first_logs[later]),
    decreases later,
{
    let chosen_log = h.start_of(term, len);
    let holders = choose|nodes: Set<NodeId>| #[trigger] h.held_by(term, len, nodes);
    assert(h.reign_ok(later));
    let chief = h.chiefs[later];
    let first = h.first_logs[later];
    crate::cluster::majorities_meet(h.cluster.nodes.dom(), holders, h.electors[later]);
    let v = choose|v: NodeId| holders.contains(v) && h.electors[later].contains(v);
    assert(h.cluster.has_ballot(v, later, chief));
    assert(h.ballot_ok(v, later, chief));
    let seen = h.voted_with[(v, later)];
    assert(h.keeps(seen, term, len, later - 1)) by {
        assert(h.accepts_up_to(v, term) >= len);
        assert(h.keeps_all(v, seen, later as int, later - 1));
    }
    // The voter still had it: no leader in between went without.
    assert(chosen_log.is_prefix_of(seen)) by {
        if !chosen_log.is_prefix_of(seen) {
            let s = choose|s: u64| term < s <= later - 1 && #[trigger] h.lacks(s, term, len);
            later_leaders_have_it(h, term, len, s);
        }
    }
    crate::growth::traced_log_is_ordered(h, seen);
    crate::growth::traced_log_is_ordered(h, first);
    let mine = crate::history::term_of(seen, seen.len() as int);
    let theirs = crate::history::term_of(first, first.len() as int);
    assert(seen[len - 1] == chosen_log[len - 1]) by {
        assert(chosen_log[len - 1] == seen.subrange(0, len)[len - 1]);
    }
    assert(seen[len - 1].term == term);
    assert(mine >= term) by {
        assert(seen[len - 1].term <= seen[seen.len() - 1].term);
    }
    if theirs == mine {
        // The candidate's log goes on from the voter's.
        crate::growth::traced_logs_match(h, first, seen, seen.len() as int);
        assert(first.take(seen.len() as int) == seen.take(seen.len() as int));
        assert forall|i: int| 0 <= i < len implies first[i] == chosen_log[i] by {
            assert(first.take(seen.len() as int)[i] == seen.take(seen.len() as int)[i]);
            assert(chosen_log[i] == seen.subrange(0, len)[i]);
        }
        assert(chosen_log =~= first.subrange(0, len));
    } else {
        // The candidate's log comes from a leader in between.
        assert(theirs > mine);
        assert(first.len() > 0);
        later_leaders_have_it(h, term, len, theirs);
        assert(h.reign_ok(theirs));
        let source = h.leader_logs[theirs];
        let start = h.first_logs[theirs];
        assert(first == h.start_of(theirs, first.len() as int));
        assert forall|i: int| 0 <= i < len implies source[i] == chosen_log[i] by {
            assert(chosen_log[i] == start.subrange(0, len)[i]);
            assert(start[i] == source.subrange(0, start.len() as int)[i]);
        }
        assert(first.len() > len) by {
            if first.len() <= len {
                let i = first.len() - 1;
                assert(first[i] == source[i]);
                assert(source[i] == chosen_log[i]);
                assert(h.leader_logs[term][i] == chosen_log[i]);
                assert(h.leader_logs[term][len - 1] == chosen_log[len - 1]);
                assert(h.reign_ok(term));
                assert(h.leader_logs[term][i].term <= h.leader_logs[term][len - 1].term);
                assert(false);
            }
        }
        assert(chosen_log =~= first.subrange(0, len)) by {
            assert forall|i: int| 0 <= i < len implies first[i] == chosen_log[i] by {
                assert(first[i] == source[i]);
            }
        }
    }
}

/// What was chosen in a term is in the log of that leader and of every later one.
proof fn leaders_have_what_is_chosen(h: History, term: u64, len: int, later: u64)
    requires
        h.inv(),
        h.chosen(term, len),
        h.has_led(later),
        term <= later,
    ensures
        h.start_of(term, len).is_prefix_of(h.leader_logs[later]),
{
    if term < later {
        later_leaders_have_it(h, term, len, later);
        assert(h.reign_ok(later));
        let chosen_log = h.start_of(term, len);
        let first = h.first_logs[later];
        let log = h.leader_logs[later];
        assert(chosen_log =~= log.subrange(0, len)) by {
            assert forall|i: int| 0 <= i < len implies chosen_log[i] == log[i] by {
                assert(chosen_log[i] == first.subrange(0, len)[i]);
                assert(first[i] == log.subrange(0, first.len() as int)[i]);
            }
        }
    }
}

/// What is settled is in the log of every leader from the term of the choice on.
pub(crate) proof fn leaders_have_what_is_settled(
    h: History,
    log: Seq<LogEntry>,
    bound: u64,
    later: u64,
)
    requires
        h.inv(),
        h.settled(log, bound),
        h.has_led(later),
        bound <= later,
    ensures
        log.is_prefix_of(h.leader_logs[later]),
{
    if log.len() > 0 {
        let (term, len) = choose|term: u64, len: int|
            term <= bound && #[trigger] h.starts(log, term, len);
        leaders_have_what_is_chosen(h, term, len, later);
        let chosen_log = h.start_of(term, len);
        let whole = h.leader_logs[later];
        assert(log =~= whole.subrange(0, log.len() as int)) by {
            assert forall|i: int| 0 <= i < log.len() implies log[i] == whole[i] by {
                assert(log[i] == h.start_of(term, log.len() as int)[i]);
                assert(chosen_log[i] == whole.subrange(0, len)[i]);
            }
        }
    } else {
        assert(log =~= h.leader_logs[later].subrange(0, 0));
    }
}

/// Of two settled logs one is the beginning of the other.
pub(crate) proof fn settled_logs_agree(
    h: History,
    a: Seq<LogEntry>,
    b: Seq<LogEntry>,
    bound_a: u64,
    bound_b: u64,
    i: int,
)
    requires
        h.inv(),
        h.settled(a, bound_a),
        h.settled(b, bound_b),
        0 <= i < a.len(),
        i < b.len(),
    ensures
        a[i] == b[i],
{
    let (ta, la) = choose|term: u64, len: int| term <= bound_a && #[trigger] h.starts(a, term, len);
    let (tb, lb) = choose|term: u64, len: int| term <= bound_b && #[trigger] h.starts(b, term, len);
    assert(a[i] == h.start_of(ta, a.len() as int)[i]);
    assert(b[i] == h.start_of(tb, b.len() as int)[i]);
    if ta <= tb {
        leaders_have_what_is_chosen(h, ta, la, tb);
        assert(h.start_of(ta, la)[i] == h.leader_logs[tb].subrange(0, la)[i]);
    } else {
        leaders_have_what_is_chosen(h, tb, lb, ta);
        assert(h.start_of(tb, lb)[i] == h.leader_logs[ta].subrange(0, lb)[i]);
    }
}

} // verus!
