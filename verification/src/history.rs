//! The history of a cluster: what its nodes have had in their logs, and on what
//! grounds they were elected.

use vstd::prelude::*;

use crate::cluster::{Cluster, Envelope, Step};
use crate::message::{LogEntry, MessageView, NodeId};
use crate::state::Role;
use crate::transitions::{Event, NodeView};

verus! {

// ── Whole logs ─────────────────────────────────────────────────────────────

/// The term of the entry at an index of a whole log, and 0 before the first.
pub open spec fn term_of(log: Seq<LogEntry>, index: int) -> u64 {
    if 1 <= index <= log.len() {
        log[index - 1].term
    } else {
        0
    }
}

/// The entries are numbered from 1 on, their terms are positive and never fall.
pub open spec fn ordered(log: Seq<LogEntry>) -> bool {
    &&& forall|i: int|
        0 <= i < log.len() ==> (#[trigger] log[i]).index == i + 1 && log[i].term > 0
    &&& forall|i: int, j: int|
        0 <= i <= j < log.len() ==> (#[trigger] log[i]).term <= (#[trigger] log[j]).term
}

/// The log once `source` is in it: a log that starts with `source` stays as it
/// is, and any other gives way.
pub open spec fn overwritten(log: Seq<LogEntry>, source: Seq<LogEntry>) -> Seq<LogEntry> {
    if source.is_prefix_of(log) {
        log
    } else {
        source
    }
}

/// Whether a log that ends with this term at this index is at least as up to
/// date as `log`.
pub open spec fn no_newer(log: Seq<LogEntry>, other: Seq<LogEntry>) -> bool {
    let mine = term_of(log, log.len() as int);
    let theirs = term_of(other, other.len() as int);
    theirs > mine || (theirs == mine && other.len() >= log.len())
}

/// A cluster with its history.
pub struct History {
    pub cluster: Cluster,
    /// The whole log of each node, compacted entries included.
    pub logs: Map<NodeId, Seq<LogEntry>>,
    /// The node that was elected in a term.
    pub chiefs: Map<u64, NodeId>,
    /// The log of a term's leader, as far as it grew.
    pub leader_logs: Map<u64, Seq<LogEntry>>,
    /// The log with which a term's leader was elected.
    pub first_logs: Map<u64, Seq<LogEntry>>,
    /// Who had voted for a term's leader when it was elected.
    pub electors: Map<u64, Set<NodeId>>,
    /// The log with which a node stood for election in a term.
    pub stood_with: Map<(NodeId, u64), Seq<LogEntry>>,
    /// The log that a node had when it voted in a term.
    pub voted_with: Map<(NodeId, u64), Seq<LogEntry>>,
    /// How much of the log of a term's leader a node has taken over.
    pub accepted: Map<(NodeId, u64), nat>,
}

impl History {
    pub open spec fn node(self, id: NodeId) -> NodeView {
        self.cluster.nodes[id]
    }

    pub open spec fn has(self, id: NodeId) -> bool {
        self.cluster.nodes.contains_key(id)
    }

    pub open spec fn has_led(self, term: u64) -> bool {
        self.leader_logs.contains_key(term)
    }

    pub open spec fn accepts_up_to(self, id: NodeId, term: u64) -> nat {
        if self.accepted.contains_key((id, term)) {
            self.accepted[(id, term)]
        } else {
            0
        }
    }

    // ── Steps ──────────────────────────────────────────────────────────────

    /// The whole log of a node after an event.
    pub open spec fn log_after(self, id: NodeId, event: Event) -> Seq<LogEntry> {
        let node = self.node(id);
        let after = node.on(event).0;
        match event {
            Event::InstallSnapshot(req) => if req.term < node.term() || req.last_included_index
                <= node.volatile.commit_index || (node.log().holds(req.last_included_index as int)
                && node.log().term_at(req.last_included_index as int) == req.last_included_term) {
                self.logs[id]
            } else {
                self.leader_logs[req.term].take(req.last_included_index as int)
            },
            _ => self.logs[id].take(node.log().snapshot_index as int) + after.log().entries,
        }
    }

    /// How much of the leader's log the node has taken over after an event.
    pub open spec fn accepted_after(self, id: NodeId, event: Event) -> Map<(NodeId, u64), nat> {
        let node = self.node(id);
        let after = node.on(event).0;
        if after.role == Role::Leader {
            self.accepted.insert((id, after.term()), self.log_after(id, event).len())
        } else {
            match event {
                Event::AppendEntries(req) => if node.accepts(req) {
                    let end = req.prev_log_index as nat + req.entries.len();
                    let before = self.accepts_up_to(id, req.term);
                    self.accepted.insert(
                        (id, req.term),
                        if end > before {
                            end
                        } else {
                            before
                        },
                    )
                } else {
                    self.accepted
                },
                _ => self.accepted,
            }
        }
    }

    /// The history after an event at a node.
    pub open spec fn after(self, id: NodeId, event: Event) -> History {
        let node = self.node(id);
        let after = node.on(event).0;
        let term = after.term();
        let next = self.cluster.after(id, event);
        let log = self.log_after(id, event);
        let wins = after.role == Role::Leader && !self.has_led(term);
        History {
            cluster: next,
            logs: self.logs.insert(id, log),
            chiefs: if wins {
                self.chiefs.insert(term, id)
            } else {
                self.chiefs
            },
            leader_logs: if after.role == Role::Leader {
                self.leader_logs.insert(term, log)
            } else {
                self.leader_logs
            },
            first_logs: if wins {
                self.first_logs.insert(term, self.logs[id])
            } else {
                self.first_logs
            },
            electors: if wins {
                self.electors.insert(
                    term,
                    next.nodes.dom().filter(|v: NodeId| next.has_ballot(v, term, id)),
                )
            } else {
                self.electors
            },
            stood_with: if event is ElectionTimeout && node.role != Role::Leader {
                self.stood_with.insert((id, term), self.logs[id])
            } else {
                self.stood_with
            },
            voted_with: if after.persistent.voted_for is Some && !self.cluster.has_ballot(
                id,
                term,
                after.persistent.voted_for->0,
            ) {
                self.voted_with.insert((id, term), self.logs[id])
            } else {
                self.voted_with
            },
            accepted: self.accepted_after(id, event),
        }
    }

    /// A history that has only begun.
    pub open spec fn init(self) -> bool {
        &&& self.cluster.init()
        &&& self.logs.dom() == self.cluster.nodes.dom()
        &&& forall|id: NodeId| #[trigger] self.logs.contains_key(id) ==> self.logs[id].len() == 0
        &&& self.chiefs == Map::<u64, NodeId>::empty()
        &&& self.leader_logs == Map::<u64, Seq<LogEntry>>::empty()
        &&& self.first_logs == Map::<u64, Seq<LogEntry>>::empty()
        &&& self.electors == Map::<u64, Set<NodeId>>::empty()
        &&& self.stood_with == Map::<(NodeId, u64), Seq<LogEntry>>::empty()
        &&& self.voted_with == Map::<(NodeId, u64), Seq<LogEntry>>::empty()
        &&& self.accepted == Map::<(NodeId, u64), nat>::empty()
    }

    /// Whether a step leads from this history to the next one. A node compacts
    /// only what is committed, and it is the leader that sends its snapshot.
    pub open spec fn steps_to(self, next: History, step: Step) -> bool {
        &&& self.cluster.steps_to(next.cluster, step)
        &&& match step {
            Step::ElectionTimeout(id) => next == self.after(id, Event::ElectionTimeout),
            Step::Tick(id) => next == self.after(id, Event::Tick),
            Step::Client(id, req) => next == self.after(id, Event::ClientRequest(req)),
            Step::Deliver(envelope) => next == self.after(
                envelope.to,
                crate::cluster::arrival(envelope)->0,
            ),
            Step::SendSnapshot(id, to, snapshot) => {
                &&& self.node(id).role == Role::Leader
                &&& snapshot.last_included_index == self.node(id).log().snapshot_index
                &&& snapshot.last_included_term == self.node(id).log().snapshot_term
                &&& next == History { cluster: next.cluster, ..self }
            },
            Step::Compact(id, index) => {
                &&& index <= self.node(id).volatile.commit_index
                &&& next == History { cluster: next.cluster, ..self }
            },
            Step::Restart(id) => next == History { cluster: next.cluster, ..self },
            Step::RefuseSnapshot(envelope) => next == self.after(
                envelope.to,
                crate::cluster::written(envelope.message->InstallSnapshotRequest_0, false),
            ),
            Step::StopInstalling(envelope, installed) => next == History {
                cluster: next.cluster,
                ..self.after(
                    envelope.to,
                    crate::cluster::written(
                        envelope.message->InstallSnapshotRequest_0,
                        installed,
                    ),
                )
            },
        }
    }

    /// Whether some step leads from `before` to this history.
    pub open spec fn follows(self, before: History) -> bool {
        exists|step: Step| before.steps_to(self, step)
    }

    // ── What the history shows ─────────────────────────────────────────────

    /// The log agrees up to an index with the log of the leader that made the
    /// entry there.
    pub open spec fn traced_at(self, log: Seq<LogEntry>, index: int) -> bool {
        let term = term_of(log, index);
        &&& self.has_led(term)
        &&& index <= self.leader_logs[term].len()
        &&& log.take(index) == self.leader_logs[term].take(index)
    }

    /// Every entry of the log comes from a leader, with all that stands before.
    pub open spec fn traced(self, log: Seq<LogEntry>) -> bool {
        forall|i: int| 1 <= i <= log.len() ==> #[trigger] self.traced_at(log, i)
    }

    /// The first entries of the log of a term's leader.
    pub open spec fn start_of(self, term: u64, len: int) -> Seq<LogEntry> {
        self.leader_logs[term].take(len)
    }

    /// Whether the leader of a term was elected without the first entries of an
    /// earlier leader's log.
    pub open spec fn lacks(self, leader: u64, term: u64, len: int) -> bool {
        self.has_led(leader) && !self.start_of(term, len).is_prefix_of(self.first_logs[leader])
    }

    /// Whether a log has the first entries of a leader's log, or some leader after
    /// that one, up to the term `bound`, was elected without them.
    pub open spec fn keeps(self, log: Seq<LogEntry>, term: u64, len: int, bound: int) -> bool {
        self.start_of(term, len).is_prefix_of(log) || exists|s: u64|
            term < s <= bound && #[trigger] self.lacks(s, term, len)
    }

    /// A log has all that its node has taken over in earlier terms, or some leader
    /// went without.
    pub open spec fn keeps_all(
        self,
        id: NodeId,
        log: Seq<LogEntry>,
        below: int,
        bound: int,
    ) -> bool {
        forall|term: u64, len: int|
            term < below && 0 <= len <= self.accepts_up_to(id, term) ==> #[trigger] self.keeps(
                log,
                term,
                len,
                bound,
            )
    }

    /// Whether the nodes have taken over that many entries of the leader's log.
    pub open spec fn held_by(self, term: u64, len: int, nodes: Set<NodeId>) -> bool {
        &&& nodes.subset_of(self.cluster.nodes.dom())
        &&& 2 * nodes.len() > self.cluster.nodes.dom().len()
        &&& forall|n: NodeId| #[trigger] nodes.contains(n) ==> self.accepts_up_to(n, term) >= len
    }

    /// Whether the first entries of the log of a term's leader are chosen for
    /// good: a majority has them, and the last of them is of that term.
    pub open spec fn chosen(self, term: u64, len: int) -> bool {
        &&& self.has_led(term)
        &&& 1 <= len <= self.leader_logs[term].len()
        &&& term_of(self.leader_logs[term], len) == term
        &&& exists|nodes: Set<NodeId>| #[trigger] self.held_by(term, len, nodes)
    }

    /// Whether `log` is the beginning of what was chosen in `term`.
    pub open spec fn starts(self, log: Seq<LogEntry>, term: u64, len: int) -> bool {
        self.chosen(term, len) && log.len() <= len && log == self.start_of(
            term,
            log.len() as int,
        )
    }

    /// Whether all entries of `log` are settled by a choice in a term up to
    /// `bound`.
    pub open spec fn settled(self, log: Seq<LogEntry>, bound: u64) -> bool {
        log.len() == 0 || exists|term: u64, len: int|
            term <= bound && #[trigger] self.starts(log, term, len)
    }

    // ── What always holds ──────────────────────────────────────────────────

    /// The live log of a node is the end of its whole log.
    pub open spec fn log_is_whole(self, id: NodeId) -> bool {
        let log = self.node(id).log();
        let whole = self.logs[id];
        &&& log.wf()
        &&& log.snapshot_index <= whole.len()
        &&& log.entries == whole.skip(log.snapshot_index as int)
        &&& log.snapshot_term == term_of(whole, log.snapshot_index as int)
    }

    /// What holds of each node.
    pub open spec fn node_ok(self, id: NodeId) -> bool {
        let node = self.node(id);
        let log = self.logs[id];
        &&& node.wf()
        &&& self.logs.contains_key(id)
        &&& self.log_is_whole(id)
        &&& self.traced(log)
        &&& term_of(log, log.len() as int) <= node.term()
        &&& self.keeps_all(id, log, node.term() + 1, node.term() as int)
        &&& node.log().snapshot_index <= node.volatile.commit_index <= log.len()
        &&& self.settled(log.take(node.volatile.commit_index as int), node.term())
        &&& node.role == Role::Leader ==> self.leader_ok(id)
        &&& node.role == Role::Candidate ==> self.candidate_ok(id)
    }

    pub open spec fn leader_ok(self, id: NodeId) -> bool {
        let node = self.node(id);
        let term = node.term();
        &&& self.has_led(term)
        &&& self.leader_logs[term] == self.logs[id]
        &&& self.accepts_up_to(id, term) == self.logs[id].len()
        &&& node.leader_state is Some
        &&& forall|p: NodeId|
            p != id && #[trigger] node.leader_state->0.match_index.contains_key(p)
                ==> node.leader_state->0.match_index[p] <= self.accepts_up_to(p, term)
        &&& forall|p: NodeId| #[trigger]
            node.leader_state->0.next_index.contains_key(p)
                ==> node.leader_state->0.next_index[p] <= self.logs[id].len() + 1
    }

    pub open spec fn candidate_ok(self, id: NodeId) -> bool {
        let term = self.node(id).term();
        &&& self.stood_with.contains_key((id, term))
        &&& !self.cluster.leaders.contains((term, id))
        &&& self.has_led(term) || self.logs[id] == self.stood_with[(id, term)]
    }

    /// What holds of each leader that ever was.
    pub open spec fn reign_ok(self, term: u64) -> bool {
        let log = self.leader_logs[term];
        let first = self.first_logs[term];
        let chief = self.chiefs[term];
        &&& self.has(chief)
        &&& self.cluster.leaders.contains((term, chief))
        &&& self.node(chief).term() >= term
        &&& ordered(log)
        &&& self.traced(log)
        &&& first.is_prefix_of(log)
        &&& first.len() < log.len()
        &&& term_of(first, first.len() as int) < term
        &&& forall|i: int| first.len() <= i < log.len() ==> (#[trigger] log[i]).term == term
        &&& self.stood_with.contains_key((chief, term))
        &&& self.stood_with[(chief, term)] == first
        &&& self.electors[term].subset_of(self.cluster.nodes.dom())
        &&& 2 * self.electors[term].len() > self.cluster.nodes.dom().len()
        &&& forall|v: NodeId| #[trigger]
            self.electors[term].contains(v) ==> {
                &&& self.cluster.has_ballot(v, term, chief)
                &&& self.keeps_all(v, self.voted_with[(v, term)], term as int, term - 1)
            }
    }

    /// What holds of each vote: the candidate's log was no older than the voter's.
    pub open spec fn ballot_ok(self, voter: NodeId, term: u64, candidate: NodeId) -> bool {
        let log = self.voted_with[(voter, term)];
        &&& self.voted_with.contains_key((voter, term))
        &&& self.stood_with.contains_key((candidate, term))
        &&& self.traced(log)
        &&& self.traced(self.stood_with[(candidate, term)])
        &&& term_of(
            self.stood_with[(candidate, term)],
            self.stood_with[(candidate, term)].len() as int,
        ) < term
        &&& no_newer(log, self.stood_with[(candidate, term)])
        &&& self.keeps_all(voter, log, term as int, term as int)
    }

    /// What holds of what a node has taken over.
    pub open spec fn accepted_ok(self, id: NodeId, term: u64) -> bool {
        &&& self.has(id)
        &&& self.has_led(term)
        &&& self.node(id).term() >= term
        &&& self.accepted[(id, term)] <= self.leader_logs[term].len()
    }

    /// What holds of each message.
    pub open spec fn message_ok(self, e: Envelope) -> bool {
        match e.message {
            MessageView::VoteRequest(req) => {
                &&& self.stood_with.contains_key((e.from, req.term))
                &&& req.last_log_index == self.stood_with[(e.from, req.term)].len()
                &&& req.last_log_term == term_of(
                    self.stood_with[(e.from, req.term)],
                    self.stood_with[(e.from, req.term)].len() as int,
                )
                &&& self.traced(self.stood_with[(e.from, req.term)])
                &&& req.last_log_term < req.term
            },
            MessageView::AppendEntriesRequest(req) => {
                let end = req.prev_log_index + req.entries.len();
                &&& self.has_led(req.term)
                &&& 1 <= end <= self.leader_logs[req.term].len()
                &&& req.entries == self.leader_logs[req.term].subrange(
                    req.prev_log_index as int,
                    end,
                )
                &&& req.prev_log_term == term_of(
                    self.leader_logs[req.term],
                    req.prev_log_index as int,
                )
                &&& req.leader_commit <= end
                &&& self.settled(
                    self.start_of(req.term, req.leader_commit as int),
                    req.term,
                )
            },
            MessageView::AppendEntriesResponse(resp) => {
                &&& resp.success ==> resp.match_index <= self.accepts_up_to(e.from, resp.term)
                &&& !resp.success && resp.conflict_index is Some && resp.conflict_term is Some ==> {
                    &&& self.has_led(resp.term)
                    &&& resp.conflict_index->0 <= self.leader_logs[resp.term].len()
                }
            },
            MessageView::InstallSnapshotRequest(req) => {
                &&& self.has_led(req.term)
                &&& req.last_included_index <= self.leader_logs[req.term].len()
                &&& req.last_included_term == term_of(
                    self.leader_logs[req.term],
                    req.last_included_index as int,
                )
                &&& self.settled(
                    self.start_of(req.term, req.last_included_index as int),
                    req.term,
                )
            },
            _ => true,
        }
    }

    pub open spec fn inv(self) -> bool {
        &&& self.cluster.inv()
        &&& forall|id: NodeId| #[trigger] self.has(id) ==> self.node_ok(id)
        &&& forall|term: u64| #[trigger] self.has_led(term) ==> self.reign_ok(term)
        &&& forall|term: u64, id: NodeId| #[trigger]
            self.cluster.leaders.contains((term, id)) ==> self.has_led(term)
        &&& forall|voter: NodeId, term: u64, candidate: NodeId| #[trigger]
            self.cluster.has_ballot(voter, term, candidate) ==> self.ballot_ok(
                voter,
                term,
                candidate,
            )
        &&& forall|id: NodeId, term: u64| #[trigger]
            self.stood_with.contains_key((id, term)) ==> self.has(id) && self.node(id).term()
                >= term
        &&& forall|id: NodeId, term: u64| #[trigger]
            self.accepted.contains_key((id, term)) ==> self.accepted_ok(id, term)
        &&& forall|e: Envelope| #[trigger] self.cluster.sent.contains(e) ==> self.message_ok(e)
    }
}

/// A run of a cluster with its history.
pub open spec fn is_history(run: Seq<History>) -> bool {
    &&& run.len() > 0
    &&& run[0].init()
    &&& forall|i: int| 0 < i < run.len() ==> (#[trigger] run[i]).follows(run[i - 1])
}

/// Whether a step is one that nodes take: they compact only what is committed, and
/// it is a leader that sends the snapshot that its log starts from.
pub open spec fn is_orderly(cluster: Cluster, step: Step) -> bool {
    match step {
        Step::SendSnapshot(id, to, snapshot) => {
            let node = cluster.nodes[id];
            &&& node.role == Role::Leader
            &&& snapshot.last_included_index == node.log().snapshot_index
            &&& snapshot.last_included_term == node.log().snapshot_term
        },
        Step::Compact(id, index) => index <= cluster.nodes[id].volatile.commit_index,
        _ => true,
    }
}

/// Whether this cluster comes from the other one by an orderly step.
pub open spec fn comes_orderly(next: Cluster, before: Cluster) -> bool {
    exists|step: Step| is_orderly(before, step) && #[trigger] before.steps_to(next, step)
}

/// A run of a cluster in which every step is an orderly one.
pub open spec fn is_orderly_run(run: Seq<Cluster>) -> bool {
    &&& run.len() > 0
    &&& run[0].init()
    &&& forall|i: int| 0 < i < run.len() ==> comes_orderly(#[trigger] run[i], run[i - 1])
}

/// The history of a cluster that has never run.
pub open spec fn beginning(cluster: Cluster) -> History {
    History {
        cluster,
        logs: Map::new(|id: NodeId| cluster.nodes.contains_key(id), |id: NodeId| Seq::empty()),
        chiefs: Map::empty(),
        leader_logs: Map::empty(),
        first_logs: Map::empty(),
        electors: Map::empty(),
        stood_with: Map::empty(),
        voted_with: Map::empty(),
        accepted: Map::empty(),
    }
}

/// The history after a step.
pub open spec fn carried_on(h: History, next: Cluster, step: Step) -> History {
    match step {
        Step::ElectionTimeout(id) => h.after(id, Event::ElectionTimeout),
        Step::Tick(id) => h.after(id, Event::Tick),
        Step::Client(id, req) => h.after(id, Event::ClientRequest(req)),
        Step::Deliver(envelope) => h.after(envelope.to, crate::cluster::arrival(envelope)->0),
        Step::RefuseSnapshot(envelope) => h.after(
            envelope.to,
            crate::cluster::written(envelope.message->InstallSnapshotRequest_0, false),
        ),
        Step::StopInstalling(envelope, installed) => History {
            cluster: next,
            ..h.after(
                envelope.to,
                crate::cluster::written(envelope.message->InstallSnapshotRequest_0, installed),
            )
        },
        _ => History { cluster: next, ..h },
    }
}

/// The history of a run.
pub open spec fn history_of(run: Seq<Cluster>) -> Seq<History>
    decreases run.len(),
{
    if run.len() == 0 {
        Seq::empty()
    } else if run.len() == 1 {
        seq![beginning(run[0])]
    } else {
        let before = run[run.len() - 2];
        let next = run.last();
        let step = choose|step: Step| is_orderly(before, step) && #[trigger] before.steps_to(
            next,
            step,
        );
        let earlier = history_of(run.drop_last());
        earlier.push(carried_on(earlier.last(), next, step))
    }
}

/// Every orderly run of a cluster has a history.
pub proof fn runs_have_histories(run: Seq<Cluster>)
    requires
        is_orderly_run(run),
    ensures
        is_history(history_of(run)),
        history_of(run).len() == run.len(),
        forall|i: int| 0 <= i < run.len() ==> (#[trigger] history_of(run)[i]).cluster == run[i],
    decreases run.len(),
{
    let histories = history_of(run);
    if run.len() == 1 {
        let first = beginning(run[0]);
        assert(first.logs.dom() =~= run[0].nodes.dom());
        assert(first.init());
    } else {
        let earlier_run = run.drop_last();
        let before = run[run.len() - 2];
        let next = run.last();
        assert(is_orderly_run(earlier_run)) by {
            assert forall|i: int| 0 < i < earlier_run.len() implies comes_orderly(
                #[trigger] earlier_run[i],
                earlier_run[i - 1],
            ) by {
                assert(comes_orderly(run[i], run[i - 1]));
            }
        }
        runs_have_histories(earlier_run);
        let earlier = history_of(earlier_run);
        assert(comes_orderly(run[run.len() - 1], run[run.len() - 2]));
        let step = choose|step: Step| is_orderly(before, step) && #[trigger] before.steps_to(
            next,
            step,
        );
        let last = earlier.last();
        assert(last == earlier[earlier.len() - 1]);
        assert(last.cluster == before);
        assert(last.steps_to(histories.last(), step));
        assert forall|i: int| 0 < i < histories.len() implies (#[trigger] histories[i]).follows(
            histories[i - 1],
        ) by {
            if i < earlier.len() {
                assert(earlier[i].follows(earlier[i - 1]));
                assert(histories[i] == earlier[i] && histories[i - 1] == earlier[i - 1]);
            } else {
                assert(histories[i] == histories.last());
                assert(histories[i - 1] == last);
            }
        }
        assert forall|i: int| 0 <= i < run.len() implies (#[trigger] histories[i]).cluster
            == run[i] by {
            if i < earlier.len() {
                assert(histories[i] == earlier[i]);
                assert(earlier[i].cluster == earlier_run[i]);
            }
        }
    }
}

} // verus!
