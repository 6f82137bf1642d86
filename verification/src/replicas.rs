//! The key-value stores of the nodes of a cluster: each is the outcome of what its
//! node has committed, so replicas agree, and reads are answered from what is new.

use vstd::prelude::*;

use crate::actor::ActorView;
use crate::cluster::{Envelope, Step};
use crate::history::History;
use crate::message::{LogEntry, MessageView, NodeId};
use crate::state::ActionsView;
use crate::transitions::{Event, NodeView};

verus! {

/// A key-value store.
pub type Store = Map<Seq<char>, Seq<char>>;

/// A cluster with its history and with the stores of its nodes.
pub struct Replicas {
    pub history: History,
    /// The store of each node.
    pub stores: Map<NodeId, Store>,
    /// The store in each node's snapshot.
    pub saved: Map<NodeId, Store>,
}

/// The store once entries have been applied to it one after the other.
pub open spec fn replayed_on(store: Store, entries: Seq<LogEntry>) -> Store
    decreases entries.len(),
{
    if entries.len() == 0 {
        store
    } else {
        crate::kv::applied(replayed_on(store, entries.drop_last()), entries.last().command).0
    }
}

/// The store after a node has carried out its actions: it is a snapshot's, if one was
/// installed, and otherwise newly committed entries have been applied to it.
/// `decode` says what the data of a snapshot stands for.
pub open spec fn store_after(
    store: Store,
    actions: ActionsView,
    decode: spec_fn(Seq<u8>) -> Store,
) -> Store {
    match actions.install_snapshot {
        Some(req) => decode(req.data),
        None => replayed_on(store, actions.entries_to_apply),
    }
}

impl Replicas {
    /// The replicas after an event at a node.
    pub open spec fn after(
        self,
        next: History,
        id: NodeId,
        event: Event,
        decode: spec_fn(Seq<u8>) -> Store,
    ) -> Replicas {
        let actions = self.history.node(id).on(event).1;
        let store = store_after(self.stores[id], actions, decode);
        Replicas {
            history: next,
            stores: self.stores.insert(id, store),
            saved: if actions.install_snapshot is Some {
                self.saved.insert(id, store)
            } else {
                self.saved
            },
        }
    }

    /// Replicas that have never run.
    pub open spec fn init(self) -> bool {
        &&& self.history.init()
        &&& forall|id: NodeId| #[trigger]
            self.history.has(id) ==> self.stores[id] == Store::empty() && self.saved[id]
                == Store::empty()
    }

    /// Whether a step leads from these replicas to the next ones. A node that
    /// compacts its log saves its store, and has applied all that it has committed.
    /// It sends what it has saved, and starts again from there, be it a snapshot that it
    /// was just installing.
    pub open spec fn steps_to(
        self,
        next: Replicas,
        step: Step,
        decode: spec_fn(Seq<u8>) -> Store,
    ) -> bool {
        let h = self.history;
        &&& h.steps_to(next.history, step)
        &&& match step {
            Step::ElectionTimeout(id) => next == self.after(
                next.history,
                id,
                Event::ElectionTimeout,
                decode,
            ),
            Step::Tick(id) => next == self.after(next.history, id, Event::Tick, decode),
            Step::Client(id, req) => next == self.after(
                next.history,
                id,
                Event::ClientRequest(req),
                decode,
            ),
            Step::Deliver(e) => next == self.after(
                next.history,
                e.to,
                crate::cluster::arrival(e)->0,
                decode,
            ),
            Step::SendSnapshot(id, to, snapshot) => {
                &&& decode(snapshot.data) == self.saved[id]
                &&& next == Replicas { history: next.history, ..self }
            },
            Step::Compact(id, index) => {
                &&& index == h.node(id).volatile.commit_index
                &&& next == Replicas {
                    history: next.history,
                    saved: self.saved.insert(id, self.stores[id]),
                    ..self
                }
            },
            Step::Restart(id) => next == Replicas {
                history: next.history,
                stores: self.stores.insert(id, self.saved[id]),
                ..self
            },
            Step::RefuseSnapshot(e) => next == self.after(
                next.history,
                e.to,
                crate::cluster::written(e.message->InstallSnapshotRequest_0, false),
                decode,
            ),
            Step::StopInstalling(e, installed) => {
                let event = crate::cluster::written(
                    e.message->InstallSnapshotRequest_0,
                    installed,
                );
                let after = self.after(next.history, e.to, event, decode);
                next == Replicas { stores: after.stores.insert(e.to, after.saved[e.to]), ..after }
            },
        }
    }

    /// Whether some step leads from `before` to these replicas.
    pub open spec fn follows(self, before: Replicas, decode: spec_fn(Seq<u8>) -> Store) -> bool {
        exists|step: Step| before.steps_to(self, step, decode)
    }

    // ── What always holds ──────────────────────────────────────────────────

    /// The store of a node is the outcome of what it has committed, and the one in its
    /// snapshot is the outcome of what the snapshot covers.
    pub open spec fn store_ok(self, id: NodeId) -> bool {
        let h = self.history;
        &&& self.stores[id] == crate::safety::replayed(crate::freshness::committed(h, id))
        &&& self.saved[id] == crate::safety::replayed(
            h.logs[id].take(h.node(id).log().snapshot_index as int),
        )
    }

    /// The data of a snapshot stands for the outcome of what the snapshot covers.
    pub open spec fn snapshot_ok(self, e: Envelope, decode: spec_fn(Seq<u8>) -> Store) -> bool {
        e.message matches MessageView::InstallSnapshotRequest(req) ==> decode(req.data)
            == crate::safety::replayed(
            self.history.start_of(req.term, req.last_included_index as int),
        )
    }

    pub open spec fn inv(self, decode: spec_fn(Seq<u8>) -> Store) -> bool {
        &&& self.history.inv()
        &&& forall|id: NodeId| #[trigger] self.history.has(id) ==> self.store_ok(id)
        &&& forall|e: Envelope| #[trigger]
            self.history.cluster.sent.contains(e) ==> self.snapshot_ok(e, decode)
    }
}

/// A run of a cluster with the stores of its nodes.
pub open spec fn is_replica_run(run: Seq<Replicas>, decode: spec_fn(Seq<u8>) -> Store) -> bool {
    &&& run.len() > 0
    &&& run[0].init()
    &&& forall|i: int| 0 < i < run.len() ==> (#[trigger] run[i]).follows(run[i - 1], decode)
}

/// The histories of a run.
pub open spec fn histories(run: Seq<Replicas>) -> Seq<History> {
    run.map_values(|r: Replicas| r.history)
}

// ── Steps ──────────────────────────────────────────────────────────────────

/// To replay a log is to replay its end on the outcome of its beginning.
proof fn replay_goes_on(log: Seq<LogEntry>, from: int, to: int)
    requires
        0 <= from <= to <= log.len(),
    ensures
        crate::safety::replayed(log.take(to)) == replayed_on(
            crate::safety::replayed(log.take(from)),
            log.subrange(from, to),
        ),
    decreases to - from,
{
    let entries = log.subrange(from, to);
    if from < to {
        replay_goes_on(log, from, to - 1);
        assert(entries.drop_last() =~= log.subrange(from, to - 1));
        assert(log.take(to).drop_last() =~= log.take(to - 1));
        assert(entries.last() == log.take(to).last());
    } else {
        assert(entries =~= Seq::empty());
    }
}

/// What is committed at a node stays in its log.
proof fn committed_start_stays(h: History, next: History, id: NodeId)
    requires
        h.inv(),
        next.inv(),
        crate::growth::grows(h, next),
        h.has(id),
        next.has(id),
        next.node(id).volatile.commit_index >= h.node(id).volatile.commit_index,
    ensures
        next.logs[id].take(h.node(id).volatile.commit_index as int)
            == crate::freshness::committed(h, id),
{
    let old = crate::freshness::committed(h, id);
    let new = crate::freshness::committed(next, id);
    assert(h.node_ok(id) && next.node_ok(id));
    let term = h.node(id).term();
    crate::growth::settled_is_kept(h, next, old, term, term);
    assert forall|i: int| 0 <= i < old.len() implies next.logs[id][i] == old[i] by {
        crate::completeness::settled_logs_agree(next, old, new, term, next.node(id).term(), i);
        assert(new[i] == next.logs[id][i]);
    }
    assert(next.logs[id].take(old.len() as int) =~= old);
}

/// The entries that a node hands out to be applied are those of its whole log that
/// are newly committed.
#[verifier::spinoff_prover]
proof fn applied_entries_are_of_the_log(h: History, next: History, id: NodeId, event: Event)
    requires
        h.inv(),
        next.inv(),
        h.has(id),
        next.has(id),
        h.node(id).admits(event),
        next.node(id) == h.node(id).on(event).0,
        !(event is InstallSnapshot),
    ensures
        next.node(id).volatile.commit_index >= h.node(id).volatile.commit_index,
        next.node(id).log().snapshot_index == h.node(id).log().snapshot_index,
        h.node(id).on(event).1.entries_to_apply == next.logs[id].subrange(
            h.node(id).volatile.commit_index as int,
            next.node(id).volatile.commit_index as int,
        ),
{
    let before = h.node(id);
    let after = next.node(id);
    assert(h.node_ok(id) && next.node_ok(id));
    crate::progress::whole_log_stays(next, id);
    crate::laws::commit_never_falls(before, event);
    crate::laws::newly_committed_entries_are_applied(before, event);
    crate::laws::base_stays(before, event);
    let lo = before.volatile.commit_index as int;
    let hi = after.volatile.commit_index as int;
    assert(after.log().between(lo, hi) =~= next.logs[id].subrange(lo, hi));
}

#[verifier::spinoff_prover]
proof fn only_snapshots_are_installed(node: NodeView, event: Event)
    ensures
        node.on(event).1.install_snapshot is Some ==> (event matches Event::InstallSnapshot(req)
            && node.on(event).1.install_snapshot == Some(req)
            && node.on(event).0.volatile.commit_index == req.last_included_index
            && node.on(event).0.log().snapshot_index == req.last_included_index),
        event is InstallSnapshot && node.on(event).1.install_snapshot is None ==> {
            &&& node.on(event).0.volatile == node.volatile
            &&& node.on(event).0.log() == node.log()
            &&& node.on(event).1.entries_to_apply.len() == 0
        },
{
}

/// A log that was sent as a snapshot is what the node that installs it has committed.
proof fn installed_log_is_committed(
    h: History,
    next: History,
    id: NodeId,
    e: Envelope,
    req: crate::message::InstallSnapshotView,
)
    requires
        h.inv(),
        next.inv(),
        crate::growth::grows(h, next),
        next.has(id),
        h.cluster.sent.contains(e),
        e.message == MessageView::InstallSnapshotRequest(req),
        next.node(id).volatile.commit_index == req.last_included_index,
    ensures
        crate::freshness::committed(next, id) == h.start_of(
            req.term,
            req.last_included_index as int,
        ),
{
    let log = h.start_of(req.term, req.last_included_index as int);
    let new = crate::freshness::committed(next, id);
    assert(h.message_ok(e));
    assert(next.node_ok(id));
    crate::growth::settled_is_kept(h, next, log, req.term, req.term);
    assert forall|i: int| 0 <= i < log.len() implies new[i] == log[i] by {
        crate::completeness::settled_logs_agree(
            next,
            log,
            new,
            req.term,
            next.node(id).term(),
            i,
        );
    }
    assert(new =~= log);
}

/// The store of a node after an event.
#[verifier::spinoff_prover]
proof fn moved_store_is_ok(
    r: Replicas,
    next: Replicas,
    id: NodeId,
    event: Event,
    decode: spec_fn(Seq<u8>) -> Store,
)
    requires
        r.inv(decode),
        next.history.inv(),
        crate::growth::grows(r.history, next.history),
        r.history.has(id),
        next.history.has(id),
        r.history.node(id).admits(event),
        next.history.node(id) == r.history.node(id).on(event).0,
        next.stores[id] == store_after(r.stores[id], r.history.node(id).on(event).1, decode),
        next.saved[id] == if r.history.node(id).on(event).1.install_snapshot is Some {
            next.stores[id]
        } else {
            r.saved[id]
        },
        crate::freshness::arrives(r.history, event),
    ensures
        next.store_ok(id),
{
    let h = r.history;
    let n = next.history;
    let before = h.node(id);
    let after = n.node(id);
    let actions = before.on(event).1;
    assert(r.store_ok(id));
    assert(h.node_ok(id) && n.node_ok(id));
    only_snapshots_are_installed(before, event);
    if actions.install_snapshot is Some {
        let req = event->InstallSnapshot_0;
        let e = choose|e: Envelope| #[trigger]
            h.cluster.sent.contains(e) && e.message == MessageView::InstallSnapshotRequest(req);
        assert(r.snapshot_ok(e, decode));
        installed_log_is_committed(h, n, id, e, req);
    } else {
        if event is InstallSnapshot {
            assert(actions.entries_to_apply =~= Seq::empty());
        } else {
            applied_entries_are_of_the_log(h, n, id, event);
        }
        let commit = before.volatile.commit_index as int;
        let base = before.log().snapshot_index as int;
        committed_start_stays(h, n, id);
        assert(n.logs[id].subrange(commit, commit) =~= Seq::empty());
        replay_goes_on(n.logs[id], commit, after.volatile.commit_index as int);
        assert(n.logs[id].take(base) =~= h.logs[id].take(base)) by {
            assert forall|i: int| 0 <= i < base implies n.logs[id][i] == h.logs[id][i] by {
                assert(n.logs[id].take(commit)[i] == crate::freshness::committed(h, id)[i]);
            }
        }
    }
}

proof fn event_keeps_stores(
    r: Replicas,
    next: Replicas,
    id: NodeId,
    event: Event,
    decode: spec_fn(Seq<u8>) -> Store,
)
    requires
        r.inv(decode),
        crate::freshness::moves(r.history, next.history, id, event),
        r.history.node(id).admits(event),
        next.history.node(id) == r.history.node(id).on(event).0,
        next == r.after(next.history, id, event, decode),
    ensures
        next.inv(decode),
{
    let h = r.history;
    let n = next.history;
    moved_store_is_ok(r, next, id, event, decode);
    assert forall|other: NodeId| #[trigger] n.has(other) implies next.store_ok(other) by {
        if other != id {
            assert(h.has(other));
            assert(r.store_ok(other));
            assert(n.node(other) == h.node(other) && n.logs[other] == h.logs[other]);
        }
    }
    assert forall|e: Envelope| #[trigger] n.cluster.sent.contains(e) implies next.snapshot_ok(
        e,
        decode,
    ) by {
        if let MessageView::InstallSnapshotRequest(req) = e.message {
            assert(h.cluster.sent.contains(e));
            assert(r.snapshot_ok(e, decode));
            assert(h.message_ok(e));
            crate::growth::start_is_kept(h, n, req.term, req.last_included_index as int);
        }
    }
}

/// A step that changes no whole log leaves the outcomes as they are.
#[verifier::spinoff_prover]
proof fn local_change_keeps_stores(
    r: Replicas,
    next: Replicas,
    id: NodeId,
    decode: spec_fn(Seq<u8>) -> Store,
)
    requires
        r.inv(decode),
        next.history.inv(),
        next.history == (History { cluster: next.history.cluster, ..r.history }),
        next.history.cluster.nodes.dom() == r.history.cluster.nodes.dom(),
        forall|n: NodeId| n != id ==> #[trigger] next.history.node(n) == r.history.node(n),
        forall|n: NodeId|
            n != id ==> #[trigger] next.stores[n] == r.stores[n] && next.saved[n] == r.saved[n],
        next.store_ok(id),
        forall|e: Envelope| #[trigger]
            next.history.cluster.sent.contains(e) ==> r.history.cluster.sent.contains(e)
                || r.snapshot_ok(e, decode),
    ensures
        next.inv(decode),
{
    let h = r.history;
    let n = next.history;
    assert forall|other: NodeId| #[trigger] n.has(other) implies next.store_ok(other) by {
        if other != id {
            assert(h.has(other));
            assert(r.store_ok(other));
            assert(n.node(other) == h.node(other));
            assert(next.stores[other] == r.stores[other]);
        }
    }
    assert forall|e: Envelope| #[trigger] n.cluster.sent.contains(e) implies next.snapshot_ok(
        e,
        decode,
    ) by {
        if h.cluster.sent.contains(e) {
            assert(r.snapshot_ok(e, decode));
        }
    }
}

proof fn carried_event_keeps_stores(
    r: Replicas,
    next: Replicas,
    id: NodeId,
    event: Event,
    decode: spec_fn(Seq<u8>) -> Store,
)
    requires
        r.inv(decode),
        r.history.cluster.can(id, event),
        next.history == r.history.after(id, event),
        next.history.inv(),
        crate::growth::grows(r.history, next.history),
        crate::freshness::arrives(r.history, event),
        next == r.after(next.history, id, event, decode),
    ensures
        next.inv(decode),
{
    crate::freshness::event_moves(r.history, id, event);
    event_keeps_stores(r, next, id, event, decode);
}

#[verifier::spinoff_prover]
proof fn sent_snapshot_keeps_stores(
    r: Replicas,
    next: Replicas,
    id: NodeId,
    to: NodeId,
    snapshot: crate::message::InstallSnapshotView,
    decode: spec_fn(Seq<u8>) -> Store,
)
    requires
        r.inv(decode),
        next.history.inv(),
        r.steps_to(next, Step::SendSnapshot(id, to, snapshot), decode),
    ensures
        next.inv(decode),
{
    let h = r.history;
    assert(h.has(id));
    assert(r.store_ok(id));
    assert(h.node_ok(id) && h.leader_ok(id));
    let e = Envelope { from: id, to, message: MessageView::InstallSnapshotRequest(snapshot) };
    assert(r.snapshot_ok(e, decode));
    local_change_keeps_stores(r, next, id, decode);
}

#[verifier::spinoff_prover]
proof fn compaction_keeps_stores(
    r: Replicas,
    next: Replicas,
    id: NodeId,
    index: u64,
    decode: spec_fn(Seq<u8>) -> Store,
)
    requires
        r.inv(decode),
        next.history.inv(),
        r.steps_to(next, Step::Compact(id, index), decode),
    ensures
        next.inv(decode),
{
    let h = r.history;
    let n = next.history;
    assert(h.has(id));
    assert(r.store_ok(id));
    assert(h.node_ok(id));
    assert(n.cluster.nodes.dom() =~= h.cluster.nodes.dom());
    assert(n.node(id) == h.node(id).compact_log(index));
    assert(n.node(id).log().snapshot_index == index);
    assert(next.store_ok(id));
    local_change_keeps_stores(r, next, id, decode);
}

#[verifier::spinoff_prover]
proof fn restart_keeps_stores(
    r: Replicas,
    next: Replicas,
    id: NodeId,
    decode: spec_fn(Seq<u8>) -> Store,
)
    requires
        r.inv(decode),
        next.history.inv(),
        r.steps_to(next, Step::Restart(id), decode),
    ensures
        next.inv(decode),
{
    let h = r.history;
    let n = next.history;
    assert(h.has(id));
    assert(r.store_ok(id));
    assert(n.cluster.nodes.dom() =~= h.cluster.nodes.dom());
    assert(next.store_ok(id));
    local_change_keeps_stores(r, next, id, decode);
}

#[verifier::spinoff_prover]
proof fn stopped_install_keeps_stores(
    r: Replicas,
    next: Replicas,
    e: Envelope,
    installed: bool,
    decode: spec_fn(Seq<u8>) -> Store,
)
    requires
        r.inv(decode),
        next.history.inv(),
        r.steps_to(next, Step::StopInstalling(e, installed), decode),
    ensures
        next.inv(decode),
{
    let h = r.history;
    let id = e.to;
    let event = crate::cluster::written(e.message->InstallSnapshotRequest_0, installed);
    assert(h.has(id));
    assert(h.cluster.sent.contains(e));
    crate::progress::written_keeps_inv(h, e, installed);
    let between = r.after(h.after(id, event), id, event, decode);
    assert(crate::freshness::arrives(h, event));
    carried_event_keeps_stores(r, between, id, event, decode);
    let after = between.history;
    let n = next.history;
    assert(after.has(id));
    assert(between.store_ok(id));
    assert(n.cluster.nodes.dom() =~= after.cluster.nodes.dom());
    assert(next.store_ok(id));
    local_change_keeps_stores(between, next, id, decode);
}

#[verifier::spinoff_prover]
proof fn delivery_keeps_stores(
    r: Replicas,
    next: Replicas,
    e: Envelope,
    decode: spec_fn(Seq<u8>) -> Store,
)
    requires
        r.inv(decode),
        next.history.inv(),
        crate::growth::grows(r.history, next.history),
        r.steps_to(next, Step::Deliver(e), decode),
    ensures
        next.inv(decode),
{
    let event = crate::cluster::arrival(e)->0;
    assert(r.history.cluster.sent.contains(e));
    assert(crate::freshness::arrives(r.history, event));
    carried_event_keeps_stores(r, next, e.to, event, decode);
}

#[verifier::spinoff_prover]
proof fn refusal_keeps_stores(
    r: Replicas,
    next: Replicas,
    e: Envelope,
    decode: spec_fn(Seq<u8>) -> Store,
)
    requires
        r.inv(decode),
        r.steps_to(next, Step::RefuseSnapshot(e), decode),
    ensures
        next.inv(decode),
{
    let event = crate::cluster::written(e.message->InstallSnapshotRequest_0, false);
    assert(r.history.has(e.to));
    crate::progress::written_keeps_inv(r.history, e, false);
    carried_event_keeps_stores(r, next, e.to, event, decode);
}

#[verifier::spinoff_prover]
proof fn step_keeps_stores(
    r: Replicas,
    next: Replicas,
    step: Step,
    decode: spec_fn(Seq<u8>) -> Store,
)
    requires
        r.inv(decode),
        r.steps_to(next, step, decode),
    ensures
        next.inv(decode),
{
    crate::progress::inv_is_kept(r.history, next.history, step);
    match step {
        Step::ElectionTimeout(id) => {
            carried_event_keeps_stores(r, next, id, Event::ElectionTimeout, decode);
        },
        Step::Tick(id) => {
            carried_event_keeps_stores(r, next, id, Event::Tick, decode);
        },
        Step::Client(id, req) => {
            carried_event_keeps_stores(r, next, id, Event::ClientRequest(req), decode);
        },
        Step::Deliver(e) => delivery_keeps_stores(r, next, e, decode),
        Step::SendSnapshot(id, to, snapshot) => {
            sent_snapshot_keeps_stores(r, next, id, to, snapshot, decode);
        },
        Step::Compact(id, index) => compaction_keeps_stores(r, next, id, index, decode),
        Step::Restart(id) => restart_keeps_stores(r, next, id, decode),
        Step::RefuseSnapshot(e) => refusal_keeps_stores(r, next, e, decode),
        Step::StopInstalling(e, installed) => {
            stopped_install_keeps_stores(r, next, e, installed, decode);
        },
    }
}

// ── Runs ───────────────────────────────────────────────────────────────────

proof fn stores_are_ok_throughout(
    run: Seq<Replicas>,
    decode: spec_fn(Seq<u8>) -> Store,
    i: int,
)
    requires
        is_replica_run(run, decode),
        0 <= i < run.len(),
    ensures
        run[i].inv(decode),
    decreases i,
{
    if i == 0 {
        let h = run[0].history;
        crate::progress::inv_holds_at_the_start(h);
        assert forall|id: NodeId| #[trigger] h.has(id) implies run[0].store_ok(id) by {
            assert(h.cluster.nodes.contains_key(id));
            assert(h.logs[id].take(0).len() == 0);
        }
    } else {
        stores_are_ok_throughout(run, decode, i - 1);
        let before = run[i - 1];
        let after = run[i];
        assert(after.follows(before, decode));
        let step = choose|step: Step| before.steps_to(after, step, decode);
        step_keeps_stores(before, after, step, decode);
    }
}

proof fn histories_are_a_history(run: Seq<Replicas>, decode: spec_fn(Seq<u8>) -> Store)
    requires
        is_replica_run(run, decode),
    ensures
        crate::history::is_history(histories(run)),
        histories(run).len() == run.len(),
        forall|i: int| 0 <= i < run.len() ==> #[trigger] histories(run)[i] == run[i].history,
{
    let hs = histories(run);
    assert forall|i: int| 0 < i < hs.len() implies (#[trigger] hs[i]).follows(hs[i - 1]) by {
        let before = run[i - 1];
        let after = run[i];
        assert(after.follows(before, decode));
        let step = choose|step: Step| before.steps_to(after, step, decode);
        assert(before.history.steps_to(after.history, step));
    }
}

/// The store of a node is at all times the outcome of the entries that it has
/// committed, the compacted ones included, whether it has applied them itself, has
/// installed a snapshot or has started again from its own.
pub proof fn stores_follow_logs(
    run: Seq<Replicas>,
    decode: spec_fn(Seq<u8>) -> Store,
    i: int,
    id: NodeId,
)
    requires
        is_replica_run(run, decode),
        0 <= i < run.len(),
        run[i].history.has(id),
    ensures
        run[i].stores[id] == crate::safety::replayed(
            run[i].history.logs[id].take(run[i].history.node(id).volatile.commit_index as int),
        ),
{
    stores_are_ok_throughout(run, decode, i);
    assert(run[i].store_ok(id));
}

/// Replicas agree: two nodes that have committed equally many entries, at whatever
/// times, have the same key-value store.
pub proof fn replicas_agree(
    run: Seq<Replicas>,
    decode: spec_fn(Seq<u8>) -> Store,
    i: int,
    j: int,
    a: NodeId,
    b: NodeId,
)
    requires
        is_replica_run(run, decode),
        0 <= i <= j < run.len(),
        run[i].history.has(a),
        run[j].history.has(b),
        run[i].history.node(a).volatile.commit_index == run[j].history.node(
            b,
        ).volatile.commit_index,
    ensures
        run[i].stores[a] == run[j].stores[b],
{
    stores_follow_logs(run, decode, i, a);
    stores_follow_logs(run, decode, j, b);
    histories_are_a_history(run, decode);
    let hs = histories(run);
    assert(hs[i] == run[i].history && hs[j] == run[j].history);
    crate::safety::committed_logs_replay_alike(
        hs,
        i,
        j,
        a,
        b,
        run[i].history.node(a).volatile.commit_index as int,
    );
}

/// Reads are linearizable. A read comes to a leader at some moment and starts a
/// heartbeat round. Later the node leads, a majority has confirmed it in that round
/// or a later one, and the last entry that it has committed is of its own term. Then
/// its store, from which it answers, is the outcome of a log that starts with all that
/// any node had committed when the read came.
pub proof fn answers_are_fresh(
    run: Seq<Replicas>,
    decode: spec_fn(Seq<u8>) -> Store,
    i: int,
    j: int,
    leader: NodeId,
    round: u64,
    n: NodeId,
)
    requires
        is_replica_run(run, decode),
        0 <= i <= j < run.len(),
        crate::freshness::leads(run[i].history, leader),
        crate::freshness::leads(run[j].history, leader),
        run[i].history.has(n),
        round > run[i].history.node(leader).leader_state->0.round,
        run[j].history.node(leader).confirmed_since(round),
        run[i].history.node(leader).volatile.commit_index <= run[j].history.node(
            leader,
        ).volatile.commit_index,
        run[j].history.node(leader).log().term_at(
            run[j].history.node(leader).volatile.commit_index as int,
        ) == run[j].history.node(leader).term(),
    ensures
        run[i].history.node(n).volatile.commit_index <= run[j].history.node(
            leader,
        ).volatile.commit_index,
        crate::freshness::committed(run[i].history, n).is_prefix_of(
            crate::freshness::committed(run[j].history, leader),
        ),
        run[j].stores[leader] == crate::safety::replayed(
            crate::freshness::committed(run[j].history, leader),
        ),
{
    histories_are_a_history(run, decode);
    let hs = histories(run);
    assert(hs[i] == run[i].history && hs[j] == run[j].history);
    let commit = hs[j].node(leader).volatile.commit_index as int;
    crate::freshness::reads_are_fresh(hs, i, j, leader, round, commit, n);
    stores_follow_logs(run, decode, j, leader);
    crate::safety::live_logs_are_tails(hs, i, n);
    crate::safety::live_logs_are_tails(hs, j, leader);
    let old = crate::freshness::committed(hs[i], n);
    let new = crate::freshness::committed(hs[j], leader);
    assert forall|k: int| 0 <= k < old.len() implies old[k] == new[k] by {
        crate::safety::committed_logs_agree(hs, i, j, n, leader, k + 1);
    }
    assert(old =~= new.subrange(0, old.len() as int));
}

/// An actor applies entries as a replica does, and serves reads from the store that it
/// then has.
pub proof fn actors_are_replicas<R>(actor: ActorView<R>, entries: Seq<LogEntry>)
    ensures
        actor.applied_all(entries).0.kv == replayed_on(actor.kv, entries),
        actor.applied_all(entries).0.reads_drained().0.kv == replayed_on(actor.kv, entries),
    decreases entries.len(),
{
    if entries.len() > 0 {
        actors_are_replicas(actor, entries.drop_last());
    }
}

} // verus!
