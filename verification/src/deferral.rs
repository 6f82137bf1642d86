//! Nodes that cannot write their state for a while.
//!
//! Such a node goes on in memory and sends nothing. What it does meanwhile either
//! takes place when its state is written at last, or never, if it stops before. So
//! whatever holds of every orderly run of a cluster holds of such clusters as well.

use vstd::prelude::*;

use crate::cluster::{Cluster, Envelope, Step};
use crate::message::NodeId;
use crate::transitions::{Event, NodeView};

verus! {

/// A cluster in which nodes may be ahead of what they have written.
pub struct Deferred {
    /// The cluster with every node as it is on disk.
    pub cluster: Cluster,
    /// What has happened at each node since it last wrote its state.
    pub waiting: Map<NodeId, Seq<Event>>,
}

/// What can happen in such a cluster.
pub enum Move {
    /// A node whose state is on disk takes a step, and what it has changed is written.
    Saved(Step),
    /// An event takes place at a node in memory, and the state cannot be written.
    Kept(NodeId, Event),
    /// A node writes all that has happened since it last wrote its state.
    CaughtUp(NodeId),
    /// A node crashes and starts again from its disk.
    Stopped(NodeId),
}

/// The node that takes a step.
pub open spec fn mover(step: Step) -> NodeId {
    match step {
        Step::ElectionTimeout(id) => id,
        Step::Tick(id) => id,
        Step::Client(id, _) => id,
        Step::Deliver(envelope) => envelope.to,
        Step::SendSnapshot(id, _, _) => id,
        Step::Compact(id, _) => id,
        Step::Restart(id) => id,
        Step::RefuseSnapshot(envelope) => envelope.to,
        Step::StopInstalling(envelope, _) => envelope.to,
    }
}

/// What events make of a node, one after the other.
pub open spec fn node_after(node: NodeView, events: Seq<Event>) -> NodeView
    decreases events.len(),
{
    if events.len() == 0 {
        node
    } else {
        node_after(node, events.drop_last()).on(events.last()).0
    }
}

/// What events at a node make of a cluster, one after the other.
pub open spec fn cluster_after(cluster: Cluster, id: NodeId, events: Seq<Event>) -> Cluster
    decreases events.len(),
{
    if events.len() == 0 {
        cluster
    } else {
        cluster_after(cluster, id, events.drop_last()).after(id, events.last())
    }
}

/// Whether a message is one that was sent to the node, and its arrival is the event.
pub open spec fn brings(cluster: Cluster, id: NodeId, event: Event, e: Envelope) -> bool {
    &&& cluster.sent.contains(e)
    &&& e.to == id
    &&& crate::cluster::arrival(e) == Some(event)
}

/// Whether an event can reach a node: a timer fires, a client sends a request, or a
/// message arrives.
pub open spec fn reaches(cluster: Cluster, id: NodeId, event: Event) -> bool {
    match event {
        Event::ElectionTimeout => true,
        Event::Tick => true,
        Event::ClientRequest(_) => true,
        _ => exists|e: Envelope| #[trigger] brings(cluster, id, event, e),
    }
}

impl Deferred {
    /// A node as it is in memory.
    pub open spec fn in_memory(self, id: NodeId) -> NodeView {
        node_after(self.cluster.nodes[id], self.waiting[id])
    }

    /// Whether the state of a node is on disk.
    pub open spec fn is_saved(self, id: NodeId) -> bool {
        self.waiting[id].len() == 0
    }

    /// A cluster that has never run.
    pub open spec fn init(self) -> bool {
        &&& self.cluster.init()
        &&& forall|id: NodeId| #[trigger]
            self.cluster.nodes.contains_key(id) ==> self.is_saved(id)
    }

    /// Whether a move leads from this cluster to the next one. A snapshot from the
    /// leader is installed only on a node whose state is on disk, and counts as written
    /// with all that it makes of the node as soon as it is on disk itself.
    pub open spec fn moves_to(self, next: Deferred, by: Move) -> bool {
        match by {
            Move::Saved(step) => {
                &&& self.is_saved(mover(step))
                &&& crate::history::is_orderly(self.cluster, step)
                &&& self.cluster.steps_to(next.cluster, step)
                &&& next.waiting == self.waiting
            },
            Move::Kept(id, event) => {
                &&& self.cluster.nodes.contains_key(id)
                &&& self.in_memory(id).admits(event)
                &&& reaches(self.cluster, id, event)
                &&& self.in_memory(id).on(event).1.install_snapshot is None
                &&& next == Deferred {
                    waiting: self.waiting.insert(id, self.waiting[id].push(event)),
                    ..self
                }
            },
            Move::CaughtUp(id) => {
                &&& self.cluster.nodes.contains_key(id)
                &&& next == Deferred {
                    cluster: cluster_after(self.cluster, id, self.waiting[id]),
                    waiting: self.waiting.insert(id, Seq::empty()),
                }
            },
            Move::Stopped(id) => {
                &&& self.cluster.steps_to(next.cluster, Step::Restart(id))
                &&& next.waiting == self.waiting.insert(id, Seq::empty())
            },
        }
    }

    /// Whether some move leads from `before` to this cluster.
    pub open spec fn follows(self, before: Deferred) -> bool {
        exists|by: Move| before.moves_to(self, by)
    }

    /// What waits at a node can take place there.
    pub open spec fn can_catch_up(self, id: NodeId) -> bool {
        let node = self.cluster.nodes[id];
        let events = self.waiting[id];
        forall|k: int|
            0 <= k < events.len() ==> {
                &&& node_after(node, events.take(k)).admits(#[trigger] events[k])
                &&& reaches(self.cluster, id, events[k])
            }
    }

    pub open spec fn inv(self) -> bool {
        forall|id: NodeId| #[trigger] self.cluster.nodes.contains_key(id) ==> self.can_catch_up(id)
    }
}

/// A run of a cluster in which nodes may be ahead of what they have written.
pub open spec fn is_deferred_run(run: Seq<Deferred>) -> bool {
    &&& run.len() > 0
    &&& run[0].init()
    &&& forall|i: int| 0 < i < run.len() ==> (#[trigger] run[i]).follows(run[i - 1])
}

// ── Moves ──────────────────────────────────────────────────────────────────

proof fn event_stays_in_reach(cluster: Cluster, next: Cluster, id: NodeId, event: Event)
    requires
        reaches(cluster, id, event),
        cluster.sent.subset_of(next.sent),
    ensures
        reaches(next, id, event),
{
    if !(event is ElectionTimeout || event is Tick || event is ClientRequest) {
        let e = choose|e: Envelope| #[trigger] brings(cluster, id, event, e);
        assert(brings(next, id, event, e));
    }
}

/// A step leaves all nodes alone but one, and no message is unsent.
proof fn step_is_local(cluster: Cluster, next: Cluster, step: Step)
    requires
        cluster.steps_to(next, step),
    ensures
        next.nodes.dom() =~= cluster.nodes.dom(),
        cluster.sent.subset_of(next.sent),
        forall|n: NodeId| n != mover(step) ==> #[trigger] next.nodes[n] == cluster.nodes[n],
{
}

/// A run goes on by the events that wait at a node.
proof fn run_catches_up(run: Seq<Cluster>, id: NodeId, events: Seq<Event>) -> (longer: Seq<Cluster>)
    requires
        crate::history::is_orderly_run(run),
        run.last().nodes.contains_key(id),
        forall|k: int|
            0 <= k < events.len() ==> {
                &&& node_after(run.last().nodes[id], events.take(k)).admits(#[trigger] events[k])
                &&& reaches(run.last(), id, events[k])
            },
    ensures
        crate::history::is_orderly_run(longer),
        run.is_prefix_of(longer),
        longer.last() == cluster_after(run.last(), id, events),
        longer.last().nodes.dom() =~= run.last().nodes.dom(),
        run.last().sent.subset_of(longer.last().sent),
        longer.last().nodes[id] == node_after(run.last().nodes[id], events),
        forall|n: NodeId| n != id ==> #[trigger] longer.last().nodes[n] == run.last().nodes[n],
    decreases events.len(),
{
    if events.len() == 0 {
        assert(run =~= run.subrange(0, run.len() as int));
        run
    } else {
        let rest = events.drop_last();
        let event = events.last();
        assert forall|k: int| 0 <= k < rest.len() implies node_after(
            run.last().nodes[id],
            rest.take(k),
        ).admits(#[trigger] rest[k]) && reaches(run.last(), id, rest[k]) by {
            assert(rest[k] == events[k]);
            assert(rest.take(k) =~= events.take(k));
        }
        let before = run_catches_up(run, id, rest);
        let cluster = before.last();
        let next = cluster.after(id, event);
        assert(events.take(events.len() - 1) =~= rest);
        assert(event == events[events.len() - 1]);
        event_stays_in_reach(run.last(), cluster, id, event);
        let step = match event {
            Event::ElectionTimeout => Step::ElectionTimeout(id),
            Event::Tick => Step::Tick(id),
            Event::ClientRequest(req) => Step::Client(id, req),
            _ => Step::Deliver(choose|e: Envelope| #[trigger] brings(cluster, id, event, e)),
        };
        assert(cluster.steps_to(next, step));
        assert(crate::history::is_orderly(cluster, step));
        run_goes_on(before, next, step);
        let longer = before.push(next);
        assert(run.is_prefix_of(longer)) by {
            assert(longer.subrange(0, run.len() as int) =~= before.subrange(0, run.len() as int));
        }
        longer
    }
}

proof fn run_goes_on(run: Seq<Cluster>, next: Cluster, step: Step)
    requires
        crate::history::is_orderly_run(run),
        crate::history::is_orderly(run.last(), step),
        run.last().steps_to(next, step),
    ensures
        crate::history::is_orderly_run(run.push(next)),
        run.is_prefix_of(run.push(next)),
{
    let longer = run.push(next);
    assert(run =~= longer.subrange(0, run.len() as int));
    assert forall|i: int| 0 < i < longer.len() implies crate::history::comes_orderly(
        #[trigger] longer[i],
        longer[i - 1],
    ) by {
        if i < run.len() {
            assert(longer[i] == run[i] && longer[i - 1] == run[i - 1]);
        } else {
            assert(longer[i - 1] == run.last());
        }
    }
}

proof fn others_can_catch_up(before: Deferred, after: Deferred, id: NodeId)
    requires
        before.inv(),
        before.cluster.nodes.dom() =~= after.cluster.nodes.dom(),
        before.cluster.sent.subset_of(after.cluster.sent),
        forall|n: NodeId|
            n != id ==> #[trigger] after.cluster.nodes[n] == before.cluster.nodes[n],
        forall|n: NodeId| n != id ==> #[trigger] after.waiting[n] == before.waiting[n],
        after.can_catch_up(id),
    ensures
        after.inv(),
{
    assert forall|n: NodeId| #[trigger] after.cluster.nodes.contains_key(n) implies
        after.can_catch_up(n) by {
        if n != id {
            assert(before.cluster.nodes.contains_key(n));
            assert(before.can_catch_up(n));
            let events = after.waiting[n];
            assert(events == before.waiting[n]);
            assert(after.cluster.nodes[n] == before.cluster.nodes[n]);
            assert forall|k: int| 0 <= k < events.len() implies node_after(
                after.cluster.nodes[n],
                events.take(k),
            ).admits(#[trigger] events[k]) && reaches(after.cluster, n, events[k]) by {
                event_stays_in_reach(before.cluster, after.cluster, n, events[k]);
            }
        }
    }
}

/// What a move makes of a run that has led to the cluster on disk.
proof fn move_is_steps(run: Seq<Cluster>, before: Deferred, after: Deferred, by: Move) -> (longer:
    Seq<Cluster>)
    requires
        crate::history::is_orderly_run(run),
        run.last() == before.cluster,
        before.inv(),
        before.moves_to(after, by),
    ensures
        crate::history::is_orderly_run(longer),
        run.is_prefix_of(longer),
        longer.last() == after.cluster,
        after.inv(),
{
    match by {
        Move::Saved(step) => {
            step_is_local(before.cluster, after.cluster, step);
            run_goes_on(run, after.cluster, step);
            others_can_catch_up(before, after, mover(step));
            run.push(after.cluster)
        },
        Move::Kept(id, event) => {
            let node = before.cluster.nodes[id];
            let events = after.waiting[id];
            assert(before.can_catch_up(id));
            assert forall|k: int| 0 <= k < events.len() implies node_after(
                node,
                events.take(k),
            ).admits(#[trigger] events[k]) && reaches(after.cluster, id, events[k]) by {
                assert(events.take(k) =~= before.waiting[id].take(k));
                if k < before.waiting[id].len() {
                    assert(events[k] == before.waiting[id][k]);
                } else {
                    assert(before.waiting[id].take(k) =~= before.waiting[id]);
                }
            }
            others_can_catch_up(before, after, id);
            assert(run =~= run.subrange(0, run.len() as int));
            run
        },
        Move::CaughtUp(id) => {
            assert(before.can_catch_up(id));
            let longer = run_catches_up(run, id, before.waiting[id]);
            others_can_catch_up(before, after, id);
            longer
        },
        Move::Stopped(id) => {
            step_is_local(before.cluster, after.cluster, Step::Restart(id));
            run_goes_on(run, after.cluster, Step::Restart(id));
            others_can_catch_up(before, after, id);
            run.push(after.cluster)
        },
    }
}

proof fn run_on_disk(run: Seq<Deferred>, i: int) -> (plain: Seq<Cluster>)
    requires
        is_deferred_run(run),
        0 <= i < run.len(),
    ensures
        crate::history::is_orderly_run(plain),
        plain.last() == run[i].cluster,
        run[i].inv(),
        forall|k: int| 0 <= k <= i ==> plain.contains(#[trigger] run[k].cluster),
    decreases i,
{
    if i == 0 {
        let plain = seq![run[0].cluster];
        assert(plain[0] == run[0].cluster);
        plain
    } else {
        let shorter = run_on_disk(run, i - 1);
        let before = run[i - 1];
        let after = run[i];
        assert(after.follows(before));
        let by = choose|by: Move| before.moves_to(after, by);
        let plain = move_is_steps(shorter, before, after, by);
        assert forall|k: int| 0 <= k <= i implies plain.contains(#[trigger] run[k].cluster) by {
            if k < i {
                let at = choose|at: int| 0 <= at < shorter.len() && shorter[at] == run[k].cluster;
                assert(plain[at] == plain.subrange(0, shorter.len() as int)[at]);
            } else {
                assert(plain[plain.len() - 1] == run[i].cluster);
            }
        }
        plain
    }
}

/// Nodes that cannot write for a while do no harm: whatever becomes of the clusters on
/// disk is one orderly run of a cluster, with every event in it at the time when it
/// was written.
pub proof fn deferred_runs_are_runs(run: Seq<Deferred>)
    requires
        is_deferred_run(run),
    ensures
        exists|plain: Seq<Cluster>|
            {
                &&& #[trigger] crate::history::is_orderly_run(plain)
                &&& plain.last() == run.last().cluster
                &&& forall|i: int| 0 <= i < run.len() ==> plain.contains(#[trigger] run[i].cluster)
            },
{
    let plain = run_on_disk(run, run.len() - 1);
    assert(crate::history::is_orderly_run(plain));
}

/// What a node has in memory while it cannot write is what it has on disk once it can:
/// nothing of it is lost unless the node stops.
pub proof fn memory_is_written(before: Deferred, after: Deferred, id: NodeId)
    requires
        before.moves_to(after, Move::CaughtUp(id)),
    ensures
        after.cluster.nodes[id] == before.in_memory(id),
        after.is_saved(id),
{
    caught_up_node(before.cluster, id, before.waiting[id]);
}

proof fn caught_up_node(cluster: Cluster, id: NodeId, events: Seq<Event>)
    requires
        cluster.nodes.contains_key(id),
    ensures
        cluster_after(cluster, id, events).nodes.contains_key(id),
        cluster_after(cluster, id, events).nodes[id] == node_after(cluster.nodes[id], events),
    decreases events.len(),
{
    if events.len() > 0 {
        caught_up_node(cluster, id, events.drop_last());
    }
}

} // verus!
