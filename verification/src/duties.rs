//! What an actor has done for it outside, from an event to the next, when all goes well.

use vstd::prelude::*;

use crate::actor::{ActorView, NodeActor, Reply};
use crate::agenda::{
    Agenda, AgendaView, Outcome, OutcomeView, RemainingView, StageView, Task, TaskView,
};
use crate::message::{LogEntry, MessageView, NodeId, ResponseView};
use crate::metrics::Metrics;
use crate::node::RaftNode;
use crate::state::{Actions, PersistentView, VolatileState};
use crate::transitions::NodeView;

verus! {

/// What a task that was done leads to.
#[verifier::opaque]
pub open spec fn done<R>(agenda: AgendaView<R>) -> (AgendaView<R>, TaskView<R>) {
    agenda.advanced(OutcomeView::Done)
}

/// The agenda after so many tasks that were all done.
pub open spec fn after_tasks<R>(agenda: AgendaView<R>, count: nat) -> AgendaView<R>
    decreases count,
{
    if count == 0 {
        agenda
    } else {
        done(after_tasks(agenda, (count - 1) as nat)).0
    }
}

/// The task that comes after so many tasks that were all done.
pub open spec fn task_after<R>(agenda: AgendaView<R>, count: nat) -> TaskView<R> {
    done(after_tasks(agenda, count)).1
}

/// An executed step is a step of this kind.
pub proof fn steps_are_as_told<R>(agenda: Agenda<R>, outcome: Outcome, result: (Agenda<R>, Task<R>))
    requires
        outcome is Done,
        call_ensures(Agenda::<R>::step, (agenda, outcome), result),
    ensures
        result.0@ == after_tasks(agenda@, 1),
        result.1@ == task_after(agenda@, 0),
{
    reveal_with_fuel(after_tasks, 2);
    reveal(done);
}

// ── Sending and answering ──────────────────────────────────────────────────

/// The actor with all messages counted as sent, and with its state on disk.
pub open spec fn released<R>(actor: ActorView<R>, count: nat) -> ActorView<R> {
    ActorView {
        unsaved: false,
        metrics: Metrics {
            messages_sent: crate::metrics::counted(actor.metrics.messages_sent, count as int),
            ..actor.metrics
        },
        ..actor
    }
}

/// Whether a resting actor is this one, with its metrics up to date.
pub open spec fn rests<R>(resting: ActorView<R>, actor: ActorView<R>) -> bool {
    &&& resting == ActorView { metrics: resting.metrics, ..actor }
    &&& crate::service::describes(resting.metrics, actor)
}

/// Whether this is the way in which an agenda goes on from the `start`-th task: all
/// messages go out in order, each once; then all lagging peers get a snapshot; then
/// the clients are answered; then a snapshot is saved, if one is due, and the log that
/// is left is written; and at last the node rests.
pub open spec fn goes_on<R>(
    agenda: AgendaView<R>,
    start: nat,
    messages: Seq<(NodeId, MessageView)>,
    peers: Seq<NodeId>,
    answered: ActorView<R>,
    replies: Seq<(R, ResponseView)>,
    reset_election_timer: bool,
) -> bool {
    let answer = (start + messages.len() + peers.len()) as nat;
    let log = answered.raft.log();
    let index = answered.raft.volatile.last_applied;
    let due = log.entries.len() > 100 && index > log.snapshot_index;
    &&& forall|k: nat|
        k < messages.len() ==> #[trigger] task_after(agenda, start + k) == TaskView::<R>::Send(
            messages[k as int].0,
            messages[k as int].1,
        )
    &&& forall|k: nat|
        k < peers.len() ==> #[trigger] task_after(agenda, start + messages.len() + k)
            == TaskView::<R>::SendSnapshot(peers[k as int])
    &&& task_after(agenda, answer) == TaskView::Answer(replies)
    &&& if due {
        let compacted = answered.raft.compact_log(index).persistent;
        &&& task_after(agenda, answer + 1) == TaskView::<R>::Save(
            index,
            log.term_at(index as int),
            answered.kv,
        )
        &&& task_after(agenda, answer + 2) == TaskView::<R>::Persist(compacted)
        &&& task_after(agenda, answer + 3) == TaskView::<R>::Rest(reset_election_timer)
        &&& rests(
            after_tasks(agenda, answer + 4).actor,
            ActorView { raft: answered.raft.compact_log(index), ..answered },
        )
    } else {
        &&& task_after(agenda, answer + 1) == TaskView::<R>::Rest(reset_election_timer)
        &&& rests(after_tasks(agenda, answer + 2).actor, answered)
    }
}

/// What the next step leads to.
spec fn next_step<R>(agenda: AgendaView<R>, count: nat) -> (AgendaView<R>, TaskView<R>) {
    done(after_tasks(agenda, count))
}

spec fn sending<R>(
    actor: ActorView<R>,
    remaining: RemainingView,
    reset_election_timer: bool,
) -> AgendaView<R> {
    AgendaView { actor, stage: StageView::Sending(remaining), reset_election_timer }
}

spec fn sharing<R>(
    actor: ActorView<R>,
    peers: Seq<NodeId>,
    entries: Seq<LogEntry>,
    reset_election_timer: bool,
) -> AgendaView<R> {
    AgendaView { actor, stage: StageView::Sharing(peers, entries), reset_election_timer }
}

/// What is left after the first messages.
spec fn without(remaining: RemainingView, count: nat) -> RemainingView {
    RemainingView { messages: remaining.messages.skip(count as int), ..remaining }
}

proof fn message_goes_out<R>(
    actor: ActorView<R>,
    remaining: RemainingView,
    reset_election_timer: bool,
)
    requires
        remaining.messages.len() > 0,
    ensures
        ({
            let (next, task) = sending(actor, remaining, reset_election_timer).sent(remaining);
            let rest = without(remaining, 1);
            &&& task == TaskView::<R>::Send(remaining.messages[0].0, remaining.messages[0].1)
            &&& next == sending(actor, rest, reset_election_timer)
            &&& done(next) == next.sent(rest)
        }),
{
    reveal(done);
}

proof fn snapshot_goes_out<R>(
    actor: ActorView<R>,
    any: AgendaView<R>,
    peers: Seq<NodeId>,
    entries: Seq<LogEntry>,
    reset_election_timer: bool,
)
    requires
        peers.len() > 0,
        any.actor == actor,
        any.reset_election_timer == reset_election_timer,
    ensures
        ({
            let (next, task) = any.shared(peers, entries);
            let rest = peers.skip(1);
            &&& task == TaskView::<R>::SendSnapshot(peers[0])
            &&& next == sharing(actor, rest, entries, reset_election_timer)
            &&& done(next) == next.shared(rest, entries)
        }),
{
    reveal(done);
}

proof fn sends_one_by_one<R>(
    agenda: AgendaView<R>,
    start: nat,
    actor: ActorView<R>,
    remaining: RemainingView,
    reset_election_timer: bool,
    k: nat,
)
    requires
        next_step(agenda, start) == sending(actor, remaining, reset_election_timer).sent(remaining),
        k <= remaining.messages.len(),
    ensures
        next_step(agenda, start + k) == sending(
            actor,
            without(remaining, k),
            reset_election_timer,
        ).sent(without(remaining, k)),
    decreases k,
{
    if k == 0 {
        assert(remaining.messages.skip(0) =~= remaining.messages);
        assert(without(remaining, 0) == remaining);
    } else {
        let done = (k - 1) as nat;
        sends_one_by_one(agenda, start, actor, remaining, reset_election_timer, done);
        message_goes_out(actor, without(remaining, done), reset_election_timer);
        assert(remaining.messages.skip(k - 1).skip(1) =~= remaining.messages.skip(k as int));
        assert(without(without(remaining, done), 1) == without(remaining, k));
        assert(after_tasks(agenda, start + k) == next_step(agenda, start + done).0);
    }
}

proof fn shares_one_by_one<R>(
    agenda: AgendaView<R>,
    start: nat,
    actor: ActorView<R>,
    any: AgendaView<R>,
    peers: Seq<NodeId>,
    entries: Seq<LogEntry>,
    k: nat,
)
    requires
        any.actor == actor,
        next_step(agenda, start) == any.shared(peers, entries),
        k <= peers.len(),
    ensures
        k > 0 ==> next_step(agenda, start + k) == sharing(
            actor,
            peers.skip(k as int),
            entries,
            any.reset_election_timer,
        ).shared(peers.skip(k as int), entries),
    decreases k,
{
    if k > 0 {
        let done = (k - 1) as nat;
        shares_one_by_one(agenda, start, actor, any, peers, entries, done);
        let left = peers.skip(done as int);
        let from = if done == 0 {
            any
        } else {
            sharing(actor, left, entries, any.reset_election_timer)
        };
        assert(peers.skip(0) =~= peers);
        snapshot_goes_out(actor, from, left, entries, any.reset_election_timer);
        assert(left.skip(1) =~= peers.skip(k as int));
        assert(after_tasks(agenda, start + k) == next_step(agenda, start + done).0);
    }
}

/// What follows once clients have been answered.
proof fn compaction_follows<R>(agenda: AgendaView<R>, count: nat, answered: ActorView<R>)
    requires
        after_tasks(agenda, count).actor == answered,
        after_tasks(agenda, count).stage == StageView::Compacting,
    ensures
        ({
            let log = answered.raft.log();
            let index = answered.raft.volatile.last_applied;
            let due = log.entries.len() > 100 && index > log.snapshot_index;
            let rest = TaskView::<R>::Rest(after_tasks(agenda, count).reset_election_timer);
            let compacted = answered.raft.compact_log(index).persistent;
            if due {
                &&& task_after(agenda, count) == TaskView::<R>::Save(
                    index,
                    log.term_at(index as int),
                    answered.kv,
                )
                &&& task_after(agenda, count + 1) == TaskView::<R>::Persist(compacted)
                &&& task_after(agenda, count + 2) == rest
                &&& rests(
                    after_tasks(agenda, count + 3).actor,
                    ActorView { raft: answered.raft.compact_log(index), ..answered },
                )
            } else {
                &&& task_after(agenda, count) == rest
                &&& rests(after_tasks(agenda, count + 1).actor, answered)
            }
        }),
{
    reveal(done);
    let first = after_tasks(agenda, count);
    let second = done(first).0;
    let third = done(second).0;
    assert(after_tasks(agenda, count + 1) == second);
    assert(after_tasks(agenda, count + 2) == third);
    assert(after_tasks(agenda, count + 3) == done(third).0);
}

/// All messages go out, and the lagging peers are next.
#[verifier::spinoff_prover]
proof fn all_messages_go_out<R>(
    agenda: AgendaView<R>,
    start: nat,
    actor: ActorView<R>,
    remaining: RemainingView,
    reset_election_timer: bool,
)
    requires
        next_step(agenda, start) == sending(actor, remaining, reset_election_timer).sent(remaining),
    ensures
        forall|k: nat|
            k < remaining.messages.len() ==> #[trigger] task_after(agenda, start + k)
                == TaskView::<R>::Send(
                remaining.messages[k as int].0,
                remaining.messages[k as int].1,
            ),
        next_step(agenda, start + remaining.messages.len()) == sending(
            actor,
            without(remaining, remaining.messages.len()),
            reset_election_timer,
        ).shared(remaining.peers, remaining.entries),
{
    let m = remaining.messages.len();
    assert forall|k: nat| k < m implies #[trigger] task_after(agenda, start + k)
        == TaskView::<R>::Send(remaining.messages[k as int].0, remaining.messages[k as int].1) by {
        sends_one_by_one(agenda, start, actor, remaining, reset_election_timer, k);
        message_goes_out(actor, without(remaining, k), reset_election_timer);
        assert(task_after(agenda, start + k) == next_step(agenda, start + k).1);
    }
    sends_one_by_one(agenda, start, actor, remaining, reset_election_timer, m);
    assert(without(remaining, m).messages.len() == 0);
}

/// All lagging peers get a snapshot, and the clients are next.
#[verifier::spinoff_prover]
proof fn all_snapshots_go_out<R>(
    agenda: AgendaView<R>,
    start: nat,
    any: AgendaView<R>,
    peers: Seq<NodeId>,
    entries: Seq<LogEntry>,
)
    requires
        next_step(agenda, start) == any.shared(peers, entries),
    ensures
        forall|k: nat|
            k < peers.len() ==> #[trigger] task_after(agenda, start + k)
                == TaskView::<R>::SendSnapshot(peers[k as int]),
        ({
            let (after, task) = next_step(agenda, start + peers.len());
            let (answered, replies) = any.actor.answered(entries);
            &&& after.actor == answered
            &&& after.stage == StageView::Compacting
            &&& after.reset_election_timer == any.reset_election_timer
            &&& task == TaskView::Answer(replies)
        }),
{
    let s = peers.len();
    assert(peers.skip(0) =~= peers);
    assert forall|k: nat| k < s implies #[trigger] task_after(agenda, start + k)
        == TaskView::<R>::SendSnapshot(peers[k as int]) by {
        let left = peers.skip(k as int);
        shares_one_by_one(agenda, start, any.actor, any, peers, entries, k);
        let from = if k == 0 {
            any
        } else {
            sharing(any.actor, left, entries, any.reset_election_timer)
        };
        snapshot_goes_out(any.actor, from, left, entries, any.reset_election_timer);
        assert(task_after(agenda, start + k) == next_step(agenda, start + k).1);
    }
    shares_one_by_one(agenda, start, any.actor, any, peers, entries, s);
    assert(peers.skip(s as int).len() == 0);
}

#[verifier::spinoff_prover]
proof fn sending_goes_on<R>(
    agenda: AgendaView<R>,
    start: nat,
    actor: ActorView<R>,
    remaining: RemainingView,
    reset_election_timer: bool,
)
    requires
        next_step(agenda, start) == sending(actor, remaining, reset_election_timer).sent(remaining),
    ensures
        goes_on(
            agenda,
            start,
            remaining.messages,
            remaining.peers,
            actor.answered(remaining.entries).0,
            actor.answered(remaining.entries).1,
            reset_election_timer,
        ),
{
    let m = remaining.messages.len();
    let s = remaining.peers.len();
    let middle = (start + m) as nat;
    let answer = (start + m + s) as nat;
    all_messages_go_out(agenda, start, actor, remaining, reset_election_timer);
    let sent = sending(actor, without(remaining, m), reset_election_timer);
    all_snapshots_go_out(agenda, middle, sent, remaining.peers, remaining.entries);
    let (answered, replies) = actor.answered(remaining.entries);
    assert(after_tasks(agenda, answer + 1) == next_step(agenda, answer).0);
    compaction_follows(agenda, answer + 1, answered);
    assert(task_after(agenda, answer) == next_step(agenda, answer).1);
    assert forall|k: nat| k < s implies #[trigger] task_after(agenda, start + m + k)
        == TaskView::<R>::SendSnapshot(remaining.peers[k as int]) by {
        assert(task_after(agenda, middle + k) == task_after(agenda, start + m + k));
    }
}

// ── Whole agendas ──────────────────────────────────────────────────────────

/// All that an event asks for is done, in this order: what has changed in the durable
/// state, or could not be written before, is written; all messages go out; lagging
/// peers get a snapshot; the newly committed entries are applied and clients answered;
/// and a long log is compacted. Then the node rests, and its election timer is reset
/// if the event asks for it.
pub proof fn all_is_done_in_order<R>(
    before: RaftNode,
    actor: NodeActor<R>,
    actions: Actions,
    agenda: Agenda<R>,
    ready: NodeActor<R>,
    answered: (NodeActor<R>, Vec<Reply<R>>),
)
    requires
        actions.install_snapshot is None,
        call_ensures(Agenda::<R>::new, (before, actor, actions), agenda),
        ready@ == released(actor@, actions@.messages.len()),
        call_ensures(
            NodeActor::<R>::apply_committed,
            (ready, &actions.entries_to_apply),
            answered,
        ),
    ensures
        ({
            let writes = actions.persist is Some || actor.unsaved;
            &&& writes ==> task_after(agenda@, 0) == TaskView::<R>::Persist(
                match actions.persist {
                    Some(state) => state@,
                    None => actor.raft.persistent@,
                },
            )
            &&& goes_on(
                agenda@,
                if writes {
                    1
                } else {
                    0
                },
                actions@.messages,
                actions@.send_snapshot_to,
                answered.0@,
                crate::actor::contents_of(answered.1@),
                actions.reset_election_timer,
            )
        }),
{
    let remaining = crate::agenda::remaining_of(actions@);
    let writes = actions.persist is Some || actor.unsaved;
    reveal_with_fuel(after_tasks, 2);
    reveal(done);
    assert(actor@.saved().messages_counted(actions@.messages.len() as int) =~= ready@);
    sending_goes_on(
        agenda@,
        if writes {
            1
        } else {
            0
        },
        ready@,
        remaining,
        actions.reset_election_timer,
    );
}

/// A snapshot from the leader is written after the term of its message, where that is
/// new to the node, or where the state was not on disk; the log that rests on it is
/// written next. The store is then the snapshot's, and all else goes on as ever.
pub proof fn snapshots_are_installed_in_order<R>(
    before: RaftNode,
    actor: NodeActor<R>,
    actions: Actions,
    agenda: Agenda<R>,
    kv: Map<Seq<char>, Seq<char>>,
    ready: NodeActor<R>,
    answered: (NodeActor<R>, Vec<Reply<R>>),
)
    requires
        actions.install_snapshot is Some,
        actions.persist is Some,
        call_ensures(Agenda::<R>::new, (before, actor, actions), agenda),
        ready@ == (ActorView {
            kv,
            raft: NodeView {
                volatile: VolatileState {
                    commit_index: actor@.raft.volatile.commit_index,
                    last_applied: actions.install_snapshot->0.last_included_index,
                },
                ..actor@.raft
            },
            ..released(actor@, actions@.messages.len())
        }),
        call_ensures(
            NodeActor::<R>::apply_committed,
            (ready, &actions.entries_to_apply),
            answered,
        ),
    ensures
        ({
            let req = actions@.install_snapshot->0;
            let first = req.term > before@.persistent.current_term || actor.unsaved;
            let at = if first {
                1nat
            } else {
                0nat
            };
            let installed = after_tasks(agenda@, at + 1).advanced(OutcomeView::Decoded(kv, true));
            &&& first ==> task_after(agenda@, 0) == TaskView::<R>::Persist(
                if req.term > before@.persistent.current_term {
                    PersistentView {
                        current_term: req.term,
                        voted_for: None,
                        log: before@.persistent.log,
                    }
                } else {
                    before@.persistent
                },
            )
            &&& task_after(agenda@, at) == TaskView::<R>::Install(req)
            &&& installed.1 == TaskView::<R>::Persist(actions.persist->0@)
            &&& goes_on(
                installed.0,
                0,
                actions@.messages,
                actions@.send_snapshot_to,
                answered.0@,
                crate::actor::contents_of(answered.1@),
                actions.reset_election_timer,
            )
        }),
{
    let req = actions@.install_snapshot->0;
    let remaining = crate::agenda::remaining_of(actions@);
    let first = req.term > before@.persistent.current_term || actor.unsaved;
    let at = if first {
        1nat
    } else {
        0nat
    };
    reveal_with_fuel(after_tasks, 3);
    reveal(done);
    let installed = after_tasks(agenda@, at + 1).advanced(OutcomeView::Decoded(kv, true));
    assert(installed.0.with_installed(Some((kv, req.last_included_index))).saved().messages_counted(
        actions@.messages.len() as int,
    ) =~= ready@);
    sending_goes_on(installed.0, 0, ready@, remaining, actions.reset_election_timer);
}

/// A snapshot that cannot be decoded or written is not installed. Nothing is sent or
/// answered, and the node goes on without it.
pub proof fn unwritten_snapshots_are_refused<R>(
    before: RaftNode,
    actor: NodeActor<R>,
    actions: Actions,
    agenda: Agenda<R>,
    outcome: OutcomeView,
)
    requires
        actions.install_snapshot is Some,
        call_ensures(Agenda::<R>::new, (before, actor, actions), agenda),
        outcome matches OutcomeView::Decoded(_, written) ==> !written,
    ensures
        ({
            let req = actions@.install_snapshot->0;
            let first = req.term > before@.persistent.current_term || actor.unsaved;
            let at = if first {
                2nat
            } else {
                1nat
            };
            let refused = after_tasks(agenda@, at).advanced(outcome);
            &&& refused.1 == TaskView::<R>::Rest(false)
            &&& refused.0.actor.kv == actor@.kv
            &&& refused.0.actor.raft.persistent.log == before@.persistent.log
            &&& refused.0.actor.raft.volatile == before@.volatile
            &&& refused.0.actor.raft.persistent.current_term == if req.term
                > before@.persistent.current_term {
                req.term
            } else {
                before@.persistent.current_term
            }
        }),
{
    reveal_with_fuel(after_tasks, 3);
    reveal(done);
}

/// Once the state is on disk, nothing depends on how a message, a snapshot for a peer or
/// an answer went: the agenda goes on. Nor does it matter what the first task is told.
pub proof fn lost_messages_hold_nothing_up<R>(
    agenda: Agenda<R>,
    one: Outcome,
    other: Outcome,
    a: (Agenda<R>, Task<R>),
    b: (Agenda<R>, Task<R>),
)
    requires
        agenda@.stage is Opening || agenda@.stage is Sending || agenda@.stage is Sharing
            || agenda@.stage is Compacting || agenda@.stage is Closing,
        call_ensures(Agenda::<R>::step, (agenda, one), a),
        call_ensures(Agenda::<R>::step, (agenda, other), b),
    ensures
        a.0@ == b.0@,
        a.1@ == b.1@,
{
}

/// What is said of a task and of an outcome is what they hold.
pub proof fn tasks_are_what_they_hold<R>(task: Task<R>, outcome: Outcome, agenda: Agenda<R>)
    ensures
        agenda@.actor == agenda.actor@,
        agenda@.reset_election_timer == agenda.reset_election_timer,
        match task {
            Task::Persist(state) => task@ == TaskView::<R>::Persist(state@),
            Task::Send(outgoing) => task@ == TaskView::<R>::Send(outgoing.to, outgoing.message@),
            Task::Install(req) => task@ == TaskView::<R>::Install(req@),
            Task::SendSnapshot(peer) => task@ == TaskView::<R>::SendSnapshot(peer),
            Task::Answer(replies) => task@ == TaskView::<R>::Answer(
                crate::actor::contents_of(replies@),
            ),
            Task::Save(file) => task@ == TaskView::<R>::Save(
                file.last_included_index,
                file.last_included_term,
                crate::kv::map_of(crate::kv::texts(file.kv_data@)),
            ),
            Task::Rest { reset_election_timer } => task@ == TaskView::<R>::Rest(
                reset_election_timer,
            ),
        },
        match outcome {
            Outcome::Done => outcome@ == OutcomeView::Done,
            Outcome::Failed => outcome@ == OutcomeView::Failed,
            Outcome::Decoded { kv_data, saved } => outcome@ == OutcomeView::Decoded(
                crate::kv::map_of(crate::kv::texts(kv_data@)),
                saved,
            ),
        },
{
}

/// A snapshot of the store that cannot be saved leaves the log as it is, and the node
/// rests.
pub proof fn unsaved_snapshots_leave_the_log<R>(agenda: AgendaView<R>, outcome: OutcomeView)
    requires
        agenda.stage is Saving,
        !(outcome is Done),
    ensures
        agenda.advanced(outcome).1 == TaskView::<R>::Rest(agenda.reset_election_timer),
        rests(agenda.advanced(outcome).0.actor, agenda.actor),
{
}

/// Where the durable state cannot be written, the node goes on with it: a snapshot that
/// was installed is its store, committed entries are applied, and the answers are held
/// back. Nothing goes out.
pub proof fn unwritten_states_are_kept<R>(
    agenda: AgendaView<R>,
    actor: NodeActor<R>,
    entries: &Vec<LogEntry>,
    outcome: OutcomeView,
    held: NodeActor<R>,
)
    requires
        agenda.stage is Persisting,
        !(outcome is Done),
        entries@ == agenda.stage->Persisting_1.entries,
        actor@ == match agenda.stage->Persisting_0 {
            Some(installed) => ActorView {
                kv: installed.0,
                raft: NodeView {
                    volatile: VolatileState {
                        commit_index: agenda.actor.raft.volatile.commit_index,
                        last_applied: installed.1,
                    },
                    ..agenda.actor.raft
                },
                ..agenda.actor
            },
            None => agenda.actor,
        },
        call_ensures(NodeActor::<R>::hold_back, (actor, entries), held),
    ensures
        agenda.advanced(outcome).1 == TaskView::<R>::Rest(agenda.reset_election_timer),
        rests(agenda.advanced(outcome).0.actor, held@),
        held@.unsaved,
{
}

} // verus!
