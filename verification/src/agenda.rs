//! What is to be done for the actions of a node, one thing after the other.
//!
//! Some of it is done outside, and what comes next depends on how it went. The
//! agenda hands out one task at a time and takes the outcome back. Where the durable
//! state cannot be written, the node goes on with it in memory: nothing is sent, and
//! answers are held back, until all of it has been written. A snapshot from the
//! leader that cannot be written is not installed.

use vstd::prelude::*;

use crate::actor::{ActorView, NodeActor, Reply};
use crate::log::LogView;
use crate::message::{
    InstallSnapshotRequest, InstallSnapshotView, LogEntry, MessageView, NodeId, RaftMessage,
    ResponseView,
};
use crate::node::RaftNode;
use crate::state::{Actions, ActionsView, PersistentState, PersistentView};
use crate::storage::SnapshotFile;
use crate::transitions::{Event, NodeView};
use crate::transport::Outgoing;

verus! {

/// Something to be done outside.
#[derive(Debug)]
pub enum Task<R> {
    /// Write the durable state to disk.
    Persist(PersistentState),
    /// Send a message to a peer.
    Send(Outgoing),
    /// Decode a snapshot from the leader and write it to disk.
    Install(InstallSnapshotRequest),
    /// Send the snapshot on disk to a peer.
    SendSnapshot(NodeId),
    /// Answer clients.
    Answer(Vec<Reply<R>>),
    /// Write a snapshot to disk.
    Save(SnapshotFile),
    /// Wait for the next event.
    Rest {
        reset_election_timer: bool,
    },
}

/// How a task went.
#[derive(Debug)]
pub enum Outcome {
    /// It is done.
    Done,
    /// It failed.
    Failed,
    /// A snapshot from the leader was decoded, and it is on disk or could not be
    /// written.
    Decoded {
        kv_data: Vec<(String, String)>,
        saved: bool,
    },
}

/// What is left of the actions of a node once its durable state is on disk.
#[derive(Debug)]
pub struct Remaining {
    /// Messages to be sent.
    pub messages: Vec<(NodeId, RaftMessage)>,
    /// Peers that are to get a snapshot.
    pub peers: Vec<NodeId>,
    /// Newly committed entries.
    pub entries: Vec<LogEntry>,
}

/// A snapshot from the leader that is on disk: its pairs and its last index.
pub type Installed = (Vec<(String, String)>, u64);

/// How far the agenda is.
#[derive(Debug)]
pub enum Stage {
    /// Nothing is done yet. `before` is the node before the event.
    Opening {
        before: RaftNode,
        actions: Actions,
    },
    /// A snapshot from the leader is to be installed, and the term of the message is
    /// being written first. `stepped` is the node after it has seen that term.
    Stepping {
        before: RaftNode,
        stepped: RaftNode,
        req: InstallSnapshotRequest,
        persist: Option<PersistentState>,
        remaining: Remaining,
    },
    /// A snapshot from the leader is being written. `stepped` is the node without it,
    /// and `base` is the index and term of the last entry that it covers.
    Installing {
        stepped: RaftNode,
        base: (u64, u64),
        persist: Option<PersistentState>,
        remaining: Remaining,
    },
    /// The durable state is being written.
    Persisting {
        installed: Option<Installed>,
        remaining: Remaining,
    },
    /// Messages go out.
    Sending {
        remaining: Remaining,
    },
    /// Snapshots go to lagging peers; after that committed entries are applied.
    Sharing {
        peers: Vec<NodeId>,
        entries: Vec<LogEntry>,
    },
    /// The log may be due for compaction.
    Compacting,
    /// A snapshot is being written.
    Saving {
        index: u64,
    },
    /// Nothing is left.
    Closing,
}

/// A node actor with what is still to be done for it.
#[derive(Debug)]
pub struct Agenda<R> {
    pub actor: NodeActor<R>,
    pub stage: Stage,
    pub reset_election_timer: bool,
}

// ── Contents ───────────────────────────────────────────────────────────────

/// The contents of a `Task`. The pairs of a snapshot stand in ascending order, so
/// that the map gives them back.
pub enum TaskView<R> {
    Persist(PersistentView),
    Send(NodeId, MessageView),
    Install(InstallSnapshotView),
    SendSnapshot(NodeId),
    Answer(Seq<(R, ResponseView)>),
    Save(u64, u64, Map<Seq<char>, Seq<char>>),
    Rest(bool),
}

/// The contents of an `Outcome`, with the pairs of a snapshot as the store that
/// they make.
pub enum OutcomeView {
    Done,
    Failed,
    Decoded(Map<Seq<char>, Seq<char>>, bool),
}

impl OutcomeView {
    /// Whether a snapshot from the leader was decoded and is on disk.
    pub open spec fn is_on_disk(self) -> bool {
        match self {
            OutcomeView::Decoded(_, saved) => saved,
            _ => false,
        }
    }
}

/// The contents of a `Remaining`.
pub struct RemainingView {
    pub messages: Seq<(NodeId, MessageView)>,
    pub peers: Seq<NodeId>,
    pub entries: Seq<LogEntry>,
}

/// The store and the last index of a snapshot that is on disk.
pub type InstalledView = (Map<Seq<char>, Seq<char>>, u64);

pub enum StageView {
    Opening(NodeView, ActionsView),
    Stepping(NodeView, NodeView, InstallSnapshotView, Option<PersistentView>, RemainingView),
    Installing(NodeView, (u64, u64), Option<PersistentView>, RemainingView),
    Persisting(Option<InstalledView>, RemainingView),
    Sending(RemainingView),
    Sharing(Seq<NodeId>, Seq<LogEntry>),
    Compacting,
    Saving(u64),
    Closing,
}

#[verifier::reject_recursive_types(R)]
pub struct AgendaView<R> {
    pub actor: ActorView<R>,
    pub stage: StageView,
    pub reset_election_timer: bool,
}

impl<R> View for Task<R> {
    type V = TaskView<R>;

    open spec fn view(&self) -> TaskView<R> {
        match *self {
            Task::Persist(state) => TaskView::Persist(state@),
            Task::Send(outgoing) => TaskView::Send(outgoing.to, outgoing.message@),
            Task::Install(req) => TaskView::Install(req@),
            Task::SendSnapshot(peer) => TaskView::SendSnapshot(peer),
            Task::Answer(replies) => TaskView::Answer(crate::actor::contents_of(replies@)),
            Task::Save(file) => TaskView::Save(
                file.last_included_index,
                file.last_included_term,
                crate::kv::map_of(crate::kv::texts(file.kv_data@)),
            ),
            Task::Rest { reset_election_timer } => TaskView::Rest(reset_election_timer),
        }
    }
}

impl View for Outcome {
    type V = OutcomeView;

    open spec fn view(&self) -> OutcomeView {
        match *self {
            Outcome::Done => OutcomeView::Done,
            Outcome::Failed => OutcomeView::Failed,
            Outcome::Decoded { kv_data, saved } => OutcomeView::Decoded(
                crate::kv::map_of(crate::kv::texts(kv_data@)),
                saved,
            ),
        }
    }
}

impl View for Remaining {
    type V = RemainingView;

    open spec fn view(&self) -> RemainingView {
        RemainingView {
            messages: crate::state::addressed(self.messages@),
            peers: self.peers@,
            entries: self.entries@,
        }
    }
}

/// The contents of an `Option<PersistentState>`.
pub open spec fn durable_view(persist: Option<PersistentState>) -> Option<PersistentView> {
    match persist {
        Some(state) => Some(state@),
        None => None,
    }
}

/// The contents of an `Option<Installed>`.
pub open spec fn installed_view(installed: Option<Installed>) -> Option<InstalledView> {
    match installed {
        Some(snapshot) => Some(
            (crate::kv::map_of(crate::kv::texts(snapshot.0@)), snapshot.1),
        ),
        None => None,
    }
}

impl View for Stage {
    type V = StageView;

    open spec fn view(&self) -> StageView {
        match *self {
            Stage::Opening { before, actions } => StageView::Opening(before@, actions@),
            Stage::Stepping { before, stepped, req, persist, remaining } => StageView::Stepping(
                before@,
                stepped@,
                req@,
                durable_view(persist),
                remaining@,
            ),
            Stage::Installing { stepped, base, persist, remaining } => StageView::Installing(
                stepped@,
                base,
                durable_view(persist),
                remaining@,
            ),
            Stage::Persisting { installed, remaining } => StageView::Persisting(
                installed_view(installed),
                remaining@,
            ),
            Stage::Sending { remaining } => StageView::Sending(remaining@),
            Stage::Sharing { peers, entries } => StageView::Sharing(peers@, entries@),
            Stage::Compacting => StageView::Compacting,
            Stage::Saving { index } => StageView::Saving(index),
            Stage::Closing => StageView::Closing,
        }
    }
}

impl<R> View for Agenda<R> {
    type V = AgendaView<R>;

    open spec fn view(&self) -> AgendaView<R> {
        AgendaView {
            actor: self.actor@,
            stage: self.stage@,
            reset_election_timer: self.reset_election_timer,
        }
    }
}

/// What is left of the actions once the durable state is on disk.
pub open spec fn remaining_of(actions: ActionsView) -> RemainingView {
    RemainingView {
        messages: actions.messages,
        peers: actions.send_snapshot_to,
        entries: actions.entries_to_apply,
    }
}

impl StageView {
    /// Whether the durable state of the node is not known to be on disk yet.
    pub open spec fn is_early(self) -> bool {
        ||| self is Opening
        ||| self is Stepping
        ||| self is Installing
        ||| self is Persisting
    }
}

impl<R> AgendaView<R> {
    /// The agenda for the actions of a node after an event.
    pub open spec fn opened(
        before: NodeView,
        actor: ActorView<R>,
        actions: ActionsView,
    ) -> AgendaView<R> {
        AgendaView {
            actor,
            stage: StageView::Opening(before, actions),
            reset_election_timer: actions.reset_election_timer,
        }
    }

    pub open spec fn at(self, actor: ActorView<R>, stage: StageView) -> AgendaView<R> {
        AgendaView { actor, stage, ..self }
    }

    /// Whether the durable state that the node has after the event has been handed out
    /// to be written, and what became of it is not known.
    pub open spec fn awaits_save(self) -> bool {
        self.stage is Persisting
    }

    /// The last task: the metrics are brought up to date, and the node rests.
    pub open spec fn closed(self) -> (AgendaView<R>, TaskView<R>) {
        (
            self.at(
                ActorView { metrics: self.actor.measured(), ..self.actor },
                StageView::Closing,
            ),
            TaskView::Rest(self.reset_election_timer),
        )
    }

    /// The snapshot is not installed: the node is what it is without it, and nothing
    /// follows from the event.
    pub open spec fn refused(self, node: NodeView) -> (AgendaView<R>, TaskView<R>) {
        (AgendaView {
            actor: self.actor.with_raft(node),
            stage: StageView::Closing,
            reset_election_timer: false,
        }).closed()
    }

    /// The durable state that is to be written: what the event has changed, or what
    /// could not be written before.
    pub open spec fn to_save(self, persist: Option<PersistentView>) -> Option<PersistentView> {
        match persist {
            Some(state) => Some(state),
            None => if self.actor.unsaved {
                Some(self.actor.raft.persistent)
            } else {
                None
            },
        }
    }

    /// The snapshot is next to be written. The term of the message goes before it,
    /// where the node had a lower one, and so does what could not be written before.
    pub open spec fn installing(
        self,
        before: NodeView,
        req: InstallSnapshotView,
        persist: Option<PersistentView>,
        remaining: RemainingView,
    ) -> (AgendaView<R>, TaskView<R>) {
        let stepped = before.observe_term(req.term).0;
        if req.term > before.term() || self.actor.unsaved {
            (
                self.at(
                    self.actor,
                    StageView::Stepping(before, stepped, req, persist, remaining),
                ),
                TaskView::Persist(stepped.persistent),
            )
        } else {
            self.stepped_to(stepped, req, persist, remaining)
        }
    }

    /// What the node is without the snapshot is on disk, and the snapshot is next.
    pub open spec fn stepped_to(
        self,
        stepped: NodeView,
        req: InstallSnapshotView,
        persist: Option<PersistentView>,
        remaining: RemainingView,
    ) -> (AgendaView<R>, TaskView<R>) {
        let base = (req.last_included_index, req.last_included_term);
        (
            self.at(
                self.actor.saved(),
                StageView::Installing(stepped, base, persist, remaining),
            ),
            TaskView::Install(req),
        )
    }

    /// The durable state is next to be written, if that is needed.
    pub open spec fn saving(
        self,
        persist: Option<PersistentView>,
        installed: Option<InstalledView>,
        remaining: RemainingView,
    ) -> (AgendaView<R>, TaskView<R>) {
        match self.to_save(persist) {
            Some(state) => (
                self.at(self.actor, StageView::Persisting(installed, remaining)),
                TaskView::Persist(state),
            ),
            None => self.released(installed, remaining),
        }
    }

    /// The actor with the store of a snapshot that was installed.
    pub open spec fn with_installed(self, installed: Option<InstalledView>) -> ActorView<R> {
        match installed {
            Some(snapshot) => self.actor.replaced(snapshot.0, snapshot.1),
            None => self.actor,
        }
    }

    /// The durable state is on disk. A snapshot that was installed replaces the state
    /// machine, and messages go out.
    pub open spec fn released(self, installed: Option<InstalledView>, remaining: RemainingView) -> (
        AgendaView<R>,
        TaskView<R>,
    ) {
        let actor = self.with_installed(installed).saved().messages_counted(
            remaining.messages.len() as int,
        );
        self.at(actor, StageView::Sending(remaining)).sent(remaining)
    }

    /// The durable state could not be written. The node goes on with it in memory,
    /// where committed entries are applied; nothing is sent, and answers wait.
    pub open spec fn kept(self, installed: Option<InstalledView>, remaining: RemainingView) -> (
        AgendaView<R>,
        TaskView<R>,
    ) {
        let actor = self.with_installed(installed).held_back(remaining.entries);
        self.at(actor, StageView::Closing).closed()
    }

    /// The next message goes out. When all are out, lagging peers are next.
    pub open spec fn sent(self, remaining: RemainingView) -> (AgendaView<R>, TaskView<R>) {
        if remaining.messages.len() > 0 {
            let (to, message) = remaining.messages[0];
            (
                self.at(
                    self.actor,
                    StageView::Sending(
                        RemainingView { messages: remaining.messages.skip(1), ..remaining },
                    ),
                ),
                TaskView::Send(to, message),
            )
        } else {
            self.shared(remaining.peers, remaining.entries)
        }
    }

    /// The next lagging peer gets a snapshot. When all have got theirs, the
    /// committed entries are applied and clients answered.
    pub open spec fn shared(self, peers: Seq<NodeId>, entries: Seq<LogEntry>) -> (
        AgendaView<R>,
        TaskView<R>,
    ) {
        if peers.len() > 0 {
            (
                self.at(self.actor, StageView::Sharing(peers.skip(1), entries)),
                TaskView::SendSnapshot(peers[0]),
            )
        } else {
            let (actor, replies) = self.actor.answered(entries);
            (self.at(actor, StageView::Compacting), TaskView::Answer(replies))
        }
    }

    /// The agenda after the outcome of the last task, and the next task.
    pub open spec fn advanced(self, outcome: OutcomeView) -> (AgendaView<R>, TaskView<R>) {
        match self.stage {
            StageView::Opening(before, actions) => match actions.install_snapshot {
                Some(req) => self.installing(before, req, actions.persist, remaining_of(actions)),
                None => self.saving(actions.persist, None, remaining_of(actions)),
            },
            StageView::Stepping(before, stepped, req, persist, remaining) => match outcome {
                OutcomeView::Done => self.stepped_to(stepped, req, persist, remaining),
                _ => self.refused(before),
            },
            StageView::Installing(stepped, base, persist, remaining) => match outcome {
                OutcomeView::Decoded(kv, true) => self.saving(
                    persist,
                    Some((kv, base.0)),
                    remaining,
                ),
                _ => self.refused(stepped),
            },
            StageView::Persisting(installed, remaining) => match outcome {
                OutcomeView::Done => self.released(installed, remaining),
                _ => self.kept(installed, remaining),
            },
            StageView::Sending(remaining) => self.sent(remaining),
            StageView::Sharing(peers, entries) => self.shared(peers, entries),
            StageView::Compacting => if self.actor.snapshot_due() {
                let index = self.actor.raft.volatile.last_applied;
                (
                    self.at(self.actor, StageView::Saving(index)),
                    TaskView::Save(
                        index,
                        self.actor.raft.log().term_at(index as int),
                        self.actor.kv,
                    ),
                )
            } else {
                self.closed()
            },
            StageView::Saving(index) => match outcome {
                OutcomeView::Done => {
                    let raft = self.actor.raft.compact_log(index);
                    (
                        self.at(self.actor.with_raft(raft), StageView::Closing),
                        TaskView::Persist(raft.persistent),
                    )
                },
                _ => self.closed(),
            },
            StageView::Closing => self.closed(),
        }
    }

    /// How many tasks are left at most.
    pub open spec fn left(self) -> nat {
        match self.stage {
            StageView::Opening(_, actions) => actions.messages.len()
                + actions.send_snapshot_to.len() + 9,
            StageView::Stepping(_, _, _, _, remaining) => remaining.messages.len()
                + remaining.peers.len() + 8,
            StageView::Installing(_, _, _, remaining) => remaining.messages.len()
                + remaining.peers.len() + 7,
            StageView::Persisting(_, remaining) => remaining.messages.len()
                + remaining.peers.len() + 6,
            StageView::Sending(remaining) => remaining.messages.len() + remaining.peers.len() + 5,
            StageView::Sharing(peers, _) => peers.len() + 4,
            StageView::Compacting => 3,
            StageView::Saving(_) => 2,
            StageView::Closing => 1,
        }
    }
}

// ── The agenda ─────────────────────────────────────────────────────────────

impl Stage {
    /// The nodes to which the actor may go back are well formed.
    pub open spec fn wf(self) -> bool {
        match self {
            Stage::Opening { before, .. } => before.wf(),
            Stage::Stepping { before, stepped, .. } => before.wf() && stepped.wf(),
            Stage::Installing { stepped, .. } => stepped.wf(),
            _ => true,
        }
    }
}

impl<R> Agenda<R> {
    /// The actor is well formed, and so are the nodes to which it may go back.
    pub open spec fn wf(self) -> bool {
        self.actor.raft.wf() && self.stage.wf()
    }

    /// The agenda for the actions of a node after an event. `before` is the node as
    /// it was before the event.
    pub fn new(before: RaftNode, actor: NodeActor<R>, actions: Actions) -> (agenda: Self)
        requires
            before.wf(),
            actor.raft.wf(),
        ensures
            agenda.wf(),
            agenda@ == AgendaView::opened(before@, actor@, actions@),
    {
        let reset_election_timer = actions.reset_election_timer;
        Agenda { actor, stage: Stage::Opening { before, actions }, reset_election_timer }
    }

    /// Takes the outcome of the last task and hands out the next one. The outcome
    /// that goes with the first task is of no account.
    pub fn step(self, outcome: Outcome) -> (result: (Self, Task<R>))
        requires
            self.wf(),
        ensures
            result.0.wf(),
            (result.0@, result.1@) == self@.advanced(outcome@),
            result.1 matches Task::Save(file) ==> crate::kv::ascending(
                crate::kv::texts(file.kv_data@),
            ),
    {
        let Agenda { actor, stage, reset_election_timer } = self;
        match stage {
            Stage::Opening { before, actions } => {
                let ghost planned = actions@;
                let remaining = Remaining {
                    messages: actions.messages,
                    peers: actions.send_snapshot_to,
                    entries: actions.entries_to_apply,
                };
                let persist = actions.persist;
                assert(durable_view(persist) == planned.persist);
                assert(remaining@ == remaining_of(planned));
                assert(installed_view(None) == None::<InstalledView>);
                match actions.install_snapshot {
                    Some(req) => Self::install(
                        actor,
                        before,
                        req,
                        persist,
                        remaining,
                        reset_election_timer,
                    ),
                    None => Self::save(actor, persist, None, remaining, reset_election_timer),
                }
            },
            Stage::Stepping { before, stepped, req, persist, remaining } => match outcome {
                Outcome::Done => Self::install_on(
                    actor,
                    stepped,
                    req,
                    persist,
                    remaining,
                    reset_election_timer,
                ),
                _ => Self::refuse(actor, before),
            },
            Stage::Installing { stepped, base, persist, remaining } => match outcome {
                Outcome::Decoded { kv_data, saved: true } => Self::save(
                    actor,
                    persist,
                    Some((kv_data, base.0)),
                    remaining,
                    reset_election_timer,
                ),
                _ => Self::refuse(actor, stepped),
            },
            Stage::Persisting { installed, remaining } => match outcome {
                Outcome::Done => Self::release(actor, installed, remaining, reset_election_timer),
                _ => Self::keep(actor, installed, remaining, reset_election_timer),
            },
            Stage::Sending { remaining } => Self::send(actor, remaining, reset_election_timer),
            Stage::Sharing { peers, entries } => Self::share(
                actor,
                peers,
                entries,
                reset_election_timer,
            ),
            Stage::Compacting => match actor.snapshot_due() {
                Some(file) => {
                    let index = file.last_included_index;
                    (
                        Agenda { actor, stage: Stage::Saving { index }, reset_election_timer },
                        Task::Save(file),
                    )
                },
                None => Self::close(actor, reset_election_timer),
            },
            Stage::Saving { index } => match outcome {
                Outcome::Done => {
                    let actor = actor.snapshot_taken(index);
                    let state = actor.raft.persistent.clone();
                    (
                        Agenda { actor, stage: Stage::Closing, reset_election_timer },
                        Task::Persist(state),
                    )
                },
                _ => Self::close(actor, reset_election_timer),
            },
            Stage::Closing => Self::close(actor, reset_election_timer),
        }
    }

    fn install(
        actor: NodeActor<R>,
        before: RaftNode,
        req: InstallSnapshotRequest,
        persist: Option<PersistentState>,
        remaining: Remaining,
        reset_election_timer: bool,
    ) -> (result: (Self, Task<R>))
        requires
            actor.raft.wf(),
            before.wf(),
        ensures
            result.0.wf(),
            !(result.1 is Save),
            forall|stage: StageView| #[trigger]
                (AgendaView { actor: actor@, stage, reset_election_timer }).installing(
                    before@,
                    req@,
                    durable_view(persist),
                    remaining@,
                ) == (result.0@, result.1@),
    {
        if req.term > before.persistent.current_term || actor.unsaved {
            let (stepped, _) = before.clone().observe_term(req.term);
            let state = stepped.persistent.clone();
            let stage = Stage::Stepping { before, stepped, req, persist, remaining };
            (Agenda { actor, stage, reset_election_timer }, Task::Persist(state))
        } else {
            Self::install_on(actor, before, req, persist, remaining, reset_election_timer)
        }
    }

    fn install_on(
        actor: NodeActor<R>,
        stepped: RaftNode,
        req: InstallSnapshotRequest,
        persist: Option<PersistentState>,
        remaining: Remaining,
        reset_election_timer: bool,
    ) -> (result: (Self, Task<R>))
        requires
            actor.raft.wf(),
            stepped.wf(),
        ensures
            result.0.wf(),
            !(result.1 is Save),
            forall|stage: StageView| #[trigger]
                (AgendaView { actor: actor@, stage, reset_election_timer }).stepped_to(
                    stepped@,
                    req@,
                    durable_view(persist),
                    remaining@,
                ) == (result.0@, result.1@),
    {
        let mut actor = actor;
        actor.unsaved = false;
        let base = (req.last_included_index, req.last_included_term);
        let stage = Stage::Installing { stepped, base, persist, remaining };
        (Agenda { actor, stage, reset_election_timer }, Task::Install(req))
    }

    fn save(
        actor: NodeActor<R>,
        persist: Option<PersistentState>,
        installed: Option<Installed>,
        remaining: Remaining,
        reset_election_timer: bool,
    ) -> (result: (Self, Task<R>))
        requires
            actor.raft.wf(),
        ensures
            result.0.wf(),
            !(result.1 is Save),
            forall|stage: StageView| #[trigger]
                (AgendaView { actor: actor@, stage, reset_election_timer }).saving(
                    durable_view(persist),
                    installed_view(installed),
                    remaining@,
                ) == (result.0@, result.1@),
    {
        let state = match persist {
            Some(state) => Some(state),
            None => if actor.unsaved {
                Some(actor.raft.persistent.clone())
            } else {
                None
            },
        };
        match state {
            Some(state) => {
                let stage = Stage::Persisting { installed, remaining };
                (Agenda { actor, stage, reset_election_timer }, Task::Persist(state))
            },
            None => Self::release(actor, installed, remaining, reset_election_timer),
        }
    }

    fn take_over(actor: NodeActor<R>, installed: Option<Installed>) -> (result: NodeActor<R>)
        requires
            actor.raft.wf(),
        ensures
            result.raft.wf(),
            forall|stage: StageView, reset_election_timer: bool| #[trigger]
                (AgendaView { actor: actor@, stage, reset_election_timer }).with_installed(
                    installed_view(installed),
                ) == result@,
    {
        match installed {
            Some((kv_data, index)) => actor.install(kv_data, index),
            None => actor,
        }
    }

    fn release(
        actor: NodeActor<R>,
        installed: Option<Installed>,
        remaining: Remaining,
        reset_election_timer: bool,
    ) -> (result: (Self, Task<R>))
        requires
            actor.raft.wf(),
        ensures
            result.0.wf(),
            !(result.1 is Save),
            forall|stage: StageView| #[trigger]
                (AgendaView { actor: actor@, stage, reset_election_timer }).released(
                    installed_view(installed),
                    remaining@,
                ) == (result.0@, result.1@),
    {
        let mut actor = Self::take_over(actor, installed);
        actor.unsaved = false;
        let count = remaining.messages.len() as u64;
        actor.metrics.messages_sent = actor.metrics.messages_sent.wrapping_add(count);
        Self::send(actor, remaining, reset_election_timer)
    }

    fn keep(
        actor: NodeActor<R>,
        installed: Option<Installed>,
        remaining: Remaining,
        reset_election_timer: bool,
    ) -> (result: (Self, Task<R>))
        requires
            actor.raft.wf(),
        ensures
            result.0.wf(),
            !(result.1 is Save),
            forall|stage: StageView| #[trigger]
                (AgendaView { actor: actor@, stage, reset_election_timer }).kept(
                    installed_view(installed),
                    remaining@,
                ) == (result.0@, result.1@),
    {
        let actor = Self::take_over(actor, installed).hold_back(&remaining.entries);
        Self::close(actor, reset_election_timer)
    }

    fn send(actor: NodeActor<R>, remaining: Remaining, reset_election_timer: bool) -> (result: (
        Self,
        Task<R>,
    ))
        requires
            actor.raft.wf(),
        ensures
            result.0.wf(),
            !(result.1 is Save),
            forall|stage: StageView| #[trigger]
                (AgendaView { actor: actor@, stage, reset_election_timer }).sent(remaining@) == (
                    result.0@,
                    result.1@,
                ),
    {
        let mut remaining = remaining;
        if remaining.messages.len() > 0 {
            let ghost all = remaining.messages@;
            let (to, message) = remaining.messages.remove(0);
            assert(crate::state::addressed(all)[0] == (to, message@));
            assert(crate::state::addressed(remaining.messages@) =~= crate::state::addressed(
                all,
            ).skip(1));
            (
                Agenda { actor, stage: Stage::Sending { remaining }, reset_election_timer },
                Task::Send(Outgoing { to, message }),
            )
        } else {
            Self::share(actor, remaining.peers, remaining.entries, reset_election_timer)
        }
    }

    fn share(
        actor: NodeActor<R>,
        peers: Vec<NodeId>,
        entries: Vec<LogEntry>,
        reset_election_timer: bool,
    ) -> (result: (Self, Task<R>))
        requires
            actor.raft.wf(),
        ensures
            result.0.wf(),
            !(result.1 is Save),
            forall|stage: StageView| #[trigger]
                (AgendaView { actor: actor@, stage, reset_election_timer }).shared(peers@, entries@)
                    == (result.0@, result.1@),
    {
        let mut peers = peers;
        if peers.len() > 0 {
            let ghost all = peers@;
            let peer = peers.remove(0);
            assert(peers@ =~= all.skip(1));
            (
                Agenda { actor, stage: Stage::Sharing { peers, entries }, reset_election_timer },
                Task::SendSnapshot(peer),
            )
        } else {
            let (actor, replies) = actor.apply_committed(&entries);
            (
                Agenda { actor, stage: Stage::Compacting, reset_election_timer },
                Task::Answer(replies),
            )
        }
    }

    fn refuse(actor: NodeActor<R>, node: RaftNode) -> (result: (Self, Task<R>))
        requires
            node.wf(),
        ensures
            result.0.wf(),
            !(result.1 is Save),
            forall|stage: StageView, reset_election_timer: bool| #[trigger]
                (AgendaView { actor: actor@, stage, reset_election_timer }).refused(node@) == (
                    result.0@,
                    result.1@,
                ),
    {
        let mut actor = actor;
        actor.raft = node;
        Self::close(actor, false)
    }

    fn close(actor: NodeActor<R>, reset_election_timer: bool) -> (result: (Self, Task<R>))
        requires
            actor.raft.wf(),
        ensures
            result.0.wf(),
            !(result.1 is Save),
            forall|stage: StageView| #[trigger]
                (AgendaView { actor: actor@, stage, reset_election_timer }).closed() == (
                    result.0@,
                    result.1@,
                ),
    {
        let actor = actor.update_metrics();
        (
            Agenda { actor, stage: Stage::Closing, reset_election_timer },
            Task::Rest { reset_election_timer },
        )
    }
}

// ── Laws ───────────────────────────────────────────────────────────────────

/// Every step brings the agenda nearer to its end, and at the end the node rests.
pub proof fn agendas_end<R>(agenda: AgendaView<R>, outcome: OutcomeView)
    ensures
        agenda.advanced(outcome).1 is Rest || agenda.advanced(outcome).0.left() < agenda.left(),
        agenda.stage is Closing ==> agenda.advanced(outcome).1 is Rest,
{
}

/// What an event has changed in the durable state is written before anything goes
/// out: the first task writes it, and so it does if an earlier change could not be
/// written. Where a snapshot is to be installed, the first task writes the node
/// without it or the snapshot that the new state rests on.
pub proof fn changes_are_saved_first<R>(
    actor: ActorView<R>,
    node: NodeView,
    event: Event,
    outcome: OutcomeView,
)
    requires
        node.wf(),
        node.admits(event),
        node.on(event).0.persistent != node.persistent || actor.unsaved,
    ensures
        ({
            let (after, actions) = node.on(event);
            let (next, task) = AgendaView::opened(node, actor.with_raft(after), actions).advanced(
                outcome,
            );
            match actions.install_snapshot {
                Some(req) => if req.term > node.term() || actor.unsaved {
                    task == TaskView::<R>::Persist(node.observe_term(req.term).0.persistent)
                        && next.stage is Stepping
                } else {
                    task == TaskView::<R>::Install(req) && next.stage is Installing
                },
                None => task == TaskView::<R>::Persist(after.persistent) && next.stage
                    == StageView::Persisting(None, remaining_of(actions)),
            }
        }),
{
    crate::laws::changes_are_persisted(node, event);
}

/// Messages go out only once the durable state is known to be on disk: until then no
/// task is a message, a snapshot for a peer or an answer.
pub proof fn nothing_goes_out_unsaved<R>(agenda: AgendaView<R>, outcome: OutcomeView)
    requires
        agenda.stage.is_early(),
        agenda.stage matches StageView::Opening(_, actions) ==> actions.persist is Some
            || agenda.actor.unsaved,
        agenda.stage matches StageView::Stepping(_, _, _, persist, _) ==> persist is Some,
        agenda.stage matches StageView::Installing(_, _, persist, _) ==> persist is Some,
        !(agenda.awaits_save() && outcome is Done),
    ensures
        !(agenda.advanced(outcome).1 is Send),
        !(agenda.advanced(outcome).1 is SendSnapshot),
        !(agenda.advanced(outcome).1 is Answer),
        agenda.advanced(outcome).0.stage.is_early()
            || agenda.advanced(outcome).0.stage is Closing,
{
}

/// Where the durable state cannot be written, no message and no answer follows from
/// the event. The node goes on with the state in memory and applies what is committed.
/// The answers wait, reads are not served, and the node knows that its state is not
/// on disk.
pub proof fn failed_saves_are_silent<R>(
    agenda: AgendaView<R>,
    outcome: OutcomeView,
    later: OutcomeView,
)
    requires
        agenda.awaits_save(),
        !(outcome is Done),
    ensures
        ({
            let remaining = agenda.stage->Persisting_1;
            let actor = agenda.with_installed(agenda.stage->Persisting_0);
            let (applied, writes) = actor.applied_all(remaining.entries);
            let (next, task) = agenda.advanced(outcome);
            &&& task == TaskView::<R>::Rest(agenda.reset_election_timer)
            &&& next.stage is Closing
            &&& next.actor.unsaved
            &&& next.actor.raft == applied.raft
            &&& next.actor.raft.persistent == agenda.actor.raft.persistent
            &&& next.actor.kv == applied.kv
            &&& next.actor.held == agenda.actor.held + writes
            &&& next.actor.pending_reads == agenda.actor.pending_reads
            &&& next.advanced(later).1 is Rest
            &&& next.advanced(later).0.stage is Closing
            &&& next.advanced(later).0.actor.unsaved
            &&& next.advanced(later).0.actor.held == next.actor.held
            &&& next.advanced(later).0.actor.raft == next.actor.raft
        }),
{
    let actor = agenda.with_installed(agenda.stage->Persisting_0);
    crate::actor::applied_all_effect(actor, agenda.stage->Persisting_1.entries);
}

/// Answers that were held back go out with the first answers that follow once the
/// durable state is on disk, before any others.
pub proof fn held_answers_go_out<R>(agenda: AgendaView<R>, outcome: OutcomeView)
    requires
        agenda.advanced(outcome).1 is Answer,
    ensures
        ({
            let (next, task) = agenda.advanced(outcome);
            let replies = task->Answer_0;
            &&& agenda.actor.held.is_prefix_of(replies)
            &&& next.actor.held.len() == 0
        }),
{
    let replies = agenda.advanced(outcome).1->Answer_0;
    assert(agenda.actor.held =~= replies.subrange(0, agenda.actor.held.len() as int));
}

/// A snapshot from the leader is on disk before the log that rests on it is written,
/// and the term of the message is on disk before the snapshot. Where one of them
/// cannot be written, the snapshot is not installed: the node has at most seen the term.
pub proof fn snapshot_precedes_its_log<R>(agenda: AgendaView<R>, outcome: OutcomeView)
    ensures
        agenda.advanced(outcome).1 is Install ==> {
            ||| agenda.stage is Stepping && outcome is Done
            ||| agenda.stage matches StageView::Opening(before, actions)
                && actions.install_snapshot matches Some(req) && req.term <= before.term()
                && !agenda.actor.unsaved
        },
        agenda.stage matches StageView::Stepping(before, stepped, _, _, _) ==> {
            let (next, task) = agenda.advanced(outcome);
            if outcome is Done {
                next.stage matches StageView::Installing(node, _, _, _) && node == stepped
            } else {
                &&& task == TaskView::<R>::Rest(false)
                &&& next.stage is Closing
                &&& next.actor.raft == before
                &&& next.actor.kv == agenda.actor.kv
                &&& next.actor.unsaved == agenda.actor.unsaved
            }
        },
        agenda.stage matches StageView::Installing(stepped, _, _, _) ==> {
            let (next, task) = agenda.advanced(outcome);
            &&& task is Persist ==> outcome.is_on_disk()
            &&& !outcome.is_on_disk() ==> {
                &&& task == TaskView::<R>::Rest(false)
                &&& next.stage is Closing
                &&& next.actor.raft == stepped
                &&& next.actor.kv == agenda.actor.kv
            }
        },
{
}

/// A node that stops between writing a snapshot from the leader and writing its state
/// comes back with the state that it was about to write: on disk are then the term of
/// the message and the snapshot.
pub proof fn stopped_install_is_taken_up(node: NodeView, req: InstallSnapshotView)
    requires
        node.wf(),
        node.log().snapshot_index <= node.volatile.commit_index,
        node.handle_install_snapshot(req).1.install_snapshot is Some,
    ensures
        crate::storage::restored_form(
            crate::storage::stored_form(node.observe_term(req.term).0.persistent),
            Some((req.last_included_index, req.last_included_term)),
        ) == node.handle_install_snapshot(req).0.persistent,
{
    crate::storage::newer_snapshot_is_taken_up(
        node.observe_term(req.term).0.persistent,
        req.last_included_index,
        req.last_included_term,
    );
}

/// Once the durable state is on disk, the log changes only by compaction, and only
/// when the snapshot that replaces its entries is on disk.
pub proof fn snapshot_precedes_compaction<R>(agenda: AgendaView<R>, outcome: OutcomeView)
    requires
        !agenda.stage.is_early(),
        agenda.advanced(outcome).0.actor.raft.log() != agenda.actor.raft.log(),
    ensures
        agenda.stage is Saving,
        outcome is Done,
        agenda.advanced(outcome).0.actor.raft.log() == agenda.actor.raft.log().compacted(
            agenda.stage->Saving_0,
        ),
        agenda.advanced(outcome).1 == TaskView::<R>::Persist(
            agenda.advanced(outcome).0.actor.raft.persistent,
        ),
{
    match agenda.stage {
        StageView::Sending(remaining) => {
            crate::actor::applied_all_effect(agenda.actor, remaining.entries);
        },
        StageView::Sharing(_, entries) => crate::actor::applied_all_effect(agenda.actor, entries),
        _ => {},
    }
}

/// The index and term from which a log starts.
pub open spec fn start_of(log: LogView) -> (u64, u64) {
    (log.snapshot_index, log.snapshot_term)
}

/// Whether the snapshot on disk, which ends at `base`, is the one that the node's log
/// starts from, or will start from again if a snapshot is not installed.
pub open spec fn rests_on<R>(agenda: AgendaView<R>, base: (u64, u64)) -> bool {
    let log = agenda.actor.raft.log();
    match agenda.stage {
        StageView::Opening(before, actions) => {
            &&& start_of(before.log()) == base
            &&& start_of(log) == match actions.install_snapshot {
                Some(req) => (req.last_included_index, req.last_included_term),
                None => base,
            }
        },
        StageView::Stepping(before, stepped, req, _, _) => {
            &&& start_of(before.log()) == base
            &&& start_of(stepped.log()) == base
            &&& start_of(log) == (req.last_included_index, req.last_included_term)
        },
        StageView::Installing(stepped, new, _, _) => {
            &&& start_of(stepped.log()) == base
            &&& start_of(log) == new
        },
        StageView::Saving(index) => start_of(log) == base && log.holds(index as int),
        _ => start_of(log) == base,
    }
}

/// Where the snapshot on disk ends after the outcome of a task.
pub open spec fn base_after<R>(
    agenda: AgendaView<R>,
    outcome: OutcomeView,
    base: (u64, u64),
) -> (u64, u64) {
    match agenda.stage {
        StageView::Installing(_, new, _, _) => if outcome.is_on_disk() {
            new
        } else {
            base
        },
        StageView::Saving(index) => if outcome is Done {
            (index, agenda.actor.raft.log().term_at(index as int))
        } else {
            base
        },
        _ => base,
    }
}

/// The snapshot on disk is at all times the one that the node's log starts from,
/// whatever could be written and whatever could not. So the snapshot that a leader
/// sends from disk ends where its log starts.
pub proof fn logs_rest_on_the_snapshot<R>(
    agenda: AgendaView<R>,
    outcome: OutcomeView,
    base: (u64, u64),
)
    requires
        rests_on(agenda, base),
        agenda.stage is Compacting ==> agenda.actor.raft.volatile.last_applied
            <= agenda.actor.raft.log().last_index(),
    ensures
        rests_on(agenda.advanced(outcome).0, base_after(agenda, outcome, base)),
{
    match agenda.stage {
        StageView::Opening(_, actions) => {
            let actor = agenda.actor.saved().messages_counted(actions.messages.len() as int);
            crate::actor::applied_all_effect(actor, actions.entries_to_apply);
        },
        StageView::Installing(_, new, _, remaining) => {
            if let OutcomeView::Decoded(kv, true) = outcome {
                settling_leaves_the_log(agenda, Some((kv, new.0)), remaining);
            }
        },
        StageView::Persisting(installed, remaining) => {
            settling_leaves_the_log(agenda, installed, remaining);
        },
        StageView::Sending(remaining) => {
            crate::actor::applied_all_effect(agenda.actor, remaining.entries);
        },
        StageView::Sharing(_, entries) => crate::actor::applied_all_effect(agenda.actor, entries),
        _ => {},
    }
}

/// To take over a snapshot and to apply entries leaves the log alone.
proof fn settling_leaves_the_log<R>(
    agenda: AgendaView<R>,
    installed: Option<InstalledView>,
    remaining: RemainingView,
)
    ensures
        agenda.released(installed, remaining).0.actor.raft.log() == agenda.actor.raft.log(),
        agenda.kept(installed, remaining).0.actor.raft.log() == agenda.actor.raft.log(),
{
    let actor = agenda.with_installed(installed);
    crate::actor::applied_all_effect(actor, remaining.entries);
    crate::actor::applied_all_effect(
        actor.saved().messages_counted(remaining.messages.len() as int),
        remaining.entries,
    );
}

/// The agenda for an event starts out with the snapshot on disk where the log before
/// the event starts.
pub proof fn agendas_open_on_the_snapshot<R>(actor: ActorView<R>, node: NodeView, event: Event)
    ensures
        rests_on(
            AgendaView::opened(node, actor.with_raft(node.on(event).0), node.on(event).1),
            start_of(node.log()),
        ),
{
    if event is InstallSnapshot {
        snapshot_is_the_new_start(node, event->InstallSnapshot_0);
    } else {
        crate::actor::no_snapshot_but_from_a_leader(node, event);
        crate::laws::base_stays(node, event);
    }
}

proof fn snapshot_is_the_new_start(node: NodeView, req: InstallSnapshotView)
    ensures
        start_of(node.handle_install_snapshot(req).0.log()) == match node.handle_install_snapshot(
            req,
        ).1.install_snapshot {
            Some(snapshot) => (snapshot.last_included_index, snapshot.last_included_term),
            None => start_of(node.log()),
        },
{
}

// ── What is on disk ────────────────────────────────────────────────────────

/// Whether `state` is what a node makes of a snapshot that it installs.
pub open spec fn follows_install(
    node: NodeView,
    req: InstallSnapshotView,
    state: PersistentView,
) -> bool {
    &&& node.wf()
    &&& node.log().snapshot_index <= node.volatile.commit_index
    &&& node.handle_install_snapshot(req).1.install_snapshot is Some
    &&& node.handle_install_snapshot(req).0.persistent == state
}

/// Whether `disk` is as it should be: it is the durable state with which the node
/// would come back if it stopped now.
pub open spec fn is_backed<R>(agenda: AgendaView<R>, disk: PersistentView) -> bool {
    let state = agenda.actor.raft.persistent;
    let saved = !agenda.actor.unsaved;
    match agenda.stage {
        StageView::Opening(before, actions) => {
            &&& saved ==> disk == before.persistent
            &&& actions.persist is Some ==> actions.persist == Some(state)
            &&& actions.persist is None ==> state == before.persistent
            &&& actions.install_snapshot matches Some(req) ==> actions.persist is Some
                && follows_install(before, req, state)
        },
        StageView::Stepping(before, stepped, req, persist, _) => {
            &&& saved ==> disk == before.persistent
            &&& stepped == before.observe_term(req.term).0
            &&& persist == Some(state)
            &&& follows_install(before, req, state)
        },
        StageView::Installing(stepped, base, persist, _) => {
            &&& saved
            &&& disk == stepped.persistent
            &&& persist == Some(state)
            &&& state == crate::storage::restored_form(
                crate::storage::stored_form(stepped.persistent),
                Some(base),
            )
        },
        StageView::Persisting(installed, _) => installed is Some ==> disk == state,
        StageView::Saving(index) => {
            &&& saved
            &&& disk == state
            &&& state.log.wf()
            &&& state.log.snapshot_index < index
            &&& state.log.holds(index as int)
        },
        StageView::Closing => saved ==> disk == state,
        _ => saved && disk == state,
    }
}

/// The durable state with which the node would come back, after the outcome of a task.
/// What could not be written has left it as it was.
pub open spec fn disk_after<R>(
    agenda: AgendaView<R>,
    outcome: OutcomeView,
    disk: PersistentView,
) -> PersistentView {
    match agenda.stage {
        StageView::Stepping(_, stepped, _, _, _) => if outcome is Done {
            stepped.persistent
        } else {
            disk
        },
        StageView::Installing(_, base, _, _) => if outcome.is_on_disk() {
            crate::storage::restored_form(crate::storage::stored_form(disk), Some(base))
        } else {
            disk
        },
        StageView::Persisting(_, _) => if outcome is Done {
            agenda.actor.raft.persistent
        } else {
            disk
        },
        StageView::Saving(index) => if outcome is Done {
            crate::storage::restored_form(
                crate::storage::stored_form(disk),
                Some((index, agenda.actor.raft.log().term_at(index as int))),
            )
        } else {
            disk
        },
        _ => disk,
    }
}

/// The disk keeps up with the node at every step. A node that stops and knew of nothing
/// unwritten comes back with just the state that it had. One that stops while it
/// installs a snapshot comes back as it was but for the term of the message, or with
/// all that the snapshot makes of it.
pub proof fn nodes_come_back_as_they_were<R>(
    agenda: AgendaView<R>,
    outcome: OutcomeView,
    disk: PersistentView,
)
    requires
        is_backed(agenda, disk),
        agenda.stage is Compacting ==> agenda.actor.raft.log().wf()
            && agenda.actor.raft.volatile.last_applied <= agenda.actor.raft.log().last_index(),
    ensures
        is_backed(agenda.advanced(outcome).0, disk_after(agenda, outcome, disk)),
{
    match agenda.stage {
        StageView::Opening(before, actions) => {
            let actor = agenda.actor.saved().messages_counted(actions.messages.len() as int);
            crate::actor::applied_all_effect(actor, actions.entries_to_apply);
            if let Some(req) = actions.install_snapshot {
                stopped_install_is_taken_up(before, req);
            }
        },
        StageView::Stepping(before, _, req, _, _) => stopped_install_is_taken_up(before, req),
        StageView::Persisting(installed, remaining) => {
            let actor = agenda.with_installed(installed);
            crate::actor::applied_all_effect(actor, remaining.entries);
            crate::actor::applied_all_effect(
                actor.saved().messages_counted(remaining.messages.len() as int),
                remaining.entries,
            );
        },
        StageView::Sending(remaining) => {
            crate::actor::applied_all_effect(agenda.actor, remaining.entries);
        },
        StageView::Sharing(_, entries) => crate::actor::applied_all_effect(agenda.actor, entries),
        StageView::Saving(index) => {
            crate::storage::newer_snapshot_is_taken_up(
                disk,
                index,
                agenda.actor.raft.log().term_at(index as int),
            );
        },
        _ => {},
    }
}

/// The agenda for an event starts out backed by the disk, if the node was backed by it
/// before the event.
pub proof fn agendas_open_backed<R>(
    actor: ActorView<R>,
    node: NodeView,
    event: Event,
    disk: PersistentView,
)
    requires
        node.wf(),
        node.admits(event),
        node.log().snapshot_index <= node.volatile.commit_index,
        !actor.unsaved ==> disk == node.persistent,
    ensures
        is_backed(
            AgendaView::opened(node, actor.with_raft(node.on(event).0), node.on(event).1),
            disk,
        ),
{
    crate::laws::changes_are_persisted(node, event);
    if !(event is InstallSnapshot) {
        crate::actor::no_snapshot_but_from_a_leader(node, event);
    }
}

} // verus!
