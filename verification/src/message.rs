//! Commands, log entries, Raft RPCs and the client protocol.

use vstd::prelude::*;

verus! {

/// Unique node identifier within the cluster.
pub type NodeId = u64;

/// A command to be applied to the key-value state machine.
#[derive(Debug, PartialEq, Eq)]
pub enum Command {
    Put { key: String, value: String },
    Delete { key: String },
    /// Committed by a new leader immediately after election to advance the
    /// commit index to the current term.
    Noop,
}

impl Clone for Command {
    fn clone(&self) -> (copy: Self)
        ensures
            copy == *self,
    {
        match self {
            Command::Put { key, value } => Command::Put { key: key.clone(), value: value.clone() },
            Command::Delete { key } => Command::Delete { key: key.clone() },
            Command::Noop => Command::Noop,
        }
    }
}

/// A single entry in the replicated log.
#[derive(Debug, PartialEq, Eq)]
pub struct LogEntry {
    pub term: u64,
    pub index: u64,
    pub command: Command,
}

impl Clone for LogEntry {
    fn clone(&self) -> (copy: Self)
        ensures
            copy == *self,
    {
        LogEntry { term: self.term, index: self.index, command: self.command.clone() }
    }
}

// ── Raft RPCs ──────────────────────────────────────────────────────────────

/// RequestVote RPC.
#[derive(Debug, Clone, Copy)]
pub struct VoteRequest {
    pub term: u64,
    pub candidate_id: NodeId,
    pub last_log_index: u64,
    pub last_log_term: u64,
}

#[derive(Debug, Clone, Copy)]
pub struct VoteResponse {
    pub term: u64,
    pub vote_granted: bool,
    /// The node that is sending this response. It identifies the sender when
    /// this message is the first one on a new connection.
    pub peer_id: NodeId,
}

/// AppendEntries RPC, also used as heartbeat when `entries` is empty.
#[derive(Debug)]
pub struct AppendEntriesRequest {
    pub term: u64,
    pub leader_id: NodeId,
    pub prev_log_index: u64,
    pub prev_log_term: u64,
    pub entries: Vec<LogEntry>,
    pub leader_commit: u64,
    /// The leader's heartbeat round, which the answer repeats.
    pub round: u64,
}

/// What an `AppendEntriesRequest` says, with its entries as a sequence.
#[verifier::ext_equal]
pub struct AppendEntriesView {
    pub term: u64,
    pub leader_id: NodeId,
    pub prev_log_index: u64,
    pub prev_log_term: u64,
    pub entries: Seq<LogEntry>,
    pub leader_commit: u64,
    pub round: u64,
}

impl AppendEntriesView {
    /// The index of the last entry that the request carries, or of the one
    /// before if it carries none.
    pub open spec fn end(self) -> u64 {
        if self.entries.len() == 0 {
            self.prev_log_index
        } else {
            self.entries.last().index
        }
    }
}

impl View for AppendEntriesRequest {
    type V = AppendEntriesView;

    open spec fn view(&self) -> AppendEntriesView {
        AppendEntriesView {
            term: self.term,
            leader_id: self.leader_id,
            prev_log_index: self.prev_log_index,
            prev_log_term: self.prev_log_term,
            entries: self.entries@,
            leader_commit: self.leader_commit,
            round: self.round,
        }
    }
}

impl Clone for AppendEntriesRequest {
    fn clone(&self) -> (copy: Self)
        ensures
            copy@ == self@,
    {
        let entries = self.entries.clone();
        assert(entries@ =~= self.entries@);
        AppendEntriesRequest {
            term: self.term,
            leader_id: self.leader_id,
            prev_log_index: self.prev_log_index,
            prev_log_term: self.prev_log_term,
            entries,
            leader_commit: self.leader_commit,
            round: self.round,
        }
    }
}

/// The answer to an `AppendEntriesRequest`, with conflict hints for fast log
/// backtracking.
#[derive(Debug, Clone, Copy)]
pub struct AppendEntriesResponse {
    pub term: u64,
    pub success: bool,
    /// On failure: the index of the first conflicting entry.
    pub conflict_index: Option<u64>,
    /// On failure: the term of the conflicting entry.
    pub conflict_term: Option<u64>,
    /// On success: the index up to which the sender's log agrees with the
    /// leader's, which is the last entry of the request. On failure: 0.
    pub match_index: u64,
    /// The round of the request, or 0 if the request was of an earlier term.
    pub round: u64,
    /// The node that is sending this response. It identifies the sender when
    /// this message is the first one on a new connection.
    pub peer_id: NodeId,
}

/// InstallSnapshot RPC, sent by the leader to a follower so far behind that
/// the log entries it needs have been compacted away.
#[derive(Debug)]
pub struct InstallSnapshotRequest {
    pub term: u64,
    pub leader_id: NodeId,
    /// The last log index included in the snapshot.
    pub last_included_index: u64,
    /// The term of that entry.
    pub last_included_term: u64,
    /// Opaque serialised state-machine snapshot.
    pub data: Vec<u8>,
}

/// What an `InstallSnapshotRequest` says, with its data as a sequence.
#[verifier::ext_equal]
pub struct InstallSnapshotView {
    pub term: u64,
    pub leader_id: NodeId,
    pub last_included_index: u64,
    pub last_included_term: u64,
    pub data: Seq<u8>,
}

impl View for InstallSnapshotRequest {
    type V = InstallSnapshotView;

    open spec fn view(&self) -> InstallSnapshotView {
        InstallSnapshotView {
            term: self.term,
            leader_id: self.leader_id,
            last_included_index: self.last_included_index,
            last_included_term: self.last_included_term,
            data: self.data@,
        }
    }
}

impl Clone for InstallSnapshotRequest {
    fn clone(&self) -> (copy: Self)
        ensures
            copy@ == self@,
    {
        let data = self.data.clone();
        assert(data@ =~= self.data@);
        InstallSnapshotRequest {
            term: self.term,
            leader_id: self.leader_id,
            last_included_index: self.last_included_index,
            last_included_term: self.last_included_term,
            data,
        }
    }
}

#[derive(Debug, Clone, Copy)]
pub struct InstallSnapshotResponse {
    pub term: u64,
    /// The node sending this response, which identifies it when this message
    /// is the first one on a new connection.
    pub peer_id: NodeId,
}

// ── Client-facing protocol ─────────────────────────────────────────────────

/// A client request with the ID by which its answer is told.
#[derive(Debug)]
pub struct ClientRequest {
    /// Monotonically increasing per client; the answer repeats it.
    pub id: u64,
    pub operation: ClientOperation,
}

impl Clone for ClientRequest {
    fn clone(&self) -> (copy: Self)
        ensures
            copy == *self,
    {
        ClientRequest { id: self.id, operation: self.operation.clone() }
    }
}

#[derive(Debug)]
pub enum ClientOperation {
    Get { key: String },
    Put { key: String, value: String },
    Delete { key: String },
}

impl Clone for ClientOperation {
    fn clone(&self) -> (copy: Self)
        ensures
            copy == *self,
    {
        match self {
            ClientOperation::Get { key } => ClientOperation::Get { key: key.clone() },
            ClientOperation::Put { key, value } => ClientOperation::Put {
                key: key.clone(),
                value: value.clone(),
            },
            ClientOperation::Delete { key } => ClientOperation::Delete { key: key.clone() },
        }
    }
}

#[derive(Debug)]
pub struct ClientResponse {
    pub id: u64,
    pub result: ClientResult,
}

impl Clone for ClientResponse {
    fn clone(&self) -> (copy: Self)
        ensures
            copy == *self,
    {
        ClientResponse { id: self.id, result: self.result.clone() }
    }
}

#[derive(Debug)]
pub enum ClientResult {
    /// The operation was carried out; for a read the value of the key, for a
    /// write the value it had before.
    Success(Option<String>),
    NotLeader { leader_hint: Option<NodeId> },
    Error(String),
}

impl Clone for ClientResult {
    fn clone(&self) -> (copy: Self)
        ensures
            copy == *self,
    {
        match self {
            ClientResult::Success(Some(value)) => ClientResult::Success(Some(value.clone())),
            ClientResult::Success(None) => ClientResult::Success(None),
            ClientResult::NotLeader { leader_hint } => ClientResult::NotLeader {
                leader_hint: *leader_hint,
            },
            ClientResult::Error(reason) => ClientResult::Error(reason.clone()),
        }
    }
}

/// The contents of a `ClientResult`.
pub enum ResultView {
    Success(Option<Seq<char>>),
    NotLeader { leader_hint: Option<NodeId> },
    Error(Seq<char>),
}

/// The contents of a `ClientResponse`.
pub struct ResponseView {
    pub id: u64,
    pub result: ResultView,
}

impl View for ClientResult {
    type V = ResultView;

    open spec fn view(&self) -> ResultView {
        match *self {
            ClientResult::Success(Some(value)) => ResultView::Success(Some(value@)),
            ClientResult::Success(None) => ResultView::Success(None),
            ClientResult::NotLeader { leader_hint } => ResultView::NotLeader { leader_hint },
            ClientResult::Error(text) => ResultView::Error(text@),
        }
    }
}

impl View for ClientResponse {
    type V = ResponseView;

    open spec fn view(&self) -> ResponseView {
        ResponseView { id: self.id, result: self.result@ }
    }
}

// ── Wire envelope ──────────────────────────────────────────────────────────

/// Top-level message type multiplexed over a single connection.
#[derive(Debug)]
pub enum RaftMessage {
    VoteRequest(VoteRequest),
    VoteResponse(VoteResponse),
    AppendEntriesRequest(AppendEntriesRequest),
    AppendEntriesResponse(AppendEntriesResponse),
    InstallSnapshotRequest(InstallSnapshotRequest),
    InstallSnapshotResponse(InstallSnapshotResponse),
    ClientRequest(ClientRequest),
    ClientResponse(ClientResponse),
}

/// What a `RaftMessage` says.
#[verifier::ext_equal]
pub enum MessageView {
    VoteRequest(VoteRequest),
    VoteResponse(VoteResponse),
    AppendEntriesRequest(AppendEntriesView),
    AppendEntriesResponse(AppendEntriesResponse),
    InstallSnapshotRequest(InstallSnapshotView),
    InstallSnapshotResponse(InstallSnapshotResponse),
    ClientRequest(ClientRequest),
    ClientResponse(ClientResponse),
}

impl View for RaftMessage {
    type V = MessageView;

    open spec fn view(&self) -> MessageView {
        match *self {
            RaftMessage::VoteRequest(m) => MessageView::VoteRequest(m),
            RaftMessage::VoteResponse(m) => MessageView::VoteResponse(m),
            RaftMessage::AppendEntriesRequest(m) => MessageView::AppendEntriesRequest(m@),
            RaftMessage::AppendEntriesResponse(m) => MessageView::AppendEntriesResponse(m),
            RaftMessage::InstallSnapshotRequest(m) => MessageView::InstallSnapshotRequest(m@),
            RaftMessage::InstallSnapshotResponse(m) => MessageView::InstallSnapshotResponse(m),
            RaftMessage::ClientRequest(m) => MessageView::ClientRequest(m),
            RaftMessage::ClientResponse(m) => MessageView::ClientResponse(m),
        }
    }
}

impl Clone for RaftMessage {
    fn clone(&self) -> (copy: Self)
        ensures
            copy@ == self@,
    {
        match self {
            RaftMessage::VoteRequest(m) => RaftMessage::VoteRequest(*m),
            RaftMessage::VoteResponse(m) => RaftMessage::VoteResponse(*m),
            RaftMessage::AppendEntriesRequest(m) => RaftMessage::AppendEntriesRequest(m.clone()),
            RaftMessage::AppendEntriesResponse(m) => RaftMessage::AppendEntriesResponse(*m),
            RaftMessage::InstallSnapshotRequest(m) => RaftMessage::InstallSnapshotRequest(
                m.clone(),
            ),
            RaftMessage::InstallSnapshotResponse(m) => RaftMessage::InstallSnapshotResponse(*m),
            RaftMessage::ClientRequest(m) => RaftMessage::ClientRequest(m.clone()),
            RaftMessage::ClientResponse(m) => RaftMessage::ClientResponse(m.clone()),
        }
    }
}

// ── Laws ───────────────────────────────────────────────────────────────────

/// What is said of a message is what it holds, field by field.
pub proof fn messages_say_what_they_hold(
    append: AppendEntriesRequest,
    install: InstallSnapshotRequest,
    response: ClientResponse,
    message: RaftMessage,
)
    ensures
        append@.term == append.term,
        append@.leader_id == append.leader_id,
        append@.prev_log_index == append.prev_log_index,
        append@.prev_log_term == append.prev_log_term,
        append@.entries == append.entries@,
        append@.leader_commit == append.leader_commit,
        append@.round == append.round,
        install@.term == install.term,
        install@.leader_id == install.leader_id,
        install@.last_included_index == install.last_included_index,
        install@.last_included_term == install.last_included_term,
        install@.data == install.data@,
        response@.id == response.id,
        match response.result {
            ClientResult::Success(Some(text)) => response@.result == ResultView::Success(
                Some(text@),
            ),
            ClientResult::Success(None) => response@.result == ResultView::Success(None),
            ClientResult::NotLeader { leader_hint } => response@.result == (
            ResultView::NotLeader { leader_hint }),
            ClientResult::Error(text) => response@.result == ResultView::Error(text@),
        },
        match message {
            RaftMessage::VoteRequest(m) => message@ == MessageView::VoteRequest(m),
            RaftMessage::VoteResponse(m) => message@ == MessageView::VoteResponse(m),
            RaftMessage::AppendEntriesRequest(m) => message@ == MessageView::AppendEntriesRequest(
                m@,
            ),
            RaftMessage::AppendEntriesResponse(m) => message@
                == MessageView::AppendEntriesResponse(m),
            RaftMessage::InstallSnapshotRequest(m) => message@
                == MessageView::InstallSnapshotRequest(m@),
            RaftMessage::InstallSnapshotResponse(m) => message@
                == MessageView::InstallSnapshotResponse(m),
            RaftMessage::ClientRequest(m) => message@ == MessageView::ClientRequest(m),
            RaftMessage::ClientResponse(m) => message@ == MessageView::ClientResponse(m),
        },
{
}

/// A copy of a message is the message.
pub proof fn copies_are_alike(
    command: &Command,
    entry: &LogEntry,
    operation: &ClientOperation,
    message: &RaftMessage,
    a: Command,
    b: LogEntry,
    c: ClientOperation,
    d: RaftMessage,
)
    requires
        call_ensures(Command::clone, (command,), a),
        call_ensures(LogEntry::clone, (entry,), b),
        call_ensures(ClientOperation::clone, (operation,), c),
        call_ensures(RaftMessage::clone, (message,), d),
    ensures
        a == *command,
        b == *entry,
        c == *operation,
        d@ == message@,
{
}

} // verus!
