//! The decisions of the transport: whom a connection belongs to, what becomes of
//! each message on it, and how a link to a peer is kept up.

use vstd::prelude::*;

use crate::message::{ClientRequest, MessageView, NodeId, RaftMessage};

verus! {

/// An incoming message and who sent it.
#[derive(Debug)]
pub struct Incoming {
    pub from: NodeId,
    pub message: RaftMessage,
}

/// A message to send to a specific peer.
#[derive(Debug)]
pub struct Outgoing {
    pub to: NodeId,
    pub message: RaftMessage,
}

// ── Inbound connections ────────────────────────────────────────────────────

/// What is known of an inbound connection. One listen address serves both peers
/// and clients; the first message on a connection tells which it is.
#[derive(Debug, Clone, Copy, PartialEq, Eq, Structural)]
pub enum Connection {
    /// Nothing has been read yet.
    Fresh,
    /// A peer, and all its messages are from this node.
    Peer(NodeId),
    /// A client.
    Client,
    /// No more is read.
    Closed,
}

/// What becomes of a message that was read.
#[derive(Debug)]
pub enum Delivery {
    /// It goes to the node.
    Forward(Incoming),
    /// It is a request for the node, whose answer goes back on the connection.
    Submit(ClientRequest),
    /// It is dropped.
    Drop,
}

/// What becomes of a message.
pub enum DeliveryView {
    Forward(NodeId, MessageView),
    Submit(ClientRequest),
    Drop,
}

impl View for Delivery {
    type V = DeliveryView;

    open spec fn view(&self) -> DeliveryView {
        match *self {
            Delivery::Forward(incoming) => DeliveryView::Forward(incoming.from, incoming.message@),
            Delivery::Submit(req) => DeliveryView::Submit(req),
            Delivery::Drop => DeliveryView::Drop,
        }
    }
}

/// The connection that a first message opens. Requests carry the sender's id in
/// their body, responses in the field that was made for it.
pub open spec fn opened_by(first: MessageView) -> Connection {
    match first {
        MessageView::VoteRequest(req) => Connection::Peer(req.candidate_id),
        MessageView::AppendEntriesRequest(req) => Connection::Peer(req.leader_id),
        MessageView::VoteResponse(resp) => Connection::Peer(resp.peer_id),
        MessageView::AppendEntriesResponse(resp) => Connection::Peer(resp.peer_id),
        MessageView::InstallSnapshotResponse(resp) => Connection::Peer(resp.peer_id),
        MessageView::ClientRequest(_) => Connection::Client,
        MessageView::InstallSnapshotRequest(_) => Connection::Closed,
        MessageView::ClientResponse(_) => Connection::Closed,
    }
}

impl Connection {
    /// What a message makes of the connection.
    pub open spec fn after(self, message: MessageView) -> Connection {
        match self {
            Connection::Fresh => opened_by(message),
            Connection::Peer(from) => Connection::Peer(from),
            Connection::Client => if message is ClientRequest {
                Connection::Client
            } else {
                Connection::Closed
            },
            Connection::Closed => Connection::Closed,
        }
    }

    /// What becomes of a message on a connection that it has led to.
    pub open spec fn delivers(self, message: MessageView) -> DeliveryView {
        match self {
            Connection::Peer(from) => DeliveryView::Forward(from, message),
            Connection::Client => match message {
                MessageView::ClientRequest(req) => DeliveryView::Submit(req),
                _ => DeliveryView::Drop,
            },
            _ => DeliveryView::Drop,
        }
    }

    /// Takes a message that was read from the connection: says what becomes of
    /// the connection and of the message.
    pub fn receive(self, message: RaftMessage) -> (result: (Connection, Delivery))
        ensures
            result.0 == self.after(message@),
            result.1@ == self.after(message@).delivers(message@),
    {
        let connection = match self {
            Connection::Fresh => match &message {
                RaftMessage::VoteRequest(req) => Connection::Peer(req.candidate_id),
                RaftMessage::AppendEntriesRequest(req) => Connection::Peer(req.leader_id),
                RaftMessage::VoteResponse(resp) => Connection::Peer(resp.peer_id),
                RaftMessage::AppendEntriesResponse(resp) => Connection::Peer(resp.peer_id),
                RaftMessage::InstallSnapshotResponse(resp) => Connection::Peer(resp.peer_id),
                RaftMessage::ClientRequest(_) => Connection::Client,
                _ => Connection::Closed,
            },
            Connection::Client => match &message {
                RaftMessage::ClientRequest(_) => Connection::Client,
                _ => Connection::Closed,
            },
            other => other,
        };
        let delivery = match connection {
            Connection::Peer(from) => Delivery::Forward(Incoming { from, message }),
            Connection::Client => match message {
                RaftMessage::ClientRequest(req) => Delivery::Submit(req),
                _ => Delivery::Drop,
            },
            _ => Delivery::Drop,
        };
        (connection, delivery)
    }
}

/// The connection after a run of messages.
pub open spec fn after_all(connection: Connection, messages: Seq<MessageView>) -> Connection
    decreases messages.len(),
{
    if messages.len() == 0 {
        connection
    } else {
        after_all(connection, messages.drop_last()).after(messages.last())
    }
}

/// Once a connection is known to be a peer's, every message on it reaches the
/// node, and as that peer's.
pub proof fn peer_messages_are_forwarded(
    first: MessageView,
    more: Seq<MessageView>,
    message: MessageView,
    from: NodeId,
)
    requires
        Connection::Fresh.after(first) == Connection::Peer(from),
    ensures
        after_all(Connection::Fresh.after(first), more) == Connection::Peer(from),
        Connection::Peer(from).after(message) == Connection::Peer(from),
        Connection::Peer(from).delivers(message) == DeliveryView::Forward(from, message),
    decreases more.len(),
{
    if more.len() > 0 {
        peer_messages_are_forwarded(first, more.drop_last(), message, from);
    }
}

// ── Outbound links ─────────────────────────────────────────────────────────

/// The first wait after a failed attempt to connect.
pub const BACKOFF_START_MS: u64 = 100;

/// The longest wait after a failed attempt to connect.
pub const BACKOFF_LIMIT_MS: u64 = 1600;

/// The link to a peer: whether there is a connection, and how long to wait after
/// the next failed attempt to get one.
#[derive(Debug, Clone, Copy, PartialEq, Eq, Structural)]
pub struct PeerLink {
    pub connected: bool,
    pub backoff_ms: u64,
}

/// How the last step on a link went.
#[derive(Debug, Clone, Copy, PartialEq, Eq, Structural)]
pub enum LinkEvent {
    /// There is a message to send.
    Start,
    /// The message went out.
    Sent,
    /// The connection broke.
    SendFailed,
    /// The peer answered.
    Connected,
    /// The peer could not be reached.
    ConnectFailed,
}

/// What to do next with a message.
#[derive(Debug, Clone, Copy, PartialEq, Eq, Structural)]
pub enum LinkStep {
    /// Send it on the connection.
    Send,
    /// Get a connection.
    Connect,
    /// It is out.
    Done,
    /// Wait, and give it up: Raft tolerates message loss.
    Drop {
        wait_ms: u64,
    },
}

/// The wait that follows a wait.
pub open spec fn doubled(backoff_ms: u64) -> u64 {
    if 2 * backoff_ms <= BACKOFF_LIMIT_MS {
        (2 * backoff_ms) as u64
    } else {
        BACKOFF_LIMIT_MS
    }
}

impl PeerLink {
    /// What an event makes of the link, and the step that follows.
    pub open spec fn on(self, event: LinkEvent) -> (PeerLink, LinkStep) {
        match event {
            LinkEvent::Start => (
                self,
                if self.connected {
                    LinkStep::Send
                } else {
                    LinkStep::Connect
                },
            ),
            LinkEvent::Sent => (self, LinkStep::Done),
            LinkEvent::SendFailed => (PeerLink { connected: false, ..self }, LinkStep::Connect),
            LinkEvent::Connected => (
                PeerLink { connected: true, backoff_ms: BACKOFF_START_MS },
                LinkStep::Send,
            ),
            LinkEvent::ConnectFailed => (
                PeerLink { connected: false, backoff_ms: doubled(self.backoff_ms) },
                LinkStep::Drop { wait_ms: self.backoff_ms },
            ),
        }
    }

    /// A link that has not been used.
    pub fn new() -> (link: PeerLink)
        ensures
            link == (PeerLink { connected: false, backoff_ms: BACKOFF_START_MS }),
    {
        PeerLink { connected: false, backoff_ms: BACKOFF_START_MS }
    }

    /// Decides the next step.
    pub fn next(self, event: LinkEvent) -> (result: (PeerLink, LinkStep))
        ensures
            result == self.on(event),
    {
        match event {
            LinkEvent::Start => {
                if self.connected {
                    (self, LinkStep::Send)
                } else {
                    (self, LinkStep::Connect)
                }
            },
            LinkEvent::Sent => (self, LinkStep::Done),
            LinkEvent::SendFailed => (
                PeerLink { connected: false, backoff_ms: self.backoff_ms },
                LinkStep::Connect,
            ),
            LinkEvent::Connected => (
                PeerLink { connected: true, backoff_ms: BACKOFF_START_MS },
                LinkStep::Send,
            ),
            LinkEvent::ConnectFailed => {
                let backoff_ms = if self.backoff_ms <= BACKOFF_LIMIT_MS / 2 {
                    2 * self.backoff_ms
                } else {
                    BACKOFF_LIMIT_MS
                };
                (
                    PeerLink { connected: false, backoff_ms },
                    LinkStep::Drop { wait_ms: self.backoff_ms },
                )
            },
        }
    }
}

impl Default for PeerLink {
    fn default() -> (link: Self)
        ensures
            link == (PeerLink { connected: false, backoff_ms: BACKOFF_START_MS }),
    {
        PeerLink::new()
    }
}

/// The link after a number of failed attempts to connect in a row.
pub open spec fn after_failures(link: PeerLink, failures: nat) -> PeerLink
    decreases failures,
{
    if failures == 0 {
        link
    } else {
        after_failures(link, (failures - 1) as nat).on(LinkEvent::ConnectFailed).0
    }
}

/// The wait doubles with every failed attempt in a row until it reaches the
/// limit, and a connection brings it back to the start.
pub proof fn backoff_is_exponential(link: PeerLink, failures: nat)
    requires
        link.backoff_ms == BACKOFF_START_MS,
    ensures
        ({
            let wait = BACKOFF_START_MS * vstd::arithmetic::power2::pow2(failures);
            after_failures(link, failures).backoff_ms == if wait <= BACKOFF_LIMIT_MS {
                wait
            } else {
                BACKOFF_LIMIT_MS as int
            }
        }),
        after_failures(link, failures).on(LinkEvent::Connected).0.backoff_ms == BACKOFF_START_MS,
    decreases failures,
{
    if failures > 0 {
        backoff_is_exponential(link, (failures - 1) as nat);
        vstd::arithmetic::power2::lemma_pow2_unfold(failures);
    } else {
        vstd::arithmetic::power2::lemma2_to64();
    }
}

/// Who sends a message on a connection that is new, as the message itself says.
pub open spec fn sender(message: RaftMessage) -> Option<NodeId> {
    match message {
        RaftMessage::VoteRequest(req) => Some(req.candidate_id),
        RaftMessage::VoteResponse(resp) => Some(resp.peer_id),
        RaftMessage::AppendEntriesRequest(req) => Some(req.leader_id),
        RaftMessage::AppendEntriesResponse(resp) => Some(resp.peer_id),
        RaftMessage::InstallSnapshotResponse(resp) => Some(resp.peer_id),
        _ => None,
    }
}

/// The first message on a connection tells whose it is. A message of a peer makes it
/// that peer's and goes to the node as that peer's; a request of a client makes it a
/// client's and is submitted as it came; anything else closes it.
pub proof fn first_messages_tell_the_sender(message: RaftMessage, result: (Connection, Delivery))
    requires
        call_ensures(Connection::receive, (Connection::Fresh, message), result),
    ensures
        sender(message) matches Some(from) ==> {
            &&& result.0 == Connection::Peer(from)
            &&& result.1 matches Delivery::Forward(incoming) && incoming.from == from
                && incoming.message@ == message@
        },
        message matches RaftMessage::ClientRequest(req) ==> result.0 == Connection::Client
            && result.1 == Delivery::Submit(req),
        sender(message) is None && !(message is ClientRequest) ==> result.0 == Connection::Closed
            && result.1 is Drop,
{
}

/// Later messages do not change whose a connection is: a peer's go to the node as that
/// peer's, whatever they say, and a client's requests are submitted. A client that
/// says anything else is not heard any more, and on a closed connection nobody is.
pub proof fn later_messages_change_no_sender(
    connection: Connection,
    message: RaftMessage,
    result: (Connection, Delivery),
)
    requires
        connection != Connection::Fresh,
        call_ensures(Connection::receive, (connection, message), result),
    ensures
        match connection {
            Connection::Peer(from) => {
                &&& result.0 == connection
                &&& result.1 matches Delivery::Forward(incoming) && incoming.from == from
                    && incoming.message@ == message@
            },
            Connection::Client => match message {
                RaftMessage::ClientRequest(req) => result.0 == Connection::Client && result.1
                    == Delivery::Submit(req),
                _ => result.0 == Connection::Closed && result.1 is Drop,
            },
            _ => result.0 == Connection::Closed && result.1 is Drop,
        },
{
}

/// A message goes out on the connection that there is. Where there is none, or it
/// breaks, a new one is made and the message goes out on that. Where none can be made,
/// the message is given up after a wait.
pub proof fn links_are_kept_up(
    link: PeerLink,
    started: (PeerLink, LinkStep),
    sent: (PeerLink, LinkStep),
    broken: (PeerLink, LinkStep),
    connected: (PeerLink, LinkStep),
    failed: (PeerLink, LinkStep),
)
    requires
        call_ensures(PeerLink::next, (link, LinkEvent::Start), started),
        call_ensures(PeerLink::next, (link, LinkEvent::Sent), sent),
        call_ensures(PeerLink::next, (link, LinkEvent::SendFailed), broken),
        call_ensures(PeerLink::next, (link, LinkEvent::Connected), connected),
        call_ensures(PeerLink::next, (link, LinkEvent::ConnectFailed), failed),
    ensures
        started.0 == link,
        link.connected ==> started.1 == LinkStep::Send,
        !link.connected ==> started.1 == LinkStep::Connect,
        sent == (link, LinkStep::Done),
        !broken.0.connected && broken.0.backoff_ms == link.backoff_ms,
        broken.1 == LinkStep::Connect,
        connected.0.connected && connected.0.backoff_ms == 100,
        connected.1 == LinkStep::Send,
        !failed.0.connected,
        failed.1 == (LinkStep::Drop { wait_ms: link.backoff_ms }),
        failed.0.backoff_ms == if link.backoff_ms <= 800 {
            2 * link.backoff_ms
        } else {
            1600
        },
{
}

/// A link starts without a connection and with the shortest wait.
pub proof fn links_start_unconnected(link: PeerLink)
    requires
        call_ensures(PeerLink::new, (), link),
    ensures
        !link.connected,
        link.backoff_ms == 100,
{
}

} // verus!
