//! A cluster of nodes that exchange messages over a network which may lose,
//! delay, reorder and duplicate them, and in which nodes may crash and restart.

use vstd::prelude::*;

use crate::message::{ClientRequest, InstallSnapshotView, MessageView, NodeId, VoteResponse};
use crate::state::{Role, VolatileState};
use crate::transitions::{Event, NodeView};

verus! {

/// A message on its way from one node to another.
pub struct Envelope {
    pub from: NodeId,
    pub to: NodeId,
    pub message: MessageView,
}

/// A vote that was cast.
pub struct Ballot {
    pub voter: NodeId,
    pub term: u64,
    pub candidate: NodeId,
}

/// The nodes of a cluster, and what has happened so far.
pub struct Cluster {
    pub nodes: Map<NodeId, NodeView>,
    /// Every message that was ever sent.
    pub sent: Set<Envelope>,
    /// Every vote that was ever cast.
    pub ballots: Set<Ballot>,
    /// Every node that has ever led, with the term in which it did.
    pub leaders: Set<(u64, NodeId)>,
}

/// What can happen in a cluster.
pub enum Step {
    /// The election timer of a node fires.
    ElectionTimeout(NodeId),
    /// The heartbeat timer of a node fires.
    Tick(NodeId),
    /// A client sends a request to a node.
    Client(NodeId, ClientRequest),
    /// A message that was sent, now or long ago, arrives.
    Deliver(Envelope),
    /// A node sends a snapshot to another one.
    SendSnapshot(NodeId, NodeId, InstallSnapshotView),
    /// A node compacts its log.
    Compact(NodeId, u64),
    /// A node crashes, and starts again from its durable state.
    Restart(NodeId),
    /// A node gets a snapshot in a message and cannot install it. It has seen the term
    /// of the message, and no more.
    RefuseSnapshot(Envelope),
    /// A node crashes while it installs the snapshot in a message, and starts again.
    /// By then it has written the term of the message, and it has written the
    /// snapshot or has not.
    StopInstalling(Envelope, bool),
}

/// What a node that stops while it installs a snapshot, or does not install it, has
/// written, as an event: all that the snapshot makes of it, or only that it has seen
/// the term.
pub open spec fn written(req: InstallSnapshotView, installed: bool) -> Event {
    if installed {
        Event::InstallSnapshot(req)
    } else {
        Event::VoteResponse(
            req.leader_id,
            VoteResponse { term: req.term, vote_granted: false, peer_id: req.leader_id },
        )
    }
}

/// What the arrival of a message is to the node that gets it.
pub open spec fn arrival(envelope: Envelope) -> Option<Event> {
    crate::transitions::event_of(envelope.from, envelope.message)
}

/// A node that has started again from its durable state.
pub open spec fn restarted(node: NodeView) -> NodeView {
    NodeView {
        role: Role::Follower,
        volatile: VolatileState {
            commit_index: node.log().snapshot_index,
            last_applied: node.log().snapshot_index,
        },
        leader_state: None,
        current_leader: None,
        ..node
    }
}

impl Cluster {
    /// Every node knows itself and all the others.
    pub open spec fn membership(self) -> bool {
        &&& self.nodes.dom().finite()
        &&& forall|id: NodeId| #[trigger]
            self.nodes.contains_key(id) ==> {
                &&& self.nodes[id].id == id
                &&& self.nodes[id].peers.to_set() == self.nodes.dom().remove(id)
                &&& self.nodes[id].config.cluster_size == self.nodes.dom().len()
            }
    }

    /// A cluster that has never run.
    pub open spec fn init(self) -> bool {
        &&& self.membership()
        &&& forall|id: NodeId| #[trigger]
            self.nodes.contains_key(id) ==> self.nodes[id] == NodeView::initial(
                id,
                self.nodes[id].peers,
                self.nodes[id].config,
            )
        &&& self.sent == Set::<Envelope>::empty()
        &&& self.ballots == Set::<Ballot>::empty()
        &&& self.leaders == Set::<(u64, NodeId)>::empty()
    }

    /// The messages that a node sends.
    pub open spec fn envelopes(from: NodeId, messages: Seq<(NodeId, MessageView)>) -> Set<Envelope> {
        messages.map_values(
            |m: (NodeId, MessageView)| Envelope { from, to: m.0, message: m.1 },
        ).to_set()
    }

    /// The cluster after an event at a node. What the node sends rests on what it has
    /// written: an event takes place here when it is on disk.
    pub open spec fn after(self, id: NodeId, event: Event) -> Cluster {
        let (node, actions) = self.nodes[id].on(event);
        Cluster {
            nodes: self.nodes.insert(id, node),
            sent: self.sent + Self::envelopes(id, actions.messages),
            ballots: match node.persistent.voted_for {
                Some(candidate) => self.ballots.insert(
                    Ballot { voter: id, term: node.term(), candidate },
                ),
                None => self.ballots,
            },
            leaders: if node.role == Role::Leader {
                self.leaders.insert((node.term(), id))
            } else {
                self.leaders
            },
        }
    }

    /// The cluster after a node has made durable what an event makes of it, and has
    /// then stopped and started again before it sent anything.
    pub open spec fn stopped(self, id: NodeId, event: Event) -> Cluster {
        let after = self.after(id, event);
        Cluster {
            nodes: after.nodes.insert(id, restarted(after.nodes[id])),
            sent: self.sent,
            ..after
        }
    }

    /// Whether the node is there and can handle the event.
    pub open spec fn can(self, id: NodeId, event: Event) -> bool {
        self.nodes.contains_key(id) && self.nodes[id].admits(event)
    }

    /// Whether a step leads from this cluster to the next one.
    pub open spec fn steps_to(self, next: Cluster, step: Step) -> bool {
        match step {
            Step::ElectionTimeout(id) => self.can(id, Event::ElectionTimeout) && next
                == self.after(id, Event::ElectionTimeout),
            Step::Tick(id) => self.can(id, Event::Tick) && next == self.after(id, Event::Tick),
            Step::Client(id, req) => self.can(id, Event::ClientRequest(req)) && next == self.after(
                id,
                Event::ClientRequest(req),
            ),
            Step::Deliver(envelope) => {
                &&& self.sent.contains(envelope)
                &&& arrival(envelope) matches Some(event) && self.can(envelope.to, event) && next
                    == self.after(envelope.to, event)
            },
            Step::SendSnapshot(id, to, snapshot) => {
                &&& self.nodes.contains_key(id)
                &&& snapshot.leader_id == id && snapshot.term == self.nodes[id].term()
                &&& next == Cluster {
                    sent: self.sent.insert(
                        Envelope {
                            from: id,
                            to,
                            message: MessageView::InstallSnapshotRequest(snapshot),
                        },
                    ),
                    ..self
                }
            },
            Step::Compact(id, index) => {
                &&& self.nodes.contains_key(id)
                &&& next == Cluster {
                    nodes: self.nodes.insert(id, self.nodes[id].compact_log(index)),
                    ..self
                }
            },
            Step::Restart(id) => {
                &&& self.nodes.contains_key(id)
                &&& next == Cluster {
                    nodes: self.nodes.insert(id, restarted(self.nodes[id])),
                    ..self
                }
            },
            Step::RefuseSnapshot(envelope) => {
                &&& self.sent.contains(envelope)
                &&& envelope.message matches MessageView::InstallSnapshotRequest(req)
                    && self.can(envelope.to, Event::InstallSnapshot(req)) && next == self.after(
                    envelope.to,
                    written(req, false),
                )
            },
            Step::StopInstalling(envelope, installed) => {
                &&& self.sent.contains(envelope)
                &&& envelope.message matches MessageView::InstallSnapshotRequest(req)
                    && self.can(envelope.to, Event::InstallSnapshot(req)) && next == self.stopped(
                    envelope.to,
                    written(req, installed),
                )
            },
        }
    }

    /// Whether some step leads from `before` to this cluster.
    pub open spec fn follows(self, before: Cluster) -> bool {
        exists|step: Step| before.steps_to(self, step)
    }

    pub open spec fn has_ballot(self, voter: NodeId, term: u64, candidate: NodeId) -> bool {
        self.ballots.contains(Ballot { voter, term, candidate })
    }

    // ── What always holds ──────────────────────────────────────────────────

    /// No node votes twice in a term, and each remembers its last vote.
    pub open spec fn ballots_kept(self) -> bool {
        &&& forall|voter: NodeId, term: u64, a: NodeId, b: NodeId|
            #![trigger self.has_ballot(voter, term, a), self.has_ballot(voter, term, b)]
            self.has_ballot(voter, term, a) && self.has_ballot(voter, term, b) ==> a == b
        &&& forall|voter: NodeId, term: u64, candidate: NodeId| #[trigger]
            self.has_ballot(voter, term, candidate) ==> {
                let node = self.nodes[voter];
                &&& self.nodes.contains_key(voter)
                &&& node.term() > term || (node.term() == term && node.persistent.voted_for
                    == Some(candidate))
            }
        &&& forall|id: NodeId| #[trigger]
            self.nodes.contains_key(id) && self.nodes[id].persistent.voted_for is Some
                ==> self.has_ballot(
                id,
                self.nodes[id].term(),
                self.nodes[id].persistent.voted_for->0,
            )
    }

    /// A vote request comes from the candidate, and a granted vote from a node
    /// that has voted for the one that gets it.
    pub open spec fn votes_are_true(self) -> bool {
        forall|e: Envelope| #[trigger]
            self.sent.contains(e) ==> match e.message {
                MessageView::VoteRequest(req) => {
                    &&& req.candidate_id == e.from
                    &&& e.from != e.to
                },
                MessageView::VoteResponse(resp) => resp.vote_granted ==> {
                    &&& self.has_ballot(e.from, resp.term, e.to)
                    &&& e.from != e.to
                },
                _ => true,
            }
    }

    /// A candidate has voted for itself, and so have all those in its tally.
    pub open spec fn tallies_are_true(self) -> bool {
        forall|id: NodeId|
            #![trigger self.nodes.contains_key(id)]
            self.nodes.contains_key(id) && self.nodes[id].role == Role::Candidate ==> {
                let node = self.nodes[id];
                &&& node.persistent.voted_for == Some(id)
                &&& node.leader_state is Some ==> forall|p: NodeId| #[trigger]
                    node.leader_state->0.voters().contains(p) ==> p != id && self.has_ballot(
                        p,
                        node.term(),
                        id,
                    )
            }
    }

    /// Whether `voters` is a majority of the cluster that has voted for
    /// `leader` in `term`.
    pub open spec fn elected_by(self, term: u64, leader: NodeId, voters: Set<NodeId>) -> bool {
        &&& voters.subset_of(self.nodes.dom())
        &&& 2 * voters.len() > self.nodes.dom().len()
        &&& forall|v: NodeId| #[trigger] voters.contains(v) ==> self.has_ballot(v, term, leader)
    }

    /// Every leader was elected by a majority in its term.
    pub open spec fn leaders_are_elected(self) -> bool {
        forall|term: u64, leader: NodeId| #[trigger]
            self.leaders.contains((term, leader)) ==> exists|voters: Set<NodeId>| #[trigger]
                self.elected_by(term, leader, voters)
    }

    /// A node that leads is among those that have led.
    pub open spec fn leaders_are_recorded(self) -> bool {
        forall|id: NodeId| #[trigger]
            self.nodes.contains_key(id) && self.nodes[id].role == Role::Leader
                ==> self.leaders.contains((self.nodes[id].term(), id))
    }

    pub open spec fn inv(self) -> bool {
        &&& self.membership()
        &&& self.ballots_kept()
        &&& self.votes_are_true()
        &&& self.tallies_are_true()
        &&& self.leaders_are_elected()
        &&& self.leaders_are_recorded()
    }
}

/// Two majorities of one cluster have a node in common.
pub proof fn majorities_meet(all: Set<NodeId>, a: Set<NodeId>, b: Set<NodeId>)
    requires
        all.finite(),
        a.subset_of(all),
        b.subset_of(all),
        2 * a.len() > all.len(),
        2 * b.len() > all.len(),
    ensures
        exists|v: NodeId| a.contains(v) && b.contains(v),
{
    if forall|v: NodeId| !(a.contains(v) && b.contains(v)) {
        vstd::set_lib::lemma_len_subset(a, all);
        vstd::set_lib::lemma_len_subset(b, all);
        assert(a.disjoint(b));
        vstd::set_lib::lemma_set_disjoint_lens(a, b);
        assert((a + b).subset_of(all));
        vstd::set_lib::lemma_len_subset(a + b, all);
    }
}

/// At most one node leads in a term: two nodes that have ever led in the same
/// term are the same.
pub proof fn one_leader_per_term(cluster: Cluster, term: u64, a: NodeId, b: NodeId)
    requires
        cluster.inv(),
        cluster.leaders.contains((term, a)),
        cluster.leaders.contains((term, b)),
    ensures
        a == b,
{
    let for_a = choose|voters: Set<NodeId>| cluster.elected_by(term, a, voters);
    let for_b = choose|voters: Set<NodeId>| cluster.elected_by(term, b, voters);
    assert(cluster.elected_by(term, a, for_a));
    assert(cluster.elected_by(term, b, for_b));
    majorities_meet(cluster.nodes.dom(), for_a, for_b);
    let v = choose|v: NodeId| for_a.contains(v) && for_b.contains(v);
    assert(cluster.has_ballot(v, term, a) && cluster.has_ballot(v, term, b));
}

/// What always holds does so from the start.
pub proof fn inv_holds_at_the_start(cluster: Cluster)
    requires
        cluster.init(),
    ensures
        cluster.inv(),
{
}

/// An event does not change who a node is.
proof fn identity_stays(node: NodeView, event: Event)
    ensures
        node.on(event).0.id == node.id,
        node.on(event).0.peers == node.peers,
        node.on(event).0.config == node.config,
{
}

/// What votes and vote requests a node sends.
proof fn messages_are_true(node: NodeView, event: Event, i: int)
    requires
        node.admits(event),
        0 <= i < node.on(event).1.messages.len(),
    ensures
        ({
            let (after, actions) = node.on(event);
            let (to, message) = actions.messages[i];
            match message {
                MessageView::VoteRequest(req) => req.candidate_id == node.id
                    && node.peers.contains(to),
                MessageView::VoteResponse(resp) => {
                    &&& event matches Event::VoteRequest(req) && req.candidate_id == to
                    &&& resp.vote_granted ==> resp.term == after.term()
                        && after.persistent.voted_for == Some(to)
                },
                _ => true,
            }
        }),
{
}

/// A candidate has voted for itself; its tally is empty, as it was, or as it
/// was with the vote that has just arrived.
proof fn candidates_are_true(node: NodeView, event: Event)
    requires
        node.admits(event),
        node.role == Role::Candidate ==> node.persistent.voted_for == Some(node.id),
        node.on(event).0.role == Role::Candidate,
    ensures
        ({
            let after = node.on(event).0;
            &&& after.persistent.voted_for == Some(node.id)
            &&& after.leader_state is Some ==> {
                &&& node.role == Role::Candidate
                &&& after.term() == node.term()
                &&& after.leader_state == node.leader_state || (event matches Event::VoteResponse(
                    from,
                    resp,
                ) && resp.vote_granted && resp.term == node.term() && after.leader_state == Some(
                    node.tally(from),
                ))
            }
        }),
{
}

/// Those in a tally were in it before, or are the one that was added.
proof fn tally_grows_by_one(node: NodeView, from: NodeId, p: NodeId)
    requires
        node.tally(from).voters().contains(p),
    ensures
        p == from || (node.leader_state is Some && node.leader_state->0.voters().contains(p)),
{
}

/// Whether the event is what a message of this cluster may be.
pub open spec fn may_arrive(cluster: Cluster, id: NodeId, event: Event) -> bool {
    match event {
        Event::VoteRequest(req) => req.candidate_id != id,
        Event::VoteResponse(from, resp) => resp.vote_granted ==> from != id && cluster.has_ballot(
            from,
            resp.term,
            id,
        ),
        _ => true,
    }
}

proof fn ballots_stay_kept(cluster: Cluster, id: NodeId, event: Event)
    requires
        cluster.inv(),
        cluster.can(id, event),
    ensures
        cluster.after(id, event).ballots_kept(),
        forall|v: NodeId, t: u64, c: NodeId|
            cluster.has_ballot(v, t, c) ==> #[trigger] cluster.after(id, event).has_ballot(v, t, c),
{
    let node = cluster.nodes[id];
    let next = cluster.after(id, event);
    let after = node.on(event).0;
    crate::laws::term_never_falls(node, event);
    if node.persistent.voted_for is Some && after.term() == node.term() {
        crate::laws::one_vote_per_term(node, event);
    }
    assert forall|v: NodeId, t: u64, c: NodeId| #[trigger]
        next.has_ballot(v, t, c) implies cluster.has_ballot(v, t, c) || (v == id && t
        == after.term() && after.persistent.voted_for == Some(c)) by {}
    assert forall|voter: NodeId, term: u64, a: NodeId, b: NodeId|
        #![trigger next.has_ballot(voter, term, a), next.has_ballot(voter, term, b)]
        next.has_ballot(voter, term, a) && next.has_ballot(voter, term, b) implies a == b by {
        if cluster.has_ballot(voter, term, a) && cluster.has_ballot(voter, term, b) {
        }
    }
    assert forall|voter: NodeId, term: u64, candidate: NodeId| #[trigger]
        next.has_ballot(voter, term, candidate) implies {
        let n = next.nodes[voter];
        &&& next.nodes.contains_key(voter)
        &&& n.term() > term || (n.term() == term && n.persistent.voted_for == Some(candidate))
    } by {
        if cluster.has_ballot(voter, term, candidate) {
        }
    }
    assert forall|other: NodeId| #[trigger]
        next.nodes.contains_key(other) && next.nodes[other].persistent.voted_for is Some implies
        next.has_ballot(other, next.nodes[other].term(), next.nodes[other].persistent.voted_for->0)
        by {
        if other != id {
            assert(cluster.nodes.contains_key(other));
        }
    }
}

proof fn votes_stay_true(cluster: Cluster, id: NodeId, event: Event)
    requires
        cluster.inv(),
        cluster.can(id, event),
        may_arrive(cluster, id, event),
    ensures
        cluster.after(id, event).votes_are_true(),
{
    let node = cluster.nodes[id];
    let next = cluster.after(id, event);
    let (after, actions) = node.on(event);
    ballots_stay_kept(cluster, id, event);
    assert forall|e: Envelope| #[trigger] next.sent.contains(e) implies match e.message {
        MessageView::VoteRequest(req) => req.candidate_id == e.from && e.from != e.to,
        MessageView::VoteResponse(resp) => resp.vote_granted ==> next.has_ballot(
            e.from,
            resp.term,
            e.to,
        ) && e.from != e.to,
        _ => true,
    } by {
        if !cluster.sent.contains(e) {
            let envelopes = actions.messages.map_values(
                |m: (NodeId, MessageView)| Envelope { from: id, to: m.0, message: m.1 },
            );
            assert(envelopes.to_set().contains(e));
            let i = envelopes.index_of(e);
            assert(envelopes[i] == e);
            messages_are_true(node, event, i);
            assert(node.peers.to_set() == cluster.nodes.dom().remove(id));
            assert(node.peers.contains(e.to) ==> node.peers.to_set().contains(e.to));
        }
    }
}

proof fn tallies_stay_true(cluster: Cluster, id: NodeId, event: Event)
    requires
        cluster.inv(),
        cluster.can(id, event),
        may_arrive(cluster, id, event),
    ensures
        cluster.after(id, event).tallies_are_true(),
{
    let node = cluster.nodes[id];
    let next = cluster.after(id, event);
    let after = node.on(event).0;
    ballots_stay_kept(cluster, id, event);
    assert(cluster.nodes.contains_key(id));
    if after.role == Role::Candidate {
        candidates_are_true(node, event);
        if after.leader_state is Some {
            assert forall|p: NodeId| #[trigger]
                after.leader_state->0.voters().contains(p) implies p != id && next.has_ballot(
                p,
                after.term(),
                id,
            ) by {
                if after.leader_state != node.leader_state {
                    let from = event->VoteResponse_0;
                    tally_grows_by_one(node, from, p);
                    if p == from {
                        assert(cluster.has_ballot(p, node.term(), id));
                    } else {
                        assert(node.leader_state->0.voters().contains(p));
                        assert(cluster.has_ballot(p, node.term(), id));
                    }
                } else {
                    assert(node.leader_state->0.voters().contains(p));
                    assert(cluster.has_ballot(p, node.term(), id));
                }
            }
        }
    }
    assert forall|other: NodeId|
        #![trigger next.nodes.contains_key(other)]
        next.nodes.contains_key(other) && next.nodes[other].role == Role::Candidate implies {
        let n = next.nodes[other];
        &&& n.persistent.voted_for == Some(other)
        &&& n.leader_state is Some ==> forall|p: NodeId| #[trigger]
            n.leader_state->0.voters().contains(p) ==> p != other && next.has_ballot(
                p,
                n.term(),
                other,
            )
    } by {
        if other != id {
            assert(cluster.nodes.contains_key(other));
            let n = next.nodes[other];
            if n.leader_state is Some {
                assert forall|p: NodeId| #[trigger]
                    n.leader_state->0.voters().contains(p) implies p != other && next.has_ballot(
                    p,
                    n.term(),
                    other,
                ) by {
                    assert(cluster.has_ballot(p, n.term(), other));
                }
            }
        }
    }
}

/// A node that has just won an election has a majority of the votes.
proof fn winner_is_elected(cluster: Cluster, id: NodeId, event: Event) -> (voters: Set<NodeId>)
    requires
        cluster.inv(),
        cluster.can(id, event),
        may_arrive(cluster, id, event),
        cluster.nodes[id].role != Role::Leader,
        cluster.nodes[id].on(event).0.role == Role::Leader,
    ensures
        cluster.after(id, event).elected_by(cluster.nodes[id].on(event).0.term(), id, voters),
{
    let node = cluster.nodes[id];
    let next = cluster.after(id, event);
    let after = node.on(event).0;
    let all = cluster.nodes.dom();
    ballots_stay_kept(cluster, id, event);
    crate::laws::leadership_needs_a_majority(node, event);
    assert(cluster.nodes.contains_key(id));
    assert(next.nodes.dom() =~= all);
    assert(after.persistent.voted_for == Some(id));
    assert(next.has_ballot(id, after.term(), id));
    node.config.quorums_overlap();
    match event {
        Event::VoteResponse(from, resp) => {
            let others = node.tally(from).voters();
            let voters = others.insert(id);
            assert forall|v: NodeId| #[trigger] others.contains(v) implies v != id
                && next.has_ballot(v, after.term(), id) by {
                tally_grows_by_one(node, from, v);
                assert(cluster.has_ballot(v, node.term(), id));
            }
            assert forall|v: NodeId| voters.contains(v) implies all.contains(v) by {
                assert(next.has_ballot(v, after.term(), id));
                assert(next.nodes.contains_key(v));
            }
            vstd::set_lib::lemma_len_subset(voters, all);
            assert(others =~= voters.remove(id));
            assert(voters.len() == others.len() + 1);
            voters
        },
        _ => {
            let voters = set![id];
            assert(node.peers.to_set() == all.remove(id));
            assert(all =~= voters) by {
                assert forall|v: NodeId| all.contains(v) implies v == id by {
                    if v != id {
                        assert(all.remove(id).contains(v));
                        assert(node.peers.contains(v));
                    }
                }
            }
            voters
        },
    }
}

proof fn leaders_stay_elected(cluster: Cluster, id: NodeId, event: Event)
    requires
        cluster.inv(),
        cluster.can(id, event),
        may_arrive(cluster, id, event),
    ensures
        cluster.after(id, event).leaders_are_elected(),
        cluster.after(id, event).leaders_are_recorded(),
{
    let node = cluster.nodes[id];
    let next = cluster.after(id, event);
    let after = node.on(event).0;
    ballots_stay_kept(cluster, id, event);
    assert(cluster.nodes.contains_key(id));
    assert(next.nodes.dom() =~= cluster.nodes.dom());
    assert forall|term: u64, leader: NodeId| #[trigger]
        next.leaders.contains((term, leader)) implies exists|voters: Set<NodeId>| #[trigger]
        next.elected_by(term, leader, voters) by {
        if cluster.leaders.contains((term, leader)) {
            let voters = choose|voters: Set<NodeId>| cluster.elected_by(term, leader, voters);
            assert(cluster.elected_by(term, leader, voters));
            assert(next.elected_by(term, leader, voters)) by {
                assert forall|v: NodeId| #[trigger] voters.contains(v) implies next.has_ballot(
                    v,
                    term,
                    leader,
                ) by {
                    assert(cluster.has_ballot(v, term, leader));
                }
            }
        } else {
            assert(leader == id && term == after.term());
            if node.role == Role::Leader {
                assert(after.term() == node.term());
            } else {
                let voters = winner_is_elected(cluster, id, event);
                assert(next.elected_by(term, leader, voters));
            }
        }
    }
    assert forall|other: NodeId| #[trigger]
        next.nodes.contains_key(other) && next.nodes[other].role == Role::Leader implies
        next.leaders.contains((next.nodes[other].term(), other)) by {
        if other != id {
            assert(cluster.nodes.contains_key(other));
        }
    }
}

pub(crate) proof fn event_keeps_inv(cluster: Cluster, id: NodeId, event: Event)
    requires
        cluster.inv(),
        cluster.can(id, event),
        may_arrive(cluster, id, event),
    ensures
        cluster.after(id, event).inv(),
{
    let next = cluster.after(id, event);
    identity_stays(cluster.nodes[id], event);
    assert(cluster.nodes.contains_key(id));
    assert(next.nodes.dom() =~= cluster.nodes.dom());
    assert(next.membership()) by {
        assert forall|other: NodeId| #[trigger] next.nodes.contains_key(other) implies {
            &&& next.nodes[other].id == other
            &&& next.nodes[other].peers.to_set() == next.nodes.dom().remove(other)
            &&& next.nodes[other].config.cluster_size == next.nodes.dom().len()
        } by {
            assert(cluster.nodes.contains_key(other));
        }
    }
    ballots_stay_kept(cluster, id, event);
    votes_stay_true(cluster, id, event);
    tallies_stay_true(cluster, id, event);
    leaders_stay_elected(cluster, id, event);
}

/// What always holds is kept by a change to one node that leaves its term, its
/// vote and its membership alone and gives it no leadership or candidacy that
/// it did not have.
proof fn quiet_change_keeps_inv(cluster: Cluster, id: NodeId, node: NodeView, sent: Set<Envelope>)
    requires
        cluster.inv(),
        cluster.nodes.contains_key(id),
        node.id == id,
        node.peers == cluster.nodes[id].peers,
        node.config == cluster.nodes[id].config,
        node.term() == cluster.nodes[id].term(),
        node.persistent.voted_for == cluster.nodes[id].persistent.voted_for,
        node.role == Role::Follower || (node.role == cluster.nodes[id].role && node.leader_state
            == cluster.nodes[id].leader_state),
        forall|e: Envelope| #[trigger]
            sent.contains(e) ==> cluster.sent.contains(e)
                || e.message is InstallSnapshotRequest,
    ensures
        (Cluster { nodes: cluster.nodes.insert(id, node), sent, ..cluster }).inv(),
{
    let next = Cluster { nodes: cluster.nodes.insert(id, node), sent, ..cluster };
    assert(next.nodes.dom() =~= cluster.nodes.dom());
    assert forall|v: NodeId, t: u64, c: NodeId| #[trigger]
        next.has_ballot(v, t, c) == cluster.has_ballot(v, t, c) by {}
    assert forall|other: NodeId| #[trigger] next.nodes.contains_key(other) implies {
        &&& cluster.nodes.contains_key(other)
        &&& next.nodes[other].term() == cluster.nodes[other].term()
        &&& next.nodes[other].persistent.voted_for == cluster.nodes[other].persistent.voted_for
    } by {
        assert(cluster.nodes.contains_key(other));
    }
    assert(next.ballots_kept()) by {
        assert forall|voter: NodeId, term: u64, candidate: NodeId| #[trigger]
            next.has_ballot(voter, term, candidate) implies {
            let n = next.nodes[voter];
            &&& next.nodes.contains_key(voter)
            &&& n.term() > term || (n.term() == term && n.persistent.voted_for == Some(candidate))
        } by {
            assert(cluster.has_ballot(voter, term, candidate));
        }
        assert forall|voter: NodeId, term: u64, a: NodeId, b: NodeId|
            #![trigger next.has_ballot(voter, term, a), next.has_ballot(voter, term, b)]
            next.has_ballot(voter, term, a) && next.has_ballot(voter, term, b) implies a == b by {
            assert(cluster.has_ballot(voter, term, a) && cluster.has_ballot(voter, term, b));
        }
    }
    assert(next.leaders_are_elected()) by {
        assert forall|term: u64, leader: NodeId| #[trigger]
            next.leaders.contains((term, leader)) implies exists|voters: Set<NodeId>| #[trigger]
            next.elected_by(term, leader, voters) by {
            assert(cluster.leaders.contains((term, leader)));
            let voters = choose|voters: Set<NodeId>| cluster.elected_by(term, leader, voters);
            assert(cluster.elected_by(term, leader, voters));
            assert(next.elected_by(term, leader, voters));
        }
    }
}

/// What always holds is kept by every step.
pub proof fn inv_is_kept(cluster: Cluster, next: Cluster, step: Step)
    requires
        cluster.inv(),
        cluster.steps_to(next, step),
    ensures
        next.inv(),
{
    match step {
        Step::ElectionTimeout(id) => event_keeps_inv(cluster, id, Event::ElectionTimeout),
        Step::Tick(id) => event_keeps_inv(cluster, id, Event::Tick),
        Step::Client(id, req) => event_keeps_inv(cluster, id, Event::ClientRequest(req)),
        Step::Deliver(envelope) => {
            let event = arrival(envelope)->0;
            assert(cluster.sent.contains(envelope));
            event_keeps_inv(cluster, envelope.to, event);
        },
        Step::SendSnapshot(id, to, snapshot) => {
            assert(cluster.nodes.insert(id, cluster.nodes[id]) =~= cluster.nodes);
            quiet_change_keeps_inv(cluster, id, cluster.nodes[id], next.sent);
        },
        Step::Compact(id, index) => {
            quiet_change_keeps_inv(
                cluster,
                id,
                cluster.nodes[id].compact_log(index),
                cluster.sent,
            );
        },
        Step::Restart(id) => {
            quiet_change_keeps_inv(cluster, id, restarted(cluster.nodes[id]), cluster.sent);
        },
        Step::RefuseSnapshot(envelope) => {
            let req = envelope.message->InstallSnapshotRequest_0;
            event_keeps_inv(cluster, envelope.to, written(req, false));
        },
        Step::StopInstalling(envelope, installed) => {
            let req = envelope.message->InstallSnapshotRequest_0;
            let event = written(req, installed);
            let id = envelope.to;
            let after = cluster.after(id, event);
            event_keeps_inv(cluster, id, event);
            assert(after.nodes.contains_key(id));
            quiet_change_keeps_inv(after, id, restarted(after.nodes[id]), cluster.sent);
        },
    }
}

/// A run of a cluster: it starts fresh, and each state follows from the one
/// before by a step.
pub open spec fn is_run(run: Seq<Cluster>) -> bool {
    &&& run.len() > 0
    &&& run[0].init()
    &&& forall|i: int| 0 < i < run.len() ==> (#[trigger] run[i]).follows(run[i - 1])
}

/// Two leaders cannot exist in the same term: in no run of a cluster, whatever
/// messages are lost, delayed or duplicated and whichever nodes restart, have
/// two different nodes led in one term by the time of any state.
pub proof fn two_leaders_never_share_a_term(
    run: Seq<Cluster>,
    i: int,
    term: u64,
    a: NodeId,
    b: NodeId,
)
    requires
        is_run(run),
        0 <= i < run.len(),
        run[i].leaders.contains((term, a)),
        run[i].leaders.contains((term, b)),
    ensures
        a == b,
{
    inv_holds_throughout(run, i);
    one_leader_per_term(run[i], term, a, b);
}

/// The same of the nodes that lead in one state of a run.
pub proof fn current_leaders_differ_in_term(run: Seq<Cluster>, i: int, a: NodeId, b: NodeId)
    requires
        is_run(run),
        0 <= i < run.len(),
        run[i].nodes.contains_key(a),
        run[i].nodes.contains_key(b),
        run[i].nodes[a].role == Role::Leader,
        run[i].nodes[b].role == Role::Leader,
        run[i].nodes[a].term() == run[i].nodes[b].term(),
    ensures
        a == b,
{
    inv_holds_throughout(run, i);
    one_leader_per_term(run[i], run[i].nodes[a].term(), a, b);
}

proof fn inv_holds_throughout(run: Seq<Cluster>, i: int)
    requires
        is_run(run),
        0 <= i < run.len(),
    ensures
        run[i].inv(),
    decreases i,
{
    if i == 0 {
        inv_holds_at_the_start(run[0]);
    } else {
        inv_holds_throughout(run, i - 1);
        let before = run[i - 1];
        let after = run[i];
        assert(after.follows(before));
        let step = choose|step: Step| before.steps_to(after, step);
        inv_is_kept(before, after, step);
    }
}

} // verus!
