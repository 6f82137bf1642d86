//! Whole clusters in one process: actors, a network that may lose messages, and
//! disks that survive a crash.

use std::collections::{HashMap, VecDeque};

use raft_kv::actor::{NodeActor, Reply};
use raft_kv::agenda::{Agenda, Outcome, Stage, Task};
use raft_kv::message::{
    ClientOperation, ClientRequest, ClientResponse, ClientResult, InstallSnapshotRequest, NodeId,
    RaftMessage, VoteRequest,
};
use raft_kv::storage::{store, SnapshotFile, StoredState};
use raft_kv::transport::{Incoming, Outgoing};
use raft_kv::{Actions, RaftConfig, RaftNode, Role};

#[derive(Default)]
struct Disk {
    state: Option<StoredState>,
    snapshot: Option<SnapshotFile>,
}

fn copy_state(state: &StoredState) -> StoredState {
    StoredState {
        current_term: state.current_term,
        voted_for: state.voted_for,
        log_entries: state.log_entries.clone(),
    }
}

fn copy_snapshot(file: &SnapshotFile) -> SnapshotFile {
    SnapshotFile {
        last_included_index: file.last_included_index,
        last_included_term: file.last_included_term,
        kv_data: file.kv_data.clone(),
    }
}

fn snapshot_bytes(file: &SnapshotFile) -> Vec<u8> {
    let mut bytes = Vec::new();
    for (key, value) in &file.kv_data {
        for text in [key, value] {
            bytes.push(text.len() as u8);
            bytes.extend_from_slice(text.as_bytes());
        }
    }
    bytes
}

fn snapshot_pairs(bytes: &[u8]) -> Vec<(String, String)> {
    let mut texts = Vec::new();
    let mut at = 0;
    while at < bytes.len() {
        let end = at + 1 + bytes[at] as usize;
        texts.push(String::from_utf8(bytes[at + 1..end].to_vec()).unwrap());
        at = end;
    }
    texts.chunks(2).map(|pair| (pair[0].clone(), pair[1].clone())).collect()
}

struct Cluster {
    ids: Vec<NodeId>,
    actors: HashMap<NodeId, NodeActor<u64>>,
    disks: HashMap<NodeId, Disk>,
    network: VecDeque<(NodeId, Outgoing)>,
    replies: HashMap<u64, ClientResponse>,
    next_reply: u64,
    /// Messages between these nodes and all others are lost.
    isolated: Vec<NodeId>,
    /// Nodes that cannot write their state.
    full_disks: Vec<NodeId>,
    /// One message in this many is lost, by a fixed pattern.
    loss: Option<u64>,
    seed: u64,
}

impl Cluster {
    fn start(n: u64) -> Self {
        let mut cluster = Cluster {
            ids: (1..=n).collect(),
            actors: HashMap::new(),
            disks: HashMap::new(),
            network: VecDeque::new(),
            replies: HashMap::new(),
            next_reply: 0,
            isolated: Vec::new(),
            full_disks: Vec::new(),
            loss: None,
            seed: 7,
        };
        for id in 1..=n {
            cluster.disks.insert(id, Disk::default());
            cluster.boot(id);
        }
        cluster
    }

    fn boot(&mut self, id: NodeId) {
        let peers = self.ids.iter().copied().filter(|peer| *peer != id).collect();
        let disk = &self.disks[&id];
        let actor = NodeActor::new(
            id,
            peers,
            RaftConfig::default_local(),
            disk.snapshot.as_ref().map(copy_snapshot),
            disk.state.as_ref().map(copy_state),
        );
        self.actors.insert(id, actor);
    }

    fn crash(&mut self, id: NodeId) {
        self.actors.remove(&id);
    }

    fn lost(&mut self, from: NodeId, to: NodeId) -> bool {
        if self.isolated.contains(&from) || self.isolated.contains(&to) {
            return true;
        }
        self.seed = self.seed.wrapping_mul(6364136223846793005).wrapping_add(1442695040888963407);
        match self.loss {
            Some(one_in) => (self.seed >> 33) % one_in == 0,
            None => false,
        }
    }

    fn answer(&mut self, replies: Vec<Reply<u64>>) {
        for (token, response) in replies {
            assert!(self.replies.insert(token, response).is_none(), "answered twice");
        }
    }

    fn perform(
        &mut self,
        id: NodeId,
        before: RaftNode,
        actor: NodeActor<u64>,
        actions: Actions,
    ) {
        let mut agenda = Agenda::new(before, actor, actions);
        let mut outcome = Outcome::Done;
        let mut sent = false;
        loop {
            let (next, task) = agenda.step(outcome);
            agenda = next;
            outcome = Outcome::Done;
            match task {
                Task::Persist(state) => {
                    if let Stage::Persisting { .. } = &agenda.stage {
                        assert!(!sent, "state goes to disk before messages go out");
                    }
                    if self.full_disks.contains(&id) {
                        outcome = Outcome::Failed;
                    } else {
                        self.disks.get_mut(&id).unwrap().state = Some(store(&state));
                    }
                }
                Task::Send(outgoing) => {
                    sent = true;
                    self.network.push_back((id, outgoing));
                }
                Task::Install(req) => {
                    let pairs = snapshot_pairs(&req.data);
                    self.disks.get_mut(&id).unwrap().snapshot = Some(SnapshotFile {
                        last_included_index: req.last_included_index,
                        last_included_term: req.last_included_term,
                        kv_data: pairs.clone(),
                    });
                    outcome = Outcome::Decoded { kv_data: pairs, saved: true };
                }
                Task::SendSnapshot(to) => {
                    let file = self.disks[&id].snapshot.as_ref().expect("a snapshot to send");
                    let message = agenda.actor.snapshot_message(
                        file.last_included_index,
                        file.last_included_term,
                        snapshot_bytes(file),
                    );
                    self.network.push_back((id, Outgoing { to, message }));
                }
                Task::Answer(replies) => self.answer(replies),
                Task::Save(file) => self.disks.get_mut(&id).unwrap().snapshot = Some(file),
                Task::Rest { .. } => {
                    self.actors.insert(id, agenda.actor);
                    return;
                }
            }
        }
    }

    fn deliver_all(&mut self) {
        let mut steps = 0;
        while let Some((from, outgoing)) = self.network.pop_front() {
            steps += 1;
            assert!(steps < 100_000);
            if self.lost(from, outgoing.to) {
                continue;
            }
            let Some(actor) = self.actors.remove(&outgoing.to) else {
                continue;
            };
            assert!(actor.raft.can_handle(from, &outgoing.message));
            let incoming = Incoming { from, message: outgoing.message };
            let before = actor.raft.clone();
            match actor.handle_incoming(incoming) {
                (actor, Some(actions)) => self.perform(outgoing.to, before, actor, actions),
                (actor, None) => {
                    self.actors.insert(outgoing.to, actor);
                }
            }
        }
    }

    fn time_out(&mut self, id: NodeId) {
        let actor = self.actors.remove(&id).unwrap();
        assert!(actor.raft.can_time_out());
        let before = actor.raft.clone();
        let (actor, actions) = actor.handle_election_timeout();
        self.perform(id, before, actor, actions);
        self.deliver_all();
    }

    fn heartbeat(&mut self) {
        for id in self.ids.clone() {
            let Some(actor) = self.actors.remove(&id) else {
                continue;
            };
            let before = actor.raft.clone();
            match actor.handle_heartbeat() {
                (actor, Some(actions)) => self.perform(id, before, actor, actions),
                (actor, None) => {
                    self.actors.insert(id, actor);
                }
            }
        }
        self.deliver_all();
    }

    fn leader(&self) -> Option<NodeId> {
        let mut leaders: Vec<(u64, NodeId)> = self
            .actors
            .iter()
            .filter(|(id, actor)| {
                actor.raft.role == Role::Leader && !self.isolated.contains(id)
            })
            .map(|(id, actor)| (actor.raft.current_term(), *id))
            .collect();
        leaders.sort();
        leaders.last().map(|(_, id)| *id)
    }

    fn request(&mut self, id: NodeId, operation: ClientOperation) -> u64 {
        let token = self.next_reply;
        self.next_reply += 1;
        let req = ClientRequest { id: token, operation };
        let actor = self.actors.remove(&id).unwrap();
        assert!(actor.raft.can_handle(0, &RaftMessage::ClientRequest(req.clone())));
        let before = actor.raft.clone();
        let (actor, actions, replies) = actor.handle_client(req, token);
        self.answer(replies);
        self.perform(id, before, actor, actions);
        self.deliver_all();
        token
    }

    /// Sends an operation to the leader until it is carried out.
    fn send(&mut self, operation: ClientOperation) -> Option<String> {
        for _ in 0..50 {
            let Some(leader) = self.leader() else {
                let id = self.ids[(self.seed % self.ids.len() as u64) as usize];
                if self.actors.contains_key(&id) && !self.isolated.contains(&id) {
                    self.time_out(id);
                } else {
                    self.seed += 1;
                }
                continue;
            };
            let token = self.request(leader, operation.clone());
            for _ in 0..50 {
                if let Some(response) = self.replies.get(&token) {
                    assert_eq!(response.id, token);
                    match &response.result {
                        ClientResult::Success(value) => return value.clone(),
                        _ => break,
                    }
                }
                self.heartbeat();
            }
        }
        panic!("could not reach a leader after retries");
    }

    fn put(&mut self, key: &str, value: &str) -> Option<String> {
        self.send(ClientOperation::Put { key: key.into(), value: value.into() })
    }

    fn get(&mut self, key: &str) -> Option<String> {
        self.send(ClientOperation::Get { key: key.into() })
    }

    fn delete(&mut self, key: &str) -> Option<String> {
        self.send(ClientOperation::Delete { key: key.into() })
    }

    fn assert_agreement(&self) {
        for a in self.actors.values() {
            for b in self.actors.values() {
                let (la, lb) = (&a.raft.persistent.log, &b.raft.persistent.log);
                let committed = a.raft.volatile.commit_index.min(b.raft.volatile.commit_index);
                for index in 1..=committed {
                    if let (Some(x), Some(y)) = (la.get(index), lb.get(index)) {
                        assert_eq!(x.term, y.term, "committed entries differ at {index}");
                    }
                }
            }
        }
    }
}

#[test]
fn single_node_put_get_delete() {
    let mut c = Cluster::start(1);
    c.time_out(1);

    assert_eq!(c.put("x", "hello"), None, "first PUT returns no prev");
    assert_eq!(c.get("x"), Some("hello".into()));
    assert_eq!(c.put("x", "world"), Some("hello".into()), "overwrite returns prev");
    assert_eq!(c.get("x"), Some("world".into()));
    assert_eq!(c.delete("x"), Some("world".into()));
    assert_eq!(c.get("x"), None, "key absent after delete");
}

#[test]
fn three_node_cluster_basic_ops() {
    let mut c = Cluster::start(3);
    c.time_out(1);

    // Write multiple keys.
    c.put("a", "1");
    c.put("b", "2");
    c.put("c", "3");

    // Read them back.
    assert_eq!(c.get("a"), Some("1".into()));
    assert_eq!(c.get("b"), Some("2".into()));
    assert_eq!(c.get("c"), Some("3".into()));

    // Delete one; others untouched.
    assert_eq!(c.delete("b"), Some("2".into()));
    assert_eq!(c.get("b"), None);
    assert_eq!(c.get("a"), Some("1".into()));
    assert_eq!(c.get("c"), Some("3".into()));
}

#[test]
fn three_node_cluster_concurrent_writes() {
    let mut c = Cluster::start(3);
    c.time_out(2);

    // All writes are under way before the first message is delivered.
    let mut tokens = Vec::new();
    for i in 0u64..20 {
        let operation =
            ClientOperation::Put { key: format!("k{i}"), value: i.to_string() };
        let req = ClientRequest { id: i, operation };
        let actor = c.actors.remove(&2).unwrap();
        let before = actor.raft.clone();
        let (actor, actions, replies) = actor.handle_client(req, 1000 + i);
        assert!(replies.is_empty());
        c.perform(2, before, actor, actions);
        tokens.push(1000 + i);
    }
    c.deliver_all();
    assert!(tokens.iter().all(|token| c.replies.contains_key(token)));

    // All keys should be readable.
    for i in 0u64..20 {
        assert_eq!(
            c.get(&format!("k{i}")),
            Some(i.to_string()),
            "key k{i} missing after concurrent writes"
        );
    }
}

#[test]
fn throughput_sequential_puts() {
    const N: u64 = 50;
    let mut c = Cluster::start(3);
    for i in 0..N {
        c.put(&format!("bench-{i}"), &i.to_string());
    }
    assert_eq!(c.get("bench-0"), Some("0".into()));
    assert_eq!(c.get(&format!("bench-{}", N - 1)), Some((N - 1).to_string()));
}

#[test]
fn cluster_converges_with_20_percent_message_drops() {
    let mut c = Cluster::start(3);
    c.loss = Some(5);
    for i in 0u64..20 {
        c.put(&format!("chaos-key-{i}"), &i.to_string());
    }
    for i in 0u64..20 {
        assert_eq!(
            c.get(&format!("chaos-key-{i}")),
            Some(i.to_string()),
            "chaos-key-{i} missing or wrong after 20% drop"
        );
    }
    c.assert_agreement();
}

#[test]
fn single_node_chaos_still_works() {
    let mut c = Cluster::start(1);
    c.loss = Some(5);
    c.put("foo", "bar");
    assert_eq!(c.get("foo"), Some("bar".into()));
}

#[test]
fn leader_crash_loses_no_committed_write() {
    let mut c = Cluster::start(3);
    c.time_out(1);
    c.put("k", "v");
    c.crash(1);
    c.time_out(2);
    assert_eq!(c.leader(), Some(2));
    assert_eq!(c.get("k"), Some("v".into()));
    c.put("k", "w");
    // The old leader comes back and catches up.
    c.boot(1);
    c.heartbeat();
    c.heartbeat();
    assert_eq!(c.actors[&1].raft.role, Role::Follower);
    assert_eq!(c.actors[&1].kv.get("k"), Some("w"));
    c.assert_agreement();
}

#[test]
fn whole_cluster_restarts() {
    let mut c = Cluster::start(3);
    c.time_out(1);
    for i in 0..5 {
        c.put(&format!("k{i}"), &format!("{i}"));
    }
    for id in 1..=3 {
        c.crash(id);
    }
    for id in 1..=3 {
        c.boot(id);
        assert_eq!(c.actors[&id].raft.volatile.last_applied, 0);
    }
    c.time_out(3);
    for i in 0..5 {
        assert_eq!(c.get(&format!("k{i}")), Some(format!("{i}")));
    }
}

#[test]
fn minority_partition_commits_nothing() {
    let mut c = Cluster::start(3);
    c.time_out(3);
    c.put("k", "before");
    c.isolated = vec![3];
    // The old leader still takes a write, which it cannot commit.
    let lost =
        c.request(3, ClientOperation::Put { key: "k".into(), value: "lost".into() });
    let stale = c.request(3, ClientOperation::Get { key: "k".into() });
    c.time_out(1);
    assert_eq!(c.leader(), Some(1));
    c.put("k", "after");
    c.isolated.clear();
    for _ in 0..4 {
        c.heartbeat();
    }
    assert_eq!(c.actors[&3].raft.role, Role::Follower);
    assert_eq!(c.actors[&3].kv.get("k"), Some("after"));
    assert!(!c.replies.contains_key(&lost), "a write that was replaced is not acknowledged");
    assert!(!c.replies.contains_key(&stale), "a deposed leader serves no reads");
    c.assert_agreement();
}

#[test]
fn requests_to_followers_are_redirected() {
    let mut c = Cluster::start(3);
    c.time_out(1);
    let token = c.request(2, ClientOperation::Get { key: "k".into() });
    match &c.replies[&token].result {
        ClientResult::NotLeader { leader_hint } => assert_eq!(*leader_hint, Some(1)),
        other => panic!("unexpected {other:?}"),
    }
}

#[test]
fn long_logs_are_compacted_and_snapshots_sent() {
    let mut c = Cluster::start(3);
    c.time_out(1);
    c.isolated = vec![3];
    for i in 0..150 {
        c.put(&format!("k{}", i % 10), &format!("{i}"));
    }
    let base = c.actors[&1].raft.log().snapshot_last_index();
    assert!(base >= 100, "the log was compacted at {base}");
    assert!(c.actors[&1].raft.log().len() <= 101);
    assert_eq!(c.actors[&3].raft.log().snapshot_last_index(), 0);
    c.isolated.clear();
    for _ in 0..6 {
        c.heartbeat();
    }
    assert!(c.actors[&3].raft.log().snapshot_last_index() >= 100);
    for i in 140..150 {
        let (key, value) = (format!("k{}", i % 10), format!("{i}"));
        assert_eq!(c.actors[&3].kv.get(&key), Some(value.as_str()));
    }
    // A node that restarts takes the state machine from its snapshot.
    c.crash(3);
    c.boot(3);
    let applied = c.actors[&3].raft.volatile.last_applied;
    assert_eq!(applied, c.actors[&3].raft.log().snapshot_last_index());
    c.heartbeat();
    c.heartbeat();
    assert_eq!(c.actors[&3].kv.get("k9"), Some("149"));
    c.assert_agreement();
}

#[test]
fn metrics_follow_the_node() {
    let mut c = Cluster::start(3);
    c.time_out(1);
    c.put("a", "1");
    let metrics = c.actors[&1].metrics();
    assert_eq!(metrics.term, 1);
    assert_eq!(metrics.role, 2);
    assert_eq!(metrics.commit_index, 2);
    assert_eq!(metrics.last_applied, 2);
    assert_eq!(metrics.log_length, 2);
    assert_eq!(metrics.pending_writes, 0);
    assert_eq!(metrics.pending_reads, 0);
    assert!(metrics.messages_sent >= 4);
    assert!(metrics.messages_received >= 4);
    c.isolated = vec![1];
    c.request(1, ClientOperation::Put { key: "b".into(), value: "2".into() });
    c.request(1, ClientOperation::Get { key: "b".into() });
    let metrics = c.actors[&1].metrics();
    assert_eq!(metrics.pending_writes, 1);
    assert_eq!(metrics.pending_reads, 1);
    assert_eq!(metrics.log_length, 3);
}

#[test]
fn client_answers_are_no_business_of_a_server() {
    let actor: NodeActor<u64> = NodeActor::new(1, vec![2], RaftConfig::default_local(), None, None);
    let response = ClientResponse { id: 1, result: ClientResult::Success(None) };
    let incoming = Incoming { from: 2, message: RaftMessage::ClientResponse(response) };
    let (actor, actions) = actor.handle_incoming(incoming);
    assert!(actions.is_none());
    assert_eq!(actor.metrics.messages_received, 1);
}

/// The names of an agenda's tasks, where those of one name fail.
fn tasks_of(mut agenda: Agenda<u64>, failing: &str) -> (NodeActor<u64>, Vec<&'static str>) {
    let mut names = Vec::new();
    let mut outcome = Outcome::Done;
    loop {
        let (next, task) = agenda.step(outcome);
        agenda = next;
        let name = match &task {
            Task::Persist(_) => "persist",
            Task::Send(_) => "send",
            Task::Install(_) => "install",
            Task::SendSnapshot(_) => "share",
            Task::Answer(_) => "answer",
            Task::Save(_) => "save",
            Task::Rest { .. } => "rest",
        };
        names.push(name);
        outcome = match task {
            Task::Install(_) if failing == "install" => Outcome::Failed,
            Task::Install(_) if failing == "write" => {
                Outcome::Decoded { kv_data: vec![("k".into(), "v".into())], saved: false }
            }
            Task::Install(_) => Outcome::Decoded {
                kv_data: vec![("k".into(), "v".into())],
                saved: true,
            },
            Task::Rest { .. } => return (agenda.actor, names),
            _ if name == failing => Outcome::Failed,
            _ => Outcome::Done,
        };
    }
}

type Opened = (RaftNode, NodeActor<u64>, Actions);

fn agenda_of(opened: Opened) -> Agenda<u64> {
    Agenda::new(opened.0, opened.1, opened.2)
}

fn put_request(id: u64) -> ClientRequest {
    ClientRequest {
        id,
        operation: ClientOperation::Put { key: "k".into(), value: id.to_string() },
    }
}

fn single_leader() -> NodeActor<u64> {
    let actor = NodeActor::new(1, vec![], RaftConfig::default_local(), None, None);
    let before = actor.raft.clone();
    let (actor, actions) = actor.handle_election_timeout();
    tasks_of(agenda_of((before, actor, actions)), "").0
}

fn long_leader() -> Opened {
    let mut actor = single_leader();
    for i in 0..99 {
        let before = actor.raft.clone();
        let (next, actions, _) = actor.handle_client(put_request(i), i);
        actor = tasks_of(agenda_of((before, next, actions)), "").0;
    }
    assert_eq!(actor.raft.log().len(), 100);
    let operation = ClientOperation::Delete { key: "k".into() };
    let before = actor.raft.clone();
    let (actor, actions, _) = actor.handle_client(ClientRequest { id: 99, operation }, 99);
    (before, actor, actions)
}

#[test]
fn log_is_compacted_after_its_snapshot_is_saved() {
    let (actor, names) = tasks_of(agenda_of(long_leader()), "");
    assert_eq!(names, ["persist", "answer", "save", "persist", "rest"]);
    assert_eq!(actor.raft.log().len(), 0);
    assert_eq!(actor.raft.log().snapshot_last_index(), 101);
}

#[test]
fn log_stays_when_its_snapshot_cannot_be_saved() {
    let (actor, names) = tasks_of(agenda_of(long_leader()), "save");
    assert_eq!(names, ["persist", "answer", "save", "rest"]);
    assert_eq!(actor.raft.log().len(), 101);
}

#[test]
fn nothing_follows_from_a_failed_save() {
    let actor = single_leader();
    let before = actor.raft.clone();
    let (actor, actions, _) = actor.handle_client(put_request(1), 1);
    assert_eq!(actor.pending_writes.len(), 1);
    let (actor, names) = tasks_of(agenda_of((before, actor, actions)), "persist");
    assert_eq!(names, ["persist", "rest"], "no answer");
    assert!(actor.unsaved);
    assert_eq!(actor.raft.log().last_index(), 2, "the entry is in memory");
    assert_eq!(actor.raft.volatile.commit_index, 2);
    assert_eq!(actor.raft.volatile.last_applied, 2);
    assert_eq!(actor.kv.get("k"), Some("1"));
    assert_eq!(actor.held.len(), 1, "the answer waits");
    assert!(actor.pending_writes.is_empty());

    let voter: NodeActor<u64> =
        NodeActor::new(1, vec![2, 3], RaftConfig::default_local(), None, None);
    let before = voter.raft.clone();
    let request = VoteRequest { term: 1, candidate_id: 2, last_log_index: 0, last_log_term: 0 };
    let message = RaftMessage::VoteRequest(request);
    let (voter, actions) = voter.handle_incoming(Incoming { from: 2, message });
    assert_eq!(voter.raft.persistent.voted_for, Some(2));
    let (voter, names) = tasks_of(agenda_of((before, voter, actions.unwrap())), "persist");
    assert_eq!(names, ["persist", "rest"], "no vote goes out");
    assert!(voter.unsaved);
    assert_eq!(voter.raft.persistent.voted_for, Some(2), "it is remembered");
    assert_eq!(voter.raft.current_term(), 1);
    assert_eq!(voter.metrics.messages_sent, 0);
}

#[test]
fn held_answers_go_out_once_the_state_is_written() {
    let actor = single_leader();
    let before = actor.raft.clone();
    let (actor, actions, _) = actor.handle_client(put_request(1), 1);
    let (actor, _) = tasks_of(agenda_of((before, actor, actions)), "persist");

    // A heartbeat changes nothing, but all that was not written is written first.
    let before = actor.raft.clone();
    let (actor, actions) = actor.handle_heartbeat();
    let (actor, names) = tasks_of(agenda_of((before, actor, actions.unwrap())), "persist");
    assert_eq!(names, ["persist", "rest"]);
    assert!(actor.unsaved);

    let before = actor.raft.clone();
    let (actor, actions) = actor.handle_heartbeat();
    let mut agenda = agenda_of((before, actor, actions.unwrap()));
    let (next, task) = agenda.step(Outcome::Done);
    agenda = next;
    match task {
        Task::Persist(state) => assert_eq!(state.log.last_index(), 2),
        other => panic!("unexpected {other:?}"),
    }
    let (next, task) = agenda.step(Outcome::Done);
    match task {
        Task::Answer(replies) => {
            assert_eq!(replies.len(), 1);
            assert_eq!(replies[0].0, 1);
            assert!(matches!(replies[0].1.result, ClientResult::Success(None)));
        }
        other => panic!("unexpected {other:?}"),
    }
    assert!(!next.actor.unsaved);
    assert!(next.actor.held.is_empty());
}

fn receiving_follower() -> Opened {
    let actor = NodeActor::new(1, vec![2, 3], RaftConfig::default_local(), None, None);
    let message = RaftMessage::InstallSnapshotRequest(InstallSnapshotRequest {
        term: 1,
        leader_id: 2,
        last_included_index: 7,
        last_included_term: 1,
        data: vec![],
    });
    let before = actor.raft.clone();
    let (actor, actions) = actor.handle_incoming(Incoming { from: 2, message });
    (before, actor, actions.unwrap())
}

#[test]
fn installed_snapshot_replaces_the_store() {
    let (actor, names) = tasks_of(agenda_of(receiving_follower()), "");
    assert_eq!(
        names,
        ["persist", "install", "persist", "send", "answer", "rest"],
        "the new term, the snapshot, the log, the answer",
    );
    assert_eq!(actor.kv.get("k"), Some("v"));
    assert_eq!(actor.raft.volatile.last_applied, 7);
    assert_eq!(actor.raft.log().snapshot_last_index(), 7);
}

#[test]
fn snapshot_that_cannot_be_written_is_not_installed() {
    for failing in ["install", "write", "persist"] {
        let (actor, names) = tasks_of(agenda_of(receiving_follower()), failing);
        assert_eq!(*names.last().unwrap(), "rest");
        assert!(!names.contains(&"send") && !names.contains(&"answer"));
        assert_eq!(actor.kv.get("k"), None);
        assert_eq!(actor.raft.volatile.last_applied, 0);
        assert_eq!(actor.raft.volatile.commit_index, 0);
        assert_eq!(actor.raft.log().snapshot_last_index(), 0);
        let term = if failing == "persist" { 0 } else { 1 };
        assert_eq!(actor.raft.current_term(), term, "the term is seen once it is written");
        assert!(!actor.unsaved);
    }
}

#[test]
fn snapshot_in_the_own_term_is_written_at_once() {
    let (_, mut actor, _) = receiving_follower();
    actor.raft = RaftNode::new(1, vec![2, 3], RaftConfig::default_local()).step_down(1).0;
    let message = RaftMessage::InstallSnapshotRequest(InstallSnapshotRequest {
        term: 1,
        leader_id: 2,
        last_included_index: 7,
        last_included_term: 1,
        data: vec![],
    });
    let before = actor.raft.clone();
    let (actor, actions) = actor.handle_incoming(Incoming { from: 2, message });
    // The snapshot is on disk and the log is not: the node goes on with both.
    let (actor, names) = tasks_of(agenda_of((before, actor, actions.unwrap())), "persist");
    assert_eq!(names, ["install", "persist", "rest"]);
    assert!(actor.unsaved);
    assert_eq!(actor.kv.get("k"), Some("v"));
    assert_eq!(actor.raft.volatile.last_applied, 7);
    assert_eq!(actor.raft.log().snapshot_last_index(), 7);
}

#[test]
fn node_that_stops_while_it_installs_a_snapshot_comes_back_with_it() {
    let (before, actor, actions) = receiving_follower();
    let installed = actor.raft.persistent.clone();
    let (agenda, task) = agenda_of((before, actor, actions)).step(Outcome::Done);
    let Task::Persist(state) = task else { panic!("the term first") };
    assert_eq!(state.current_term, 1);
    assert_eq!(state.log.last_index(), 0);
    let on_disk = store(&state);
    let (_, task) = agenda.step(Outcome::Done);
    assert!(matches!(task, Task::Install(_)));
    // The snapshot is written, and the node stops.
    let snapshot = SnapshotFile {
        last_included_index: 7,
        last_included_term: 1,
        kv_data: vec![("k".into(), "v".into())],
    };
    let actor: NodeActor<u64> = NodeActor::new(
        1,
        vec![2, 3],
        RaftConfig::default_local(),
        Some(snapshot),
        Some(on_disk),
    );
    assert_eq!(actor.raft.current_term(), installed.current_term);
    assert_eq!(actor.raft.persistent.voted_for, installed.voted_for);
    assert_eq!(actor.raft.log().snapshot_last_index(), installed.log.snapshot_last_index());
    assert_eq!(actor.raft.log().last_index(), 7);
    assert_eq!(actor.raft.volatile.commit_index, 7);
    assert_eq!(actor.kv.get("k"), Some("v"));
}

#[test]
fn leader_that_cannot_write_sends_and_answers_nothing() {
    let mut c = Cluster::start(3);
    c.time_out(1);
    c.put("k", "before");
    c.full_disks = vec![1];
    let write = c.request(1, ClientOperation::Put { key: "k".into(), value: "late".into() });
    let read = c.request(1, ClientOperation::Get { key: "k".into() });
    c.heartbeat();
    c.heartbeat();
    assert!(!c.replies.contains_key(&write) && !c.replies.contains_key(&read));
    assert!(c.network.is_empty());
    assert!(c.actors[&2].raft.log().last_index() < c.actors[&1].raft.log().last_index());
    c.full_disks.clear();
    c.heartbeat();
    c.heartbeat();
    assert!(c.replies.contains_key(&write) && c.replies.contains_key(&read));
    assert_eq!(c.get("k"), Some("late".into()));
    c.put("k", "after");
    assert_eq!(c.get("k"), Some("after".into()));
    c.assert_agreement();
}

#[test]
fn leader_that_stops_before_it_writes_has_promised_nothing() {
    let mut c = Cluster::start(3);
    c.time_out(1);
    c.put("k", "before");
    c.full_disks = vec![1];
    let write = c.request(1, ClientOperation::Put { key: "k".into(), value: "lost".into() });
    c.heartbeat();
    c.crash(1);
    c.full_disks.clear();
    c.boot(1);
    c.time_out(2);
    assert_eq!(c.get("k"), Some("before".into()));
    assert!(!c.replies.contains_key(&write));
    c.assert_agreement();
}

#[test]
fn committed_entries_are_in_the_logs_of_a_majority() {
    let mut c = Cluster::start(5);
    c.time_out(1);
    c.isolated = vec![4, 5];
    c.put("k", "v");
    let index = c.actors[&1].raft.volatile.commit_index;
    let entry = c.actors[&1].raft.log().get(index).unwrap().clone();
    let holders = c
        .actors
        .values()
        .filter(|actor| actor.raft.log().get(index).is_some_and(|e| e.term == entry.term))
        .count();
    assert_eq!(holders, 3);
}

#[test]
fn new_leader_serves_no_read_before_its_own_entry_is_committed() {
    let mut c = Cluster::start(3);
    c.time_out(1);
    c.put("k", "v");
    // Node 2 has the entry, but does not know that it is committed.
    c.crash(1);
    c.boot(1);
    c.crash(2);
    c.boot(2);
    let actor = c.actors.remove(&2).unwrap();
    assert_eq!(actor.raft.volatile.commit_index, 0);
    let before = actor.raft.clone();
    let (actor, actions) = actor.handle_election_timeout();
    c.perform(2, before, actor, actions);
    // The votes arrive; the first requests are still under way when the read comes.
    while !c.actors[&2].raft.is_leader() {
        let (from, outgoing) = c.network.pop_front().unwrap();
        let actor = c.actors.remove(&outgoing.to).unwrap();
        let before = actor.raft.clone();
        let incoming = Incoming { from, message: outgoing.message };
        let (actor, actions) = actor.handle_incoming(incoming);
        c.perform(outgoing.to, before, actor, actions.unwrap());
    }
    c.isolated = vec![1, 3];
    let token = c.request(2, ClientOperation::Get { key: "k".into() });
    assert!(!c.replies.contains_key(&token));
    c.isolated.clear();
    c.heartbeat();
    c.heartbeat();
    match &c.replies[&token].result {
        ClientResult::Success(value) => assert_eq!(value.as_deref(), Some("v")),
        other => panic!("unexpected {other:?}"),
    }
}
