use raft_kv::message::{
    AppendEntriesRequest, AppendEntriesResponse, ClientOperation, ClientRequest, ClientResult,
    Command, InstallSnapshotRequest, LogEntry, NodeId, RaftMessage, VoteRequest, VoteResponse,
};
use raft_kv::{Actions, RaftConfig, RaftNode, Role};

fn make_node(id: NodeId, peers: Vec<NodeId>) -> RaftNode {
    RaftNode::new(id, peers, RaftConfig::default_local())
}

fn single_node() -> RaftNode {
    make_node(1, vec![])
}

fn three_node_cluster() -> (RaftNode, RaftNode, RaftNode) {
    (make_node(1, vec![2, 3]), make_node(2, vec![1, 3]), make_node(3, vec![1, 2]))
}

fn put(id: u64) -> ClientRequest {
    ClientRequest {
        id,
        operation: ClientOperation::Put { key: format!("k{id}"), value: format!("v{id}") },
    }
}

fn success(peer_id: NodeId, term: u64, match_index: u64) -> AppendEntriesResponse {
    AppendEntriesResponse {
        term,
        success: true,
        conflict_index: None,
        conflict_term: None,
        match_index,
        round: 0,
        peer_id,
    }
}

/// Node 1 of three, elected in term 1 with the vote of node 2.
fn leader_of_three() -> RaftNode {
    let (n1, _, _) = three_node_cluster();
    let (n1, _) = n1.election_timeout();
    let vote = VoteResponse { term: 1, vote_granted: true, peer_id: 2 };
    n1.handle_vote_response(2, vote).0
}

fn append_response(actions: &Actions) -> AppendEntriesResponse {
    for (_, message) in &actions.messages {
        if let RaftMessage::AppendEntriesResponse(resp) = message {
            return *resp;
        }
    }
    panic!("no response in {actions:?}");
}

fn append_request(actions: &Actions, to: NodeId) -> AppendEntriesRequest {
    for (peer, message) in &actions.messages {
        if let (true, RaftMessage::AppendEntriesRequest(req)) = (*peer == to, message) {
            return req.clone();
        }
    }
    panic!("no request in {actions:?}");
}

// ── Elections ──────────────────────────────────────────────────────────────

#[test]
fn single_node_election_becomes_leader_immediately() {
    let node = single_node();
    let (leader, actions) = node.election_timeout();
    // Single-node clusters skip the vote round and become leader directly.
    assert_eq!(leader.role, Role::Leader);
    assert_eq!(leader.current_term(), 1);
    // Must persist the Noop entry appended on election.
    assert!(actions.persist.is_some());
}

#[test]
fn election_timeout_increments_term() {
    let (n1, _, _) = three_node_cluster();
    let (candidate, actions) = n1.election_timeout();
    assert_eq!(candidate.current_term(), 1);
    assert_eq!(candidate.role, Role::Candidate);
    assert!(actions.persist.is_some());
    assert!(actions.reset_election_timer);
    // Should send vote requests to both peers.
    assert_eq!(actions.messages.len(), 2);
}

#[test]
fn vote_granted_when_log_is_up_to_date() {
    let (_, n2, _) = three_node_cluster();
    let req = VoteRequest { term: 1, candidate_id: 1, last_log_index: 0, last_log_term: 0 };
    let (n2_after, actions) = n2.handle_vote_request(req);
    assert_eq!(n2_after.persistent.voted_for, Some(1));
    let granted = actions
        .messages
        .iter()
        .any(|(_, m)| matches!(m, RaftMessage::VoteResponse(r) if r.vote_granted));
    assert!(granted);
}

#[test]
fn vote_denied_when_candidate_term_is_stale() {
    let mut node = make_node(2, vec![1, 3]);
    node.persistent.current_term = 5;
    let req = VoteRequest { term: 3, candidate_id: 1, last_log_index: 0, last_log_term: 0 };
    let (_, actions) = node.handle_vote_request(req);
    let denied = actions
        .messages
        .iter()
        .any(|(_, m)| matches!(m, RaftMessage::VoteResponse(r) if !r.vote_granted));
    assert!(denied);
}

#[test]
fn vote_denied_for_second_candidate_same_term() {
    let (_, n2, _) = three_node_cluster();
    let req1 = VoteRequest { term: 1, candidate_id: 1, last_log_index: 0, last_log_term: 0 };
    let (n2, _) = n2.handle_vote_request(req1);
    let req2 = VoteRequest { term: 1, candidate_id: 3, last_log_index: 0, last_log_term: 0 };
    let (_, actions) = n2.handle_vote_request(req2);
    let denied = actions
        .messages
        .iter()
        .any(|(_, m)| matches!(m, RaftMessage::VoteResponse(r) if !r.vote_granted));
    assert!(denied);
}

#[test]
fn candidate_becomes_leader_with_majority() {
    let (n1, n2, _n3) = three_node_cluster();
    let (candidate, _) = n1.election_timeout();
    assert_eq!(candidate.role, Role::Candidate);

    let vote_req = VoteRequest { term: 1, candidate_id: 1, last_log_index: 0, last_log_term: 0 };
    let (_, a2) = n2.handle_vote_request(vote_req.clone());
    let resp_from_2 = a2
        .messages
        .iter()
        .find_map(|(_, m)| if let RaftMessage::VoteResponse(r) = m { Some(r.clone()) } else { None })
        .unwrap();
    assert!(resp_from_2.vote_granted);

    // Majority for a 3-node cluster = 2 (self + one peer).
    // Receiving the first granted vote tips us over the majority threshold.
    let (leader, actions) = candidate.handle_vote_response(2, resp_from_2);

    assert_eq!(leader.role, Role::Leader, "should become leader on majority");
    // Leader must immediately broadcast AppendEntries (with Noop entry).
    assert!(
        !actions.messages.is_empty(),
        "leader must send AppendEntries to all peers on election"
    );
    assert_eq!(actions.messages.len(), 2, "one message per peer");
    // The Noop entry is among what is sent.
    assert_eq!(append_request(&actions, 3).entries.len(), 1);
}

#[test]
fn vote_denied_when_candidate_log_is_older() {
    let mut node = make_node(2, vec![1, 3]);
    node.persistent.log = node.persistent.log.append(LogEntry {
        term: 2,
        index: 1,
        command: Command::Noop,
    });
    let longer_but_older = VoteRequest { term: 3, candidate_id: 1, last_log_index: 9, last_log_term: 1 };
    let (node, actions) = node.handle_vote_request(longer_but_older);
    assert_eq!(node.persistent.voted_for, None);
    assert!(matches!(
        &actions.messages[0].1,
        RaftMessage::VoteResponse(r) if !r.vote_granted && r.term == 3
    ));
    let as_new = VoteRequest { term: 3, candidate_id: 3, last_log_index: 1, last_log_term: 2 };
    let (node, _) = node.handle_vote_request(as_new);
    assert_eq!(node.persistent.voted_for, Some(3));
}

#[test]
fn votes_of_an_earlier_candidacy_do_not_count() {
    let node = RaftNode::new(
        1,
        vec![2, 3, 4, 5],
        RaftConfig { cluster_size: 5, ..RaftConfig::default_local() },
    );
    let (node, _) = node.election_timeout();
    let (node, _) =
        node.handle_vote_response(2, VoteResponse { term: 1, vote_granted: true, peer_id: 2 });
    assert_eq!(node.role, Role::Candidate);
    let (node, _) = node.election_timeout();
    assert_eq!(node.current_term(), 2);
    let (node, _) =
        node.handle_vote_response(3, VoteResponse { term: 2, vote_granted: true, peer_id: 3 });
    assert_eq!(node.role, Role::Candidate);
    let (node, _) =
        node.handle_vote_response(2, VoteResponse { term: 1, vote_granted: true, peer_id: 2 });
    assert_eq!(node.role, Role::Candidate);
    let (node, _) =
        node.handle_vote_response(4, VoteResponse { term: 2, vote_granted: true, peer_id: 4 });
    assert_eq!(node.role, Role::Leader);
}

#[test]
fn same_vote_twice_counts_once() {
    let node = RaftNode::new(
        1,
        vec![2, 3, 4, 5],
        RaftConfig { cluster_size: 5, ..RaftConfig::default_local() },
    );
    let (node, _) = node.election_timeout();
    let vote = VoteResponse { term: 1, vote_granted: true, peer_id: 2 };
    let (node, _) = node.handle_vote_response(2, vote.clone());
    let (node, _) = node.handle_vote_response(2, vote);
    assert_eq!(node.role, Role::Candidate);
}

#[test]
fn leader_ignores_election_timeout() {
    let (leader, actions) = leader_of_three().election_timeout();
    assert_eq!(leader.role, Role::Leader);
    assert_eq!(leader.current_term(), 1);
    assert!(actions.messages.is_empty());
    assert!(actions.persist.is_none());
}

// ── Replication ────────────────────────────────────────────────────────────

#[test]
fn leader_rejects_client_write_when_not_leader() {
    let node = make_node(1, vec![2, 3]);
    let req = ClientRequest {
        id: 1,
        operation: ClientOperation::Put { key: "k".into(), value: "v".into() },
    };
    let (_, actions) = node.handle_client_request(req);
    assert!(actions
        .client_responses
        .iter()
        .any(|r| matches!(&r.result, ClientResult::NotLeader { .. })));
}

#[test]
fn follower_appends_entries_and_advances_commit() {
    let node = make_node(2, vec![1, 3]);
    let entries = vec![
        LogEntry { term: 1, index: 1, command: Command::Put { key: "a".into(), value: "1".into() } },
        LogEntry { term: 1, index: 2, command: Command::Put { key: "b".into(), value: "2".into() } },
    ];
    let req = AppendEntriesRequest {
        term: 1,
        leader_id: 1,
        prev_log_index: 0,
        prev_log_term: 0,
        entries,
        leader_commit: 2,
        round: 0,
    };
    let (node, actions) = node.handle_append_entries(req);
    assert_eq!(node.volatile.commit_index, 2);
    assert_eq!(node.persistent.log.last_index(), 2);
    assert_eq!(actions.entries_to_apply.len(), 2);
    let accepted = actions
        .messages
        .iter()
        .any(|(_, m)| matches!(m, RaftMessage::AppendEntriesResponse(r) if r.success));
    assert!(accepted);
    assert_eq!(append_response(&actions).match_index, 2);
}

#[test]
fn follower_rejects_append_entries_on_log_mismatch() {
    let node = make_node(2, vec![1, 3]);
    let req = AppendEntriesRequest {
        term: 1,
        leader_id: 1,
        prev_log_index: 5, // follower has no log
        prev_log_term: 1,
        entries: vec![],
        leader_commit: 0,
        round: 0,
    };
    let (_, actions) = node.handle_append_entries(req);
    let rejected = actions
        .messages
        .iter()
        .any(|(_, m)| matches!(m, RaftMessage::AppendEntriesResponse(r) if !r.success));
    assert!(rejected);
}

#[test]
fn step_down_on_higher_term() {
    let mut node = make_node(1, vec![2, 3]);
    node.role = Role::Leader;
    node.persistent.current_term = 3;
    let (node, actions) = node.step_down(5);
    assert_eq!(node.role, Role::Follower);
    assert_eq!(node.current_term(), 5);
    assert!(node.persistent.voted_for.is_none());
    assert!(actions.persist.is_some());
}

#[test]
fn majority_commits_a_write() {
    let leader = leader_of_three();
    assert_eq!(leader.log().last_index(), 1);
    let (leader, actions) = leader.handle_client_request(put(1));
    let request = append_request(&actions, 2);
    assert_eq!(request.prev_log_index, 0);
    assert_eq!(request.entries.len(), 2);
    assert_eq!(leader.volatile.commit_index, 0);
    let (leader, actions) = leader.handle_append_entries_response(2, success(2, 1, 2));
    assert_eq!(leader.volatile.commit_index, 2);
    let applied: Vec<u64> = actions.entries_to_apply.iter().map(|e| e.index).collect();
    assert_eq!(applied, vec![1, 2]);
    // The next round tells the followers.
    let (_, actions) = leader.tick();
    assert_eq!(append_request(&actions, 2).leader_commit, 2);
    assert_eq!(append_request(&actions, 2).prev_log_index, 2);
    assert!(append_request(&actions, 2).entries.is_empty());
}

#[test]
fn late_answer_commits_only_what_it_covers() {
    // The answer to the first request comes when a second entry is in the log
    // that no other node holds.
    let (leader, _) = leader_of_three().handle_client_request(put(1));
    let (leader, _) = leader.handle_append_entries_response(2, success(2, 1, 1));
    assert_eq!(leader.volatile.commit_index, 1);
    let (leader, _) = leader.handle_append_entries_response(3, success(3, 1, 2));
    assert_eq!(leader.volatile.commit_index, 2);
}

#[test]
fn late_answer_does_not_move_back_what_is_sent_next() {
    let (leader, _) = leader_of_three().handle_client_request(put(1));
    let (leader, _) = leader.handle_append_entries_response(2, success(2, 1, 2));
    let (leader, _) = leader.handle_append_entries_response(2, success(2, 1, 1));
    let state = leader.leader_state.as_ref().unwrap();
    assert_eq!(state.match_index[&2], 2);
    assert_eq!(state.next_index[&2], 3);
}

#[test]
fn rejections_of_an_earlier_term_backtrack() {
    let mut node = make_node(1, vec![2, 3]);
    for (index, term) in [(1, 1), (2, 1), (3, 3)] {
        node.persistent.log =
            node.persistent.log.append(LogEntry { term, index, command: Command::Noop });
    }
    node.persistent.current_term = 3;
    let (node, _) = node.election_timeout();
    let (mut leader, _) =
        node.handle_vote_response(2, VoteResponse { term: 4, vote_granted: true, peer_id: 2 });
    let next = |leader: &RaftNode| leader.leader_state.as_ref().unwrap().next_index[&2];
    for (conflict_index, conflict_term, expected) in [
        (None, None, 3),
        (Some(1), Some(1), 3),
        (Some(2), Some(2), 2),
        (Some(1), None, 1),
        (Some(90), Some(2), 5),
    ] {
        let stale = AppendEntriesResponse {
            success: false,
            conflict_index,
            conflict_term,
            round: 1,
            ..success(2, 3, 0)
        };
        leader = leader.handle_append_entries_response(2, stale).0;
        assert_eq!(next(&leader), expected);
        assert_eq!(leader.leader_state.as_ref().unwrap().match_index[&2], 0);
        assert!(!leader.is_confirmed_since(1));
    }
}

#[test]
fn rejections_of_an_earlier_term_commit_what_can_be() {
    let node = RaftNode::new(
        1,
        vec![2],
        RaftConfig { cluster_size: 1, ..RaftConfig::default_local() },
    );
    let (mut leader, _) = node.election_timeout();
    leader = leader.handle_vote_response(2, VoteResponse {
        term: 1,
        vote_granted: true,
        peer_id: 2,
    }).0;
    assert_eq!(leader.role, Role::Leader);
    let last = leader.persistent.log.last_index();
    leader.volatile.commit_index = 0;
    let stale = AppendEntriesResponse { success: false, ..success(2, 0, 0) };
    let (leader, actions) = leader.handle_append_entries_response(2, stale);
    assert_eq!(leader.volatile.commit_index, last);
    assert_eq!(actions.entries_to_apply.len(), last as usize);
}

#[test]
fn successes_of_an_earlier_term_are_ignored() {
    let mut leader = leader_of_three();
    leader.persistent.current_term = 2;
    let (leader, _) = leader.handle_append_entries_response(2, success(2, 1, 1));
    assert_eq!(leader.leader_state.as_ref().unwrap().match_index.get(&2), Some(&0));
    assert_eq!(leader.volatile.commit_index, 0);
}

#[test]
fn leader_is_counted_once() {
    let node = RaftNode::new(
        1,
        vec![2, 3, 4, 5],
        RaftConfig { cluster_size: 5, ..RaftConfig::default_local() },
    );
    let (node, _) = node.election_timeout();
    let vote = |peer_id| VoteResponse { term: 1, vote_granted: true, peer_id };
    let (node, _) = node.handle_vote_response(2, vote(2));
    let (node, _) = node.handle_vote_response(3, vote(3));
    assert_eq!(node.role, Role::Leader);
    let (node, _) = node.handle_client_request(put(1));
    let (node, _) = node.handle_append_entries_response(2, success(2, 1, 2));
    assert_eq!(node.volatile.commit_index, 0, "two of five are no majority");
    let (node, _) = node.handle_append_entries_response(3, success(3, 1, 2));
    assert_eq!(node.volatile.commit_index, 2);
}

#[test]
fn entries_of_earlier_terms_are_not_committed_by_counting() {
    // A leader of term 2 with an entry of term 1 that a majority holds.
    let mut node = make_node(1, vec![2, 3]);
    node.persistent.current_term = 1;
    node.persistent.log =
        node.persistent.log.append(LogEntry { term: 1, index: 1, command: Command::Noop });
    let (node, _) = node.election_timeout();
    let (leader, _) =
        node.handle_vote_response(2, VoteResponse { term: 2, vote_granted: true, peer_id: 2 });
    assert_eq!(leader.log().last_index(), 2);
    let (leader, _) = leader.handle_append_entries_response(2, success(2, 2, 1));
    assert_eq!(leader.volatile.commit_index, 0);
    let (leader, actions) = leader.handle_append_entries_response(2, success(2, 2, 2));
    assert_eq!(leader.volatile.commit_index, 2);
    assert_eq!(actions.entries_to_apply.len(), 2);
}

#[test]
fn rejected_follower_catches_up() {
    let leader = leader_of_three();
    let (leader, _) = leader.handle_client_request(put(1));
    let (mut leader, _) = leader.handle_append_entries_response(3, success(3, 1, 2));
    let (mut follower, _, _) = (make_node(2, vec![1, 3]), (), ());
    let mut rounds = 0;
    while follower.log().last_index() < 2 {
        let (next, actions) = leader.tick();
        let (after, answer) = follower.handle_append_entries(append_request(&actions, 2));
        follower = after;
        leader = next.handle_append_entries_response(2, append_response(&answer)).0;
        rounds += 1;
        assert!(rounds < 5);
    }
    assert_eq!(follower.volatile.commit_index, 2);
    assert_eq!(leader.leader_state.as_ref().unwrap().match_index.get(&2), Some(&2));
}

#[test]
fn conflict_hints() {
    let mut node = make_node(2, vec![1, 3]);
    for (index, term) in [(1, 1), (2, 2), (3, 2), (4, 2)] {
        node.persistent.log =
            node.persistent.log.append(LogEntry { term, index, command: Command::Noop });
    }
    node.persistent.current_term = 3;
    let ask = |prev_log_index, prev_log_term| AppendEntriesRequest {
        term: 3,
        leader_id: 1,
        prev_log_index,
        prev_log_term,
        entries: vec![],
        leader_commit: 0,
        round: 0,
    };
    let (node, actions) = node.handle_append_entries(ask(4, 3));
    let hint = append_response(&actions);
    assert_eq!((hint.conflict_index, hint.conflict_term), (Some(2), Some(2)));
    assert_eq!(hint.match_index, 0);
    let (_, actions) = node.handle_append_entries(ask(9, 3));
    let hint = append_response(&actions);
    assert_eq!((hint.conflict_index, hint.conflict_term), (Some(5), None));
}

#[test]
fn leader_follows_conflict_hints() {
    let mut node = make_node(1, vec![2, 3]);
    for (index, term) in [(1, 1), (2, 1), (3, 3)] {
        node.persistent.log =
            node.persistent.log.append(LogEntry { term, index, command: Command::Noop });
    }
    node.persistent.current_term = 3;
    let (node, _) = node.election_timeout();
    let (leader, _) =
        node.handle_vote_response(2, VoteResponse { term: 4, vote_granted: true, peer_id: 2 });
    let reject = |conflict_index, conflict_term| AppendEntriesResponse {
        success: false,
        conflict_index,
        conflict_term,
        ..success(2, 4, 0)
    };
    let next = |leader: &RaftNode| leader.leader_state.as_ref().unwrap().next_index[&2];
    assert_eq!(next(&leader), 4);
    let (leader, _) = leader.handle_append_entries_response(2, reject(None, None));
    assert_eq!(next(&leader), 3, "without a hint one step back");
    let (leader, _) = leader.handle_append_entries_response(2, reject(Some(1), Some(1)));
    assert_eq!(next(&leader), 3, "behind the last entry of the conflicting term");
    let (leader, _) = leader.handle_append_entries_response(2, reject(Some(2), Some(2)));
    assert_eq!(next(&leader), 2, "where the conflict starts");
}

#[test]
fn higher_terms_depose_a_leader() {
    let answer = AppendEntriesResponse { success: false, ..success(2, 7, 0) };
    let (node, actions) = leader_of_three().handle_append_entries_response(2, answer);
    assert_eq!(node.role, Role::Follower);
    assert_eq!(node.current_term(), 7);
    assert!(actions.persist.is_some());
    assert!(node.leader_state.is_none());
}

#[test]
fn stale_append_entries_are_refused() {
    let mut node = make_node(2, vec![1, 3]);
    node.persistent.current_term = 5;
    let req = AppendEntriesRequest {
        term: 4,
        leader_id: 1,
        prev_log_index: 0,
        prev_log_term: 0,
        entries: vec![LogEntry { term: 4, index: 1, command: Command::Noop }],
        leader_commit: 1,
        round: 0,
    };
    let (node, actions) = node.handle_append_entries(req);
    assert!(node.log().is_empty());
    assert!(!append_response(&actions).success);
    assert_eq!(append_response(&actions).term, 5);
    assert!(!actions.reset_election_timer);
}

#[test]
fn commit_index_does_not_go_back() {
    let mut node = make_node(2, vec![1, 3]);
    for index in 1..=3 {
        node.persistent.log =
            node.persistent.log.append(LogEntry { term: 1, index, command: Command::Noop });
    }
    node.persistent.current_term = 1;
    node.volatile.commit_index = 3;
    let heartbeat = AppendEntriesRequest {
        term: 1,
        leader_id: 1,
        prev_log_index: 3,
        prev_log_term: 1,
        entries: vec![],
        leader_commit: 1,
        round: 0,
    };
    let (node, actions) = node.handle_append_entries(heartbeat);
    assert_eq!(node.volatile.commit_index, 3);
    assert!(actions.entries_to_apply.is_empty());
}

#[test]
fn redelivered_request_changes_nothing() {
    let (_, actions) = leader_of_three().tick();
    let request = append_request(&actions, 2);
    let (once, _) = make_node(2, vec![1, 3]).handle_append_entries(request.clone());
    let (twice, _) = once.handle_append_entries(request);
    assert_eq!(twice.log().last_index(), 1);
    assert_eq!(twice.log().last_term(), 1);
}

#[test]
fn redelivered_request_changes_nothing_after_compaction() {
    let (leader, _) = leader_of_three().handle_client_request(put(1));
    let (_, actions) = leader.handle_client_request(put(2));
    let request = append_request(&actions, 2);
    assert_eq!(request.entries.len(), 3);
    let (once, _) = make_node(2, vec![1, 3]).handle_append_entries(request.clone());
    let compacted = once.compact_log(2);
    assert!(compacted.can_handle_append_entries(&request));
    let (twice, actions) = compacted.handle_append_entries(request);
    assert!(append_response(&actions).success);
    assert_eq!(twice.log().snapshot_last_index(), 2);
    assert_eq!(twice.log().last_index(), 3);
    assert!(actions.entries_to_apply.is_empty());
}

fn answer_to(leader: RaftNode, peer: NodeId, round: u64) -> RaftNode {
    let answer = AppendEntriesResponse { round, ..success(peer, 1, 1) };
    leader.handle_append_entries_response(peer, answer).0
}

#[test]
fn leadership_is_confirmed_by_a_round() {
    let (leader, actions) = leader_of_three().tick();
    assert_eq!(append_request(&actions, 2).round, 1);
    assert!(!leader.is_confirmed_since(1));
    let leader = answer_to(leader, 3, 1);
    assert!(leader.is_confirmed_since(1));
    assert!(leader.leader_state.as_ref().unwrap().heartbeat_acks[&3]);
    let (leader, _) = leader.tick();
    assert!(leader.is_confirmed_since(1));
    assert!(!leader.is_confirmed_since(2));
    assert!(!leader.leader_state.as_ref().unwrap().heartbeat_acks[&3]);
    assert!(single_node().election_timeout().0.is_confirmed_since(1));
    assert!(!make_node(1, vec![2, 3]).is_confirmed_since(0));
}

#[test]
fn earlier_rounds_confirm_no_later_one() {
    // The answer to the request of the election is still under way.
    let (leader, _) = leader_of_three().tick();
    let leader = answer_to(leader, 2, 0);
    assert!(!leader.is_confirmed_since(1));
    let (leader, _) = leader.tick();
    let leader = answer_to(leader, 2, 1);
    assert!(leader.is_confirmed_since(1));
    assert!(!leader.is_confirmed_since(2));
}

#[test]
fn strangers_confirm_nothing() {
    let (leader, _) = leader_of_three().tick();
    let rejection = AppendEntriesResponse {
        success: false,
        conflict_index: Some(1),
        conflict_term: Some(1),
        round: 1,
        ..success(9, 1, 0)
    };
    let (leader, _) = leader.handle_append_entries_response(9, rejection);
    assert!(!leader.is_confirmed_since(1));
    assert!(!leader.leader_state.as_ref().unwrap().next_index.contains_key(&9));
}

#[test]
fn follower_repeats_the_round() {
    let (_, actions) = leader_of_three().tick();
    let request = append_request(&actions, 2);
    let (_, actions) = make_node(2, vec![1, 3]).handle_append_entries(request.clone());
    assert_eq!(append_response(&actions).round, 1);
    let mut later = make_node(2, vec![1, 3]);
    later.persistent.current_term = 2;
    let (_, actions) = later.handle_append_entries(request);
    assert_eq!(append_response(&actions).round, 0, "a request of an earlier term has no round");
}

// ── Snapshots ──────────────────────────────────────────────────────────────

#[test]
fn lagging_peers_get_a_snapshot() {
    let leader = leader_of_three();
    let (leader, _) = leader.handle_client_request(put(1));
    let (leader, _) = leader.handle_append_entries_response(3, success(3, 1, 2));
    let leader = leader.compact_log(2);
    let (leader, actions) = leader.tick();
    assert_eq!(actions.send_snapshot_to, vec![2]);
    assert_eq!(actions.messages.len(), 1);
    assert_eq!(actions.messages[0].0, 3);
    let (leader, _) = leader.handle_install_snapshot_response(
        2,
        raft_kv::message::InstallSnapshotResponse { term: 1, peer_id: 2 },
    );
    let (_, actions) = leader.tick();
    assert!(actions.send_snapshot_to.is_empty());
    assert_eq!(append_request(&actions, 2).prev_log_index, 2);
}

fn snapshot(term: u64, index: u64, index_term: u64) -> InstallSnapshotRequest {
    InstallSnapshotRequest {
        term,
        leader_id: 1,
        last_included_index: index,
        last_included_term: index_term,
        data: vec![],
    }
}

#[test]
fn snapshot_replaces_the_log() {
    let node = make_node(2, vec![1, 3]);
    let (node, actions) = node.handle_install_snapshot(snapshot(4, 10, 3));
    assert_eq!(node.log().snapshot_last_index(), 10);
    assert_eq!(node.log().snapshot_last_term(), 3);
    assert_eq!(node.volatile.commit_index, 10);
    assert!(actions.install_snapshot.is_some());
    assert!(actions.persist.is_some());
    let (node, actions) = node.handle_install_snapshot(snapshot(4, 8, 3));
    assert_eq!(node.log().snapshot_last_index(), 10, "an older snapshot is not installed");
    assert!(actions.install_snapshot.is_none());
    let (_, actions) = node.handle_install_snapshot(snapshot(3, 20, 3));
    assert!(actions.install_snapshot.is_none(), "nor one of an earlier term");
}

#[test]
fn snapshot_keeps_what_follows_it() {
    let mut node = make_node(2, vec![1, 3]);
    for index in 1..=5 {
        node.persistent.log =
            node.persistent.log.append(LogEntry { term: 1, index, command: Command::Noop });
    }
    let (kept, _) = node.handle_install_snapshot(snapshot(1, 3, 1));
    assert_eq!(kept.log().last_index(), 5);
    assert_eq!(kept.log().len(), 2);
}

// ── What a node can handle ─────────────────────────────────────────────────

#[test]
fn unmanageable_messages_are_told_apart() {
    let mut leader = leader_of_three();
    assert!(leader.can_handle(2, &RaftMessage::AppendEntriesResponse(success(2, 1, 1))));
    assert!(leader.can_tick());
    leader.leader_state.as_mut().unwrap().round = u64::MAX;
    assert!(!leader.can_tick());
    let follower = make_node(2, vec![1, 3]);
    let gap = RaftMessage::AppendEntriesRequest(AppendEntriesRequest {
        term: 1,
        leader_id: 1,
        prev_log_index: 0,
        prev_log_term: 0,
        entries: vec![LogEntry { term: 1, index: 5, command: Command::Noop }],
        leader_commit: 0,
        round: 0,
    });
    assert!(!follower.can_handle(1, &gap));
    let mut last_term = make_node(1, vec![2, 3]);
    assert!(last_term.can_time_out());
    last_term.persistent.current_term = u64::MAX;
    assert!(!last_term.can_time_out());
}
