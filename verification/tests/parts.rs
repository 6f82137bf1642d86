use raft_kv::args::{parse_number, parse_peer, split_list, PeerError};
use raft_kv::bench::{self, judge, operation, Attempt, AttemptStep, Workload};
use raft_kv::client::{
    delete_output, get_output, put_output, value_of, ClientError, Exchange, ExchangeStep, Session,
};
use raft_kv::message::{
    AppendEntriesRequest, AppendEntriesResponse, ClientOperation, ClientRequest, ClientResponse,
    ClientResult, Command, InstallSnapshotRequest, InstallSnapshotResponse, LogEntry, RaftMessage,
    VoteRequest, VoteResponse,
};
use raft_kv::metrics::{http_response, Metrics};
use raft_kv::storage::{
    follows_snapshot, recovered, restore, snapshot_file_name, state_file_name, store, StoredState,
};
use raft_kv::text::decimal;
use raft_kv::timer::election_timeout_ms;
use raft_kv::transport::{
    Connection, Delivery, LinkEvent, LinkStep, PeerLink, BACKOFF_LIMIT_MS, BACKOFF_START_MS,
};
use raft_kv::{PersistentState, RaftConfig};

// ── Configuration and timer ────────────────────────────────────────────────

#[test]
fn local_defaults() {
    let config = RaftConfig::default_local();
    assert_eq!(config.election_timeout_min_ms, 150);
    assert_eq!(config.election_timeout_max_ms, 300);
    assert_eq!(config.heartbeat_interval_ms, 50);
    assert_eq!(config.cluster_size, 3);
}

#[test]
fn majorities() {
    for (size, majority) in [(1, 1), (2, 2), (3, 2), (4, 3), (5, 3), (6, 4), (7, 4)] {
        let config = RaftConfig { cluster_size: size, ..RaftConfig::default_local() };
        assert_eq!(config.majority(), majority);
    }
}

#[test]
fn election_timeout_is_random_and_in_range() {
    let config = RaftConfig::default_local();
    let draws: Vec<u64> = (0..200).map(|_| election_timeout_ms(&config)).collect();
    assert!(draws.iter().all(|ms| (150..=300).contains(ms)));
    assert!(draws.iter().any(|ms| *ms != draws[0]));
    let fixed = RaftConfig { election_timeout_min_ms: 7, election_timeout_max_ms: 7, ..config };
    assert_eq!(election_timeout_ms(&fixed), 7);
}

// ── Texts ──────────────────────────────────────────────────────────────────

#[test]
fn decimal_texts() {
    assert_eq!(decimal(0), "0");
    assert_eq!(decimal(10), "10");
    assert_eq!(decimal(u64::MAX), "18446744073709551615");
}

#[test]
fn lists_are_split_at_commas() {
    assert_eq!(split_list(""), vec![""]);
    assert_eq!(split_list("a"), vec!["a"]);
    assert_eq!(split_list("2=h:1,3=h:2"), vec!["2=h:1", "3=h:2"]);
    assert_eq!(split_list(",x,"), vec!["", "x", ""]);
}

#[test]
fn numbers() {
    assert_eq!(parse_number("0"), Some(0));
    assert_eq!(parse_number("+42"), Some(42));
    assert_eq!(parse_number("007"), Some(7));
    assert_eq!(parse_number("18446744073709551615"), Some(u64::MAX));
    assert_eq!(parse_number("18446744073709551616"), None);
    assert_eq!(parse_number("99999999999999999999"), None);
    assert_eq!(parse_number(""), None);
    assert_eq!(parse_number("+"), None);
    assert_eq!(parse_number("-1"), None);
    assert_eq!(parse_number(" 1"), None);
    assert_eq!(parse_number("1x"), None);
}

#[test]
fn written_numbers_are_read_back() {
    for n in [0, 9, 10, 12345, u64::MAX] {
        assert_eq!(parse_number(&decimal(n)), Some(n));
    }
}

#[test]
fn peers() {
    assert_eq!(parse_peer("2=127.0.0.1:7002"), Ok((2, "127.0.0.1:7002".to_string())));
    assert_eq!(parse_peer("3=a=b"), Ok((3, "a=b".to_string())));
    assert_eq!(parse_peer("127.0.0.1:7002"), Err(PeerError::InvalidSpec));
    assert_eq!(parse_peer("x=127.0.0.1:7002"), Err(PeerError::InvalidId));
    assert_eq!(parse_peer("=127.0.0.1:7002"), Err(PeerError::InvalidId));
}

// ── Metrics ────────────────────────────────────────────────────────────────

#[test]
fn rendered_metrics() {
    let metrics = Metrics {
        term: 4,
        role: 2,
        commit_index: 17,
        last_applied: 16,
        log_length: 20,
        pending_writes: 3,
        pending_reads: 1,
        messages_sent: 123,
        messages_received: 99,
    };
    let expected = "# HELP raft_term Current Raft term.\n\
         # TYPE raft_term gauge\n\
         raft_term{node=\"1\",role=\"leader\"} 4\n\
         # HELP raft_role Current role encoded as integer (0=follower 1=candidate 2=leader).\n\
         # TYPE raft_role gauge\n\
         raft_role{node=\"1\"} 2\n\
         # HELP raft_commit_index Index of the highest committed log entry.\n\
         # TYPE raft_commit_index gauge\n\
         raft_commit_index{node=\"1\"} 17\n\
         # HELP raft_last_applied Index of the highest applied log entry.\n\
         # TYPE raft_last_applied gauge\n\
         raft_last_applied{node=\"1\"} 16\n\
         # HELP raft_log_length Total number of entries in the Raft log.\n\
         # TYPE raft_log_length gauge\n\
         raft_log_length{node=\"1\"} 20\n\
         # HELP raft_pending_writes Client writes waiting for log commitment.\n\
         # TYPE raft_pending_writes gauge\n\
         raft_pending_writes{node=\"1\"} 3\n\
         # HELP raft_pending_reads Client reads waiting for the read-index protocol.\n\
         # TYPE raft_pending_reads gauge\n\
         raft_pending_reads{node=\"1\"} 1\n\
         # HELP raft_messages_sent_total Total Raft peer messages sent.\n\
         # TYPE raft_messages_sent_total counter\n\
         raft_messages_sent_total{node=\"1\"} 123\n\
         # HELP raft_messages_received_total Total Raft peer messages received.\n\
         # TYPE raft_messages_received_total counter\n\
         raft_messages_received_total{node=\"1\"} 99\n";
    assert_eq!(metrics.render(1), expected);
}

#[test]
fn role_names_in_metrics() {
    for (role, name) in [(0, "follower"), (1, "candidate"), (2, "leader"), (9, "follower")] {
        let metrics = Metrics { role, ..Metrics::new() };
        let line = format!("raft_term{{node=\"12\",role=\"{name}\"}} 0\n");
        assert!(metrics.render(12).contains(&line));
    }
}

#[test]
fn metrics_over_http() {
    assert_eq!(
        http_response("a é"),
        "HTTP/1.0 200 OK\r\nContent-Type: text/plain; version=0.0.4\r\nContent-Length: 4\r\n\r\na é"
    );
}

// ── Storage ────────────────────────────────────────────────────────────────

fn entry(index: u64, term: u64) -> LogEntry {
    LogEntry { index, term, command: Command::Put { key: format!("k{index}"), value: "v".into() } }
}

#[test]
fn stored_state_is_restored() {
    let mut state = PersistentState::new();
    state.current_term = 7;
    state.voted_for = Some(3);
    for index in 1..=5 {
        state.log = state.log.append(entry(index, 2));
    }
    state.log = state.log.compact_up_to(3);
    let stored = store(&state);
    assert_eq!(stored.log_entries.len(), 2);
    assert!(follows_snapshot(&stored, Some((3, 2))));
    assert!(!follows_snapshot(&stored, None));
    let again = restore(stored, Some((3, 2)));
    assert_eq!(again.current_term, 7);
    assert_eq!(again.voted_for, Some(3));
    assert_eq!(again.log.snapshot_last_index(), 3);
    assert_eq!(again.log.snapshot_last_term(), 2);
    assert_eq!(again.log.last_index(), 5);
    assert_eq!(again.log.term_at(4), 2);
}

#[test]
fn first_boot_is_empty() {
    let state = recovered(None, None);
    assert_eq!(state.current_term, 0);
    assert_eq!(state.voted_for, None);
    assert!(state.log.is_empty());
}

#[test]
fn entries_at_the_end_of_the_index_range() {
    let stored =
        StoredState { current_term: 1, voted_for: None, log_entries: vec![entry(u64::MAX, 1)] };
    assert!(follows_snapshot(&stored, Some((u64::MAX - 1, 1))));
    assert!(follows_snapshot(&stored, Some((u64::MAX, 1))), "the snapshot covers the entry");
    assert!(!follows_snapshot(&stored, Some((u64::MAX - 2, 1))), "a gap");
}

#[test]
fn snapshot_that_is_ahead_of_the_log() {
    let stored = || StoredState {
        current_term: 4,
        voted_for: Some(2),
        log_entries: vec![entry(3, 1), entry(4, 2), entry(5, 2)],
    };
    // Stopped after the snapshot was written and before the log was compacted.
    assert!(follows_snapshot(&stored(), Some((4, 2))));
    let state = restore(stored(), Some((4, 2)));
    assert_eq!(state.current_term, 4);
    assert_eq!(state.voted_for, Some(2));
    assert_eq!(state.log.snapshot_last_index(), 4);
    assert_eq!(state.log.len(), 1);
    assert_eq!(state.log.last_index(), 5);
    // A snapshot from the leader that the log does not agree with, or that goes beyond it.
    for base in [(4, 3), (9, 3)] {
        assert!(follows_snapshot(&stored(), Some(base)));
        let state = restore(stored(), Some(base));
        assert!(state.log.is_empty());
        assert_eq!(state.log.last_index(), base.0);
        assert_eq!(state.log.last_term(), base.1);
    }
}

#[test]
fn file_names() {
    assert_eq!(state_file_name(12), "node-12.state");
    assert_eq!(snapshot_file_name(12), "node-12.snapshot");
}

// ── Transport ──────────────────────────────────────────────────────────────

fn get_request(id: u64) -> ClientRequest {
    ClientRequest { id, operation: ClientOperation::Get { key: "k".into() } }
}

#[test]
fn first_message_tells_the_connection() {
    let peers = vec![
        RaftMessage::VoteRequest(VoteRequest {
            term: 1,
            candidate_id: 9,
            last_log_index: 0,
            last_log_term: 0,
        }),
        RaftMessage::VoteResponse(VoteResponse { term: 1, vote_granted: true, peer_id: 9 }),
        RaftMessage::AppendEntriesRequest(AppendEntriesRequest {
            term: 1,
            leader_id: 9,
            prev_log_index: 0,
            prev_log_term: 0,
            entries: vec![],
            leader_commit: 0,
            round: 0,
        }),
        RaftMessage::AppendEntriesResponse(AppendEntriesResponse {
            term: 1,
            success: true,
            conflict_index: None,
            conflict_term: None,
            match_index: 0,
            round: 0,
            peer_id: 9,
        }),
        RaftMessage::InstallSnapshotResponse(InstallSnapshotResponse { term: 1, peer_id: 9 }),
    ];
    for message in peers {
        let (connection, delivery) = Connection::Fresh.receive(message);
        assert_eq!(connection, Connection::Peer(9));
        assert!(matches!(delivery, Delivery::Forward(incoming) if incoming.from == 9));
    }
    let (connection, delivery) =
        Connection::Fresh.receive(RaftMessage::ClientRequest(get_request(4)));
    assert_eq!(connection, Connection::Client);
    assert!(matches!(delivery, Delivery::Submit(req) if req.id == 4));
    let unexpected = vec![
        RaftMessage::InstallSnapshotRequest(InstallSnapshotRequest {
            term: 1,
            leader_id: 9,
            last_included_index: 1,
            last_included_term: 1,
            data: vec![],
        }),
        RaftMessage::ClientResponse(ClientResponse { id: 1, result: ClientResult::Success(None) }),
    ];
    for message in unexpected {
        let (connection, delivery) = Connection::Fresh.receive(message);
        assert_eq!(connection, Connection::Closed);
        assert!(matches!(delivery, Delivery::Drop));
    }
}

#[test]
fn later_messages_follow_the_first() {
    let vote = || RaftMessage::VoteResponse(VoteResponse { term: 1, vote_granted: true, peer_id: 5 });
    let (connection, delivery) = Connection::Peer(9).receive(vote());
    assert_eq!(connection, Connection::Peer(9));
    assert!(matches!(delivery, Delivery::Forward(incoming) if incoming.from == 9));
    let (connection, delivery) = Connection::Client.receive(vote());
    assert_eq!(connection, Connection::Closed);
    assert!(matches!(delivery, Delivery::Drop));
    let (connection, delivery) =
        Connection::Client.receive(RaftMessage::ClientRequest(get_request(5)));
    assert_eq!(connection, Connection::Client);
    assert!(matches!(delivery, Delivery::Submit(_)));
}

#[test]
fn links_reconnect_with_growing_waits() {
    let mut link = PeerLink::new();
    assert_eq!(link.next(LinkEvent::Start).1, LinkStep::Connect);
    let mut waits = Vec::new();
    for _ in 0..7 {
        let (next, step) = link.next(LinkEvent::ConnectFailed);
        assert!(!next.connected);
        if let LinkStep::Drop { wait_ms } = step {
            waits.push(wait_ms);
        }
        link = next;
    }
    assert_eq!(waits, vec![100, 200, 400, 800, 1600, 1600, 1600]);
    assert_eq!((BACKOFF_START_MS, BACKOFF_LIMIT_MS), (100, 1600));
    let (link, step) = link.next(LinkEvent::Connected);
    assert_eq!(step, LinkStep::Send);
    assert_eq!(link, PeerLink { connected: true, backoff_ms: 100 });
    assert_eq!(link.next(LinkEvent::Start).1, LinkStep::Send);
    assert_eq!(link.next(LinkEvent::Sent).1, LinkStep::Done);
    let (link, step) = link.next(LinkEvent::SendFailed);
    assert!(!link.connected);
    assert_eq!(step, LinkStep::Connect);
}

// ── Client ─────────────────────────────────────────────────────────────────

fn answer(result: ClientResult) -> RaftMessage {
    RaftMessage::ClientResponse(ClientResponse { id: 1, result })
}

#[test]
fn request_ids_count_up() {
    let mut session = Session::new(vec!["a".into(), "b".into()], "a".into());
    assert_eq!(session.take_request_id(), 1);
    assert_eq!(session.take_request_id(), 2);
    let mut session = session.connected_to("b".into());
    assert_eq!(session.take_request_id(), 3);
}

#[test]
fn redirects_try_all_other_nodes() {
    let session = Session::new(vec!["a".into(), "b".into(), "c".into(), "b".into()], "b".into());
    assert_eq!(session.redirect_candidates(), vec!["a", "c"]);
}

#[test]
fn requests_go_out_five_times() {
    let mut exchange = Exchange::new(8, ClientOperation::Get { key: "k".into() });
    for _ in 0..5 {
        let (next, step) = exchange.next();
        assert!(matches!(&step, ExchangeStep::Send(req) if req.id == 8));
        let (next, step) =
            next.receive(answer(ClientResult::NotLeader { leader_hint: Some(2) }));
        assert!(matches!(step, ExchangeStep::Redirect(Some(2))));
        exchange = next;
    }
    assert!(matches!(exchange.next().1, ExchangeStep::GiveUp));
}

#[test]
fn answers_finish_a_request() {
    let exchange = Exchange::new(8, ClientOperation::Get { key: "k".into() });
    let (exchange, _) = exchange.next();
    let stray = RaftMessage::VoteResponse(VoteResponse { term: 1, vote_granted: true, peer_id: 5 });
    let (exchange, step) = exchange.receive(stray);
    assert!(matches!(step, ExchangeStep::Send(_)));
    assert_eq!(exchange.attempts, 2);
    let (_, step) = exchange.receive(answer(ClientResult::Success(Some("v".into()))));
    match step {
        ExchangeStep::Finish(resp) => {
            assert_eq!(value_of(resp).ok(), Some(Some("v".to_string())));
        }
        other => panic!("unexpected step {other:?}"),
    }
}

#[test]
fn errors_in_words() {
    let refused = value_of(ClientResponse { id: 1, result: ClientResult::Error("full".into()) });
    assert_eq!(refused.err().map(|e| e.message()), Some("server error: full".to_string()));
    assert_eq!(ClientError::TooManyRedirects.message(), "too many leader redirects");
    assert_eq!(ClientError::NoLeader.message(), "could not find the leader after redirect");
    assert_eq!(ClientError::UnexpectedResponse.message(), "unexpected response type");
}

#[test]
fn command_line_outputs() {
    let found = get_output(Some("bar".into()));
    assert_eq!((found.text.as_str(), found.to_stderr, found.exit_code), ("bar", false, 0));
    let missing = get_output(None);
    assert_eq!((missing.text.as_str(), missing.to_stderr, missing.exit_code), ("(nil)", true, 1));
    assert_eq!(put_output().text, "OK");
    assert_eq!(delete_output(Some("bar".into())).text, "(deleted: bar)");
    assert_eq!(delete_output(None).text, "(nil — key did not exist)");
}

// ── Load tester ────────────────────────────────────────────────────────────

fn described(operation: ClientOperation) -> String {
    match operation {
        ClientOperation::Put { key, value } => format!("put {key} {value}"),
        ClientOperation::Get { key } => format!("get {key}"),
        ClientOperation::Delete { key } => format!("delete {key}"),
    }
}

#[test]
fn workloads() {
    assert_eq!(described(operation(Workload::Write, 3, 7)), "put bench-3-7 7");
    assert_eq!(described(operation(Workload::Read, 3, 7)), "get bench-3-7");
    assert_eq!(described(operation(Workload::Mixed, 0, 8)), "put bench-0-4 4");
    assert_eq!(described(operation(Workload::Mixed, 0, 9)), "get bench-0-4");
}

#[test]
fn tries_have_ids_of_their_own() {
    let mut attempt =
        Attempt { operation: ClientOperation::Get { key: "k".into() }, next_id: 10, tries: 0 };
    let mut ids = Vec::new();
    for _ in 0..5 {
        let (next, step) = attempt.next();
        if let AttemptStep::Send(req) = step {
            ids.push(req.id);
        }
        attempt = next;
    }
    assert_eq!(ids, vec![10, 11, 12, 13, 14]);
    assert!(matches!(attempt.next().1, AttemptStep::GiveUp));
}

#[test]
fn answers_are_judged() {
    assert!(matches!(judge(answer(ClientResult::Success(None))), AttemptStep::Done));
    assert!(matches!(
        judge(answer(ClientResult::NotLeader { leader_hint: None })),
        AttemptStep::Redirect(None)
    ));
    assert!(matches!(
        judge(answer(ClientResult::Error("e".into()))),
        AttemptStep::Failed(reason) if reason == "e"
    ));
    assert!(matches!(
        judge(RaftMessage::ClientRequest(get_request(1))),
        AttemptStep::Unexpected
    ));
}

#[test]
fn hinted_leaders_come_first() {
    let addrs: Vec<String> = vec!["a".into(), "b".into(), "c".into()];
    let list = |hint, current: &str| {
        bench::redirect_candidates(&addrs, hint, &current.to_string())
    };
    assert_eq!(list(Some(3), "a"), vec!["c", "b"]);
    assert_eq!(list(Some(3), "c"), vec!["b", "a"]);
    assert_eq!(list(Some(1), "b"), vec!["a", "c"]);
    assert_eq!(list(Some(0), "b"), vec!["a", "c"]);
    assert_eq!(list(Some(9), "b"), vec!["a", "c"]);
    assert_eq!(list(None, "a"), vec!["b", "c"]);
}
