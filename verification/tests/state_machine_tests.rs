use cache::event::Event;
use cache::models::server_state::{Effect, ServerState};
use cache::raft::{Log, LogEntry, NodeStatus};
use cache::rpc::{AppendEntriesArgs, AppendEntriesReply, RequestVoteArgs};
use std::sync::mpsc;

fn state() -> ServerState {
    ServerState::new(1024, 1, String::from("127.0.0.1:7878"))
}

#[test]
fn new_state_knows_the_cluster() {
    let s = state();
    assert_eq!(s.peers.len(), 3);
    assert_eq!(s.node.node_status, NodeStatus::Follower);
    assert!(s.map.get(b"x").is_none());
}

#[test]
fn election_timeout_asks_other_peers() {
    let mut s = state();
    let event = Event::ElectionTimeout;
    assert!(s.can_handle(&event));
    match s.step(event) {
        Effect::RequestVotes { args, peers } => {
            assert_eq!(args.term, 1);
            assert_eq!(args.candidate_id, 1);
            assert_eq!(peers, vec!["127.0.0.1:7879", "127.0.0.1:7880"]);
        }
        _ => panic!("expected a vote request"),
    }
    assert_eq!(s.node.node_status, NodeStatus::Candidate);
    s.node.finish_election(1, 2);
    assert!(matches!(s.step(Event::ElectionTimeout), Effect::Nothing));
    assert_eq!(s.node.current_term, 1);
}

#[test]
fn client_command_answered_only_by_leader() {
    let mut s = state();
    let (tx, _rx) = mpsc::channel();
    assert!(matches!(s.step(Event::ClientCommand { command: vec![1], reply_to: tx }), Effect::Nothing));
    s.node.become_leader();
    let (tx, rx) = mpsc::channel();
    match s.step(Event::ClientCommand { command: vec![1], reply_to: tx }) {
        Effect::Reply { reply_to, messages, refresh_timer } => {
            assert!(!refresh_timer);
            assert_eq!(messages, vec![b"OK".to_vec()]);
            reply_to.send(messages[0].clone()).unwrap();
        }
        _ => panic!("expected a reply"),
    }
    assert_eq!(rx.recv().unwrap(), b"OK".to_vec());
    assert_eq!(s.node.log.len(), 1);
    assert_eq!(s.node.commit_index, 1);
}

#[test]
fn stale_vote_request_is_refused_once() {
    let mut s = state();
    s.node.current_term = 2;
    let (tx, _rx) = mpsc::channel();
    let args = RequestVoteArgs { term: 1, candidate_id: 2, last_log_index: 0, last_log_term: 1 };
    match s.step(Event::IncomingRequestVote { args, reply_to: tx }) {
        Effect::Reply { messages, .. } => {
            assert_eq!(messages, vec![vec![0u8, 0, 0, 0, 0, 0, 0, 0, 1]]);
        }
        _ => panic!("expected a reply"),
    }
    assert!(s.node.voted_for.is_none());
}

#[test]
fn newer_vote_request_is_granted() {
    let mut s = state();
    let (tx, _rx) = mpsc::channel();
    let args = RequestVoteArgs { term: 1, candidate_id: 3, last_log_index: 0, last_log_term: 0 };
    match s.step(Event::IncomingRequestVote { args, reply_to: tx }) {
        Effect::Reply { messages, .. } => {
            assert_eq!(messages, vec![vec![1u8, 0, 0, 0, 0, 0, 0, 0, 1]]);
        }
        _ => panic!("expected a reply"),
    }
    assert_eq!(s.node.voted_for, Some(3));
}

#[test]
fn one_grant_out_of_two_peers_elects() {
    let mut s = state();
    let peers = match s.step(Event::ElectionTimeout) {
        Effect::RequestVotes { peers, .. } => peers,
        _ => panic!("expected a vote request"),
    };
    s.node.finish_election(1, peers.len());
    assert_eq!(s.node.node_status, NodeStatus::Leader);
    let (tx, rx) = mpsc::channel();
    match s.step(Event::ClientCommand { command: vec![1], reply_to: tx }) {
        Effect::Reply { reply_to, messages, .. } => {
            for m in messages {
                reply_to.send(m).unwrap();
            }
        }
        _ => panic!("expected a reply"),
    }
    assert_eq!(rx.recv().unwrap(), b"OK".to_vec());
}

#[test]
fn append_entries_reply_and_refresh() {
    let mut s = state();
    let mut log = Log::new();
    log.add_entry(LogEntry { command: vec![4], term: 2 });
    let args = AppendEntriesArgs { term: 2, leader_id: 2, prev_log_index: 0, prev_log_term: 0, log, leader_commit: 0 };
    let (tx, _rx) = mpsc::channel();
    let event = Event::IncomingAppendEntries { args, reply_to: tx };
    assert!(s.can_handle(&event));
    match s.step(event) {
        Effect::Reply { messages, refresh_timer, .. } => {
            assert!(refresh_timer);
            let reply = AppendEntriesReply { success: true, conflict_term: None, conflict_index: 0 };
            assert_eq!(messages, vec![reply.to_bytes()]);
        }
        _ => panic!("expected a reply"),
    }
    assert_eq!(s.node.current_term, 2);
}

#[test]
fn heartbeat_only_from_leader() {
    let mut s = state();
    match s.step(Event::AppendEntries) {
        Effect::Replicate { requests } => assert!(requests.is_empty()),
        _ => panic!("expected replication"),
    }
    s.node.become_leader();
    match s.step(Event::AppendEntries) {
        Effect::Replicate { requests } => assert_eq!(requests.len(), 2),
        _ => panic!("expected replication"),
    }
}

#[test]
fn vote_replies_are_not_handled() {
    let s = state();
    assert!(!s.can_handle(&Event::RpcReply { term: 1, vote_granted: true }));
}
