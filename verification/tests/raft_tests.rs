use cache::raft::{
    cluster_members, generate_random_number, other_members, Log, LogEntry, Node, NodeStatus,
    VoteRequestResult,
};
use cache::rpc::AppendEntriesArgs;
use std::convert::TryFrom;

#[test]
pub fn test_log_serialization() {
    let log = Log {
        entries: vec![LogEntry {
            command: vec![1u8],

            term: 3,
        }],
    };

    let log_bytes = log.to_bytes();

    println!("Log bytes in len {}", log_bytes.len());

    let log_deserialized = Log::from_bytes(log_bytes);

    println!("Log deserialized {:?}", log_deserialized);

    assert_eq!(log.entries.len(), log_deserialized.entries.len());
}

#[test]
pub fn test_log_entry_serialization() {
    let log_entry = LogEntry {
        command: vec![2u8, 4u8],
        term: 1,
    };

    let bytes = log_entry.to_bytes();

    let log_entry_deserialized = LogEntry::from_bytes(bytes);

    println!("{:?}", log_entry_deserialized);

    assert_eq!(
        log_entry.command.len(),
        log_entry_deserialized.command.len()
    );
}

#[test]
pub fn test_append_entries_serialization() {
    let mut log = Log::new();
    log.add_entry(LogEntry {
        command: vec![0u8],
        term: 3,
    });
    let append_entries = AppendEntriesArgs {
        leader_commit: 0,
        term: 1,
        leader_id: 1,
        prev_log_index: 0,
        prev_log_term: 0,
        log: log,
    };

    println!("Log serialized {:?}", append_entries);

    let bytes_repr = append_entries.to_bytes();

    println!("Bytes len {}", bytes_repr.len());

    let append_entries_deserialized = AppendEntriesArgs::from_bytes(bytes_repr);

    println!("Log deserialized {:?}", append_entries_deserialized);

    assert!(true)
}

fn entry(command: &[u8], term: u64) -> LogEntry {
    LogEntry { command: command.to_vec(), term }
}

#[test]
fn log_entry_wire_form_is_length_term_command() {
    let bytes = entry(&[9, 8, 7], 0x0102).to_bytes();
    assert_eq!(bytes, vec![0, 0, 0, 3, 0, 0, 0, 0, 0, 0, 1, 2, 9, 8, 7]);
    let back = LogEntry::from_bytes(bytes);
    assert_eq!(back.command, vec![9, 8, 7]);
    assert_eq!(back.term, 0x0102);
}

#[test]
fn log_entry_reader_ignores_length_field() {
    let back = LogEntry::from_bytes(vec![0, 0, 0, 99, 0, 0, 0, 0, 0, 0, 0, 5, 1, 2]);
    assert_eq!(back.term, 5);
    assert_eq!(back.command, vec![1, 2]);
}

#[test]
fn log_roundtrip_keeps_every_entry() {
    let mut log = Log::new();
    log.add_entry(entry(&[1, 2, 3], 1));
    log.add_entry(entry(&[], 2));
    log.add_entry(entry(&[4], 7));
    let bytes = log.to_bytes();
    assert_eq!(&bytes[0..4], &[0, 0, 0, 3]);
    assert_eq!(bytes.len(), 4 + 15 + 12 + 13);
    let back = Log::from_bytes(bytes);
    assert_eq!(back.len(), 3);
    assert_eq!(back.entries[0].command, vec![1, 2, 3]);
    assert_eq!(back.entries[1].command, Vec::<u8>::new());
    assert_eq!(back.entries[1].term, 2);
    assert_eq!(back.entries[2].term, 7);
}

#[test]
fn log_parse_refuses_truncated_bytes() {
    assert!(Log::parse(&[0, 0]).is_none());
    // announces one entry but holds none
    assert!(Log::parse(&[0, 0, 0, 1]).is_none());
    // the entry announces three command bytes but holds two
    assert!(Log::parse(&[0, 0, 0, 1, 0, 0, 0, 3, 0, 0, 0, 0, 0, 0, 0, 1, 5, 6]).is_none());
    let empty = Log::parse(&[0, 0, 0, 0, 42]).unwrap();
    assert_eq!(empty.len(), 0);
}

#[test]
fn append_to_entries_appends_copies_in_order() {
    let mut log = Log::new();
    log.add_entry(entry(&[1], 1));
    log.append_to_entries(vec![entry(&[2], 2), entry(&[3], 3)]);
    assert_eq!(log.len(), 3);
    assert_eq!(log.entries[2].command, vec![3]);
    let copy = log.clone();
    assert_eq!(copy.entries[1].term, 2);
}

fn node() -> Node {
    Node::new(7, String::from("127.0.0.1:7879"))
}

#[test]
fn new_node_is_follower_in_term_zero() {
    let n = node();
    assert_eq!(n.node_status, NodeStatus::Follower);
    assert_eq!(n.current_term, 0);
    assert_eq!(n.commit_index, 0);
    assert!(n.voted_for.is_none());
    assert!(n.leader.is_none());
    assert_eq!(n.log.len(), 0);
    n.ask_for_leadership();
}

#[test]
fn vote_request_outcomes() {
    let mut n = node();
    n.current_term = 5;
    n.commit_index = 3;
    assert_eq!(
        n.handle_vote_request(4, 10),
        Err("You are behind on terms. Node requesting leadership might be outdated.")
    );
    assert_eq!(
        n.handle_vote_request(5, 2),
        Err("I have a more recent logs compared to you hence I am more updated")
    );
    assert_eq!(n.handle_vote_request(5, 3), Ok(()));
}

#[test]
fn become_leader_votes_for_itself() {
    let mut n = node();
    n.become_leader();
    assert_eq!(n.node_status, NodeStatus::Leader);
    assert_eq!(n.voted_for, Some(7));
}

#[test]
fn election_timeout_starts_candidacy() {
    let mut n = node();
    n.current_term = 2;
    n.commit_index = 4;
    let args = n.start_election().unwrap();
    assert_eq!(n.node_status, NodeStatus::Candidate);
    assert_eq!(n.current_term, 3);
    assert_eq!(n.voted_for, Some(0));
    assert_eq!(args.term, 3);
    assert_eq!(args.candidate_id, 7);
    assert_eq!(args.last_log_index, 4);
    assert_eq!(args.last_log_term, 3);
    n.become_leader();
    assert!(n.start_election().is_none());
    assert_eq!(n.current_term, 3);
}

#[test]
fn election_needs_majority_of_cluster() {
    let mut n = node();
    // with two peers, its own vote and one grant make two of three
    n.finish_election(0, 2);
    assert_eq!(n.node_status, NodeStatus::Follower);
    n.finish_election(1, 2);
    assert_eq!(n.node_status, NodeStatus::Leader);
    let mut m = node();
    // with three peers, two of four votes are no majority
    m.finish_election(1, 3);
    assert_eq!(m.node_status, NodeStatus::Follower);
    m.finish_election(2, 3);
    assert_eq!(m.node_status, NodeStatus::Leader);
}

#[test]
fn conclude_vote_request_records_leader_on_quota() {
    let mut n = node();
    n.conclude_vote_request(0, 3);
    assert!(n.leader.is_none());
    n.conclude_vote_request(1, 3);
    assert_eq!(n.leader, Some(String::from("127.0.0.1:7879")));
}

#[test]
fn grant_vote_refuses_old_terms_and_grants_newer() {
    let mut n = node();
    n.current_term = 4;
    let args = cache::rpc::RequestVoteArgs { term: 4, candidate_id: 2, last_log_index: 0, last_log_term: 0 };
    let replies = n.grant_vote(&args);
    assert_eq!(replies.len(), 1);
    assert!(!replies[0].vote_granted);
    assert_eq!(replies[0].term, 4);
    assert!(n.voted_for.is_none());
    let newer = cache::rpc::RequestVoteArgs { term: 5, candidate_id: 3, last_log_index: 0, last_log_term: 0 };
    let replies = n.grant_vote(&newer);
    assert_eq!(replies.len(), 1);
    assert!(replies[0].vote_granted);
    assert_eq!(replies[0].term, 5);
    assert_eq!(n.voted_for, Some(3));
}

#[test]
fn only_leader_accepts_client_commands() {
    let mut n = node();
    assert!(!n.accept_client_command(vec![1, 2]));
    assert_eq!(n.log.len(), 0);
    n.current_term = 6;
    n.become_leader();
    assert!(n.accept_client_command(vec![1, 2]));
    assert_eq!(n.log.len(), 1);
    assert_eq!(n.log.entries[0].term, 6);
    assert_eq!(n.log.entries[0].command, vec![1, 2]);
    assert_eq!(n.commit_index, 1);
}

fn request(term: u64, prev: u32, entries: Vec<LogEntry>, leader_commit: u32) -> AppendEntriesArgs {
    let mut log = Log::new();
    for e in entries {
        log.add_entry(e);
    }
    AppendEntriesArgs { term, leader_id: 1, prev_log_index: prev, prev_log_term: 0, log, leader_commit }
}

#[test]
fn append_entries_from_older_term_is_refused() {
    let mut n = node();
    n.current_term = 5;
    let (reply, refresh) = n.receive_append_entries(&request(4, 9, vec![], 0));
    assert!(!reply.success);
    assert_eq!(reply.conflict_index, 9);
    assert!(reply.conflict_term.is_none());
    assert!(!refresh);
    assert_eq!(n.current_term, 5);
}

#[test]
fn append_entries_beyond_log_is_refused_with_log_length() {
    let mut n = node();
    n.node_status = NodeStatus::Candidate;
    n.log.add_entry(entry(&[1], 1));
    let (reply, refresh) = n.receive_append_entries(&request(3, 4, vec![], 0));
    assert!(!reply.success);
    assert_eq!(reply.conflict_index, 1);
    assert!(refresh);
    assert_eq!(n.current_term, 3);
    assert_eq!(n.node_status, NodeStatus::Follower);
}

#[test]
fn append_entries_term_mismatch_names_first_index_of_term() {
    let mut n = node();
    n.log.add_entry(entry(&[1], 1));
    n.log.add_entry(entry(&[2], 2));
    n.log.add_entry(entry(&[3], 2));
    n.log.add_entry(entry(&[4], 2));
    let (reply, _) = n.receive_append_entries(&request(3, 3, vec![], 0));
    assert!(!reply.success);
    assert_eq!(reply.conflict_term, Some(2));
    assert_eq!(reply.conflict_index, 1);
    assert_eq!(n.log.len(), 4);
}

#[test]
fn append_entries_merges_and_moves_commit() {
    let mut n = node();
    n.log.add_entry(entry(&[1], 2));
    n.log.add_entry(entry(&[2], 2));
    n.log.add_entry(entry(&[3], 1));
    // the entry at index 1 carries the request's term: accepted; the new
    // entry goes to index 2, whose term differs, so the log is cut there
    let (reply, refresh) = n.receive_append_entries(&request(2, 1, vec![entry(&[9], 2)], 5));
    assert!(reply.success);
    assert_eq!(reply.conflict_index, 5);
    assert!(refresh);
    assert_eq!(n.log.len(), 3);
    assert_eq!(n.log.entries[2].command, vec![9]);
    // the entries up to the previous log index are kept
    assert_eq!(n.log.entries[0].command, vec![1]);
    assert_eq!(n.log.entries[1].command, vec![2]);
    assert_eq!(n.commit_index, 2);
}

#[test]
fn append_entries_same_term_appends_at_end() {
    let mut n = node();
    n.log.add_entry(entry(&[1], 1));
    n.log.add_entry(entry(&[2], 1));
    let (reply, _) = n.receive_append_entries(&request(1, 0, vec![entry(&[5], 1)], 0));
    assert!(reply.success);
    assert_eq!(n.log.len(), 3);
    assert_eq!(n.log.entries[2].command, vec![5]);
    assert_eq!(n.commit_index, 0);
}

#[test]
fn append_entries_safety_check() {
    let mut n = node();
    n.log.add_entry(entry(&[1], 1));
    // previous log index equal to the log length
    assert!(!n.append_entries_is_safe(&request(1, 1, vec![], 0)));
    // merging would look at the end of the log
    assert!(!n.append_entries_is_safe(&request(1, 0, vec![entry(&[2], 1)], 0)));
    n.log.add_entry(entry(&[2], 1));
    assert!(n.append_entries_is_safe(&request(1, 0, vec![entry(&[3], 1)], 0)));
}

#[test]
fn heartbeats_go_to_other_members() {
    let mut n = node();
    let peers = cluster_members();
    assert!(n.heartbeat_requests(&peers).is_empty());
    n.current_term = 3;
    n.commit_index = 2;
    n.become_leader();
    n.log.add_entry(entry(&[1], 3));
    let requests = n.heartbeat_requests(&peers);
    assert_eq!(requests.len(), 2);
    assert_eq!(requests[0].0, "127.0.0.1:7878");
    assert_eq!(requests[1].0, "127.0.0.1:7880");
    assert_eq!(requests[1].1.term, 3);
    assert_eq!(requests[1].1.prev_log_index, 2);
    assert_eq!(requests[1].1.leader_commit, 2);
    assert_eq!(requests[1].1.prev_log_term, 3);
    assert_eq!(requests[1].1.leader_id, 7);
    assert_eq!(requests[1].1.log.len(), 1);
}

#[test]
fn cluster_members_and_others() {
    let members = cluster_members();
    assert_eq!(members, vec!["127.0.0.1:7878", "127.0.0.1:7879", "127.0.0.1:7880"]);
    let others = other_members(&members, &String::from("127.0.0.1:7878"));
    assert_eq!(others, vec!["127.0.0.1:7879", "127.0.0.1:7880"]);
    let all = other_members(&members, &String::from("10.0.0.1:1"));
    assert_eq!(all.len(), 3);
}

#[test]
fn election_vote_request_bytes_layout() {
    let mut n = node();
    n.commit_index = 0x1_0000_0002;
    n.current_term = 3;
    assert_eq!(n.election_vote_request_bytes(), vec![7, 0, 0, 0, 2, 0, 0, 0, 3]);
}

#[test]
fn vote_request_result_bytes() {
    assert_eq!(VoteRequestResult::try_from(0u8), Ok(VoteRequestResult::Accepted));
    assert_eq!(VoteRequestResult::try_from(1u8), Ok(VoteRequestResult::Rejected));
    assert_eq!(VoteRequestResult::try_from(0xFFu8), Err(0xFF));
}

#[test]
fn election_timeouts_stay_in_range() {
    assert_eq!(generate_random_number(0), 1500);
    assert_eq!(generate_random_number(500), 2000);
    assert_eq!(generate_random_number(501), 1500);
    assert_eq!(cache::server_state::generate_random_number(50), 200);
    assert_eq!(cache::server_state::generate_random_number(51), 150);
}
