use cache::raft::{Log, LogEntry};
use cache::rpc::{AppendEntriesArgs, AppendEntriesReply, RequestVoteArgs, RequestVoteReply};

#[test]
pub fn test_append_entries_reply() {
    let append_entries_reply = AppendEntriesReply {
        success: true,
        conflict_index: 2,
        conflict_term: Some(20),
    };

    assert!(append_entries_reply.to_bytes().len() == 18);

    let repr = append_entries_reply.to_bytes();

    let append_entries_deserial = AppendEntriesReply::from_bytes(repr);

    println!("Reply {:?}", append_entries_deserial);

    assert!(true);
}

#[test]
fn request_vote_args_wire_form_and_back() {
    let args = RequestVoteArgs { term: 3, candidate_id: 1, last_log_index: 5, last_log_term: 2 };
    let bytes = args.to_bytes().unwrap();
    assert_eq!(
        bytes,
        vec![0, 0, 0, 0, 0, 0, 0, 3, 0, 0, 0, 1, 0, 0, 0, 0, 0, 0, 0, 5, 0, 0, 0, 0, 0, 0, 0, 2]
    );
    let array: [u8; 28] = bytes.try_into().unwrap();
    let back = RequestVoteArgs::from_bytes(&array);
    assert_eq!(back.term, 3);
    assert_eq!(back.candidate_id, 1);
    assert_eq!(back.last_log_index, 5);
    assert_eq!(back.last_log_term, 2);
}

#[test]
fn request_vote_reply_wire_form_and_back() {
    let reply = RequestVoteReply { term: 0x0102, vote_granted: true };
    let bytes = reply.to_bytes().unwrap();
    assert_eq!(bytes, vec![1, 0, 0, 0, 0, 0, 0, 1, 2]);
    let array: [u8; 9] = bytes.try_into().unwrap();
    let back = RequestVoteReply::from_bytes(&array);
    assert!(back.vote_granted);
    assert_eq!(back.term, 0x0102);
    let refused = RequestVoteReply::from_bytes(&[2, 0, 0, 0, 0, 0, 0, 0, 9]);
    assert!(!refused.vote_granted);
    assert_eq!(refused.term, 9);
}

#[test]
fn append_entries_reply_roundtrip_with_term() {
    let reply = AppendEntriesReply { success: false, conflict_index: 7, conflict_term: Some(4) };
    let bytes = reply.to_bytes();
    assert_eq!(bytes, vec![0, 1, 0, 0, 0, 0, 0, 0, 0, 4, 0, 0, 0, 0, 0, 0, 0, 7]);
    assert!(AppendEntriesReply::readable(&bytes));
    let back = AppendEntriesReply::from_bytes(bytes);
    assert!(!back.success);
    assert_eq!(back.conflict_term, Some(4));
    assert_eq!(back.conflict_index, 7);
}

#[test]
fn append_entries_reply_without_term_is_not_readable() {
    let reply = AppendEntriesReply { success: true, conflict_index: 7, conflict_term: None };
    let bytes = reply.to_bytes();
    assert_eq!(bytes, vec![1, 0, 0, 0, 0, 0, 0, 0, 0, 7]);
    assert!(!AppendEntriesReply::readable(&bytes));
    // with one more byte the reader skips the byte after the tag
    let mut padded = vec![1, 0, 9];
    padded.extend_from_slice(&[0, 0, 0, 0, 0, 0, 0, 7]);
    assert!(AppendEntriesReply::readable(&padded));
    let back = AppendEntriesReply::from_bytes(padded);
    assert!(back.success);
    assert_eq!(back.conflict_term, None);
    assert_eq!(back.conflict_index, 7);
    assert!(!AppendEntriesReply::readable(&[1, 2, 0, 0, 0, 0, 0, 0, 0, 0, 0, 0, 0, 0, 0, 0, 0, 0]));
}

fn sample_args() -> AppendEntriesArgs {
    let mut log = Log::new();
    log.add_entry(LogEntry { command: vec![5, 6], term: 2 });
    AppendEntriesArgs { term: 9, leader_id: 1, prev_log_index: 3, prev_log_term: 4, log, leader_commit: 2 }
}

#[test]
fn append_entries_args_wire_form_and_back() {
    let bytes = sample_args().to_bytes();
    assert_eq!(&bytes[0..4], &[0, 0, 0, 1]);
    assert_eq!(&bytes[4..12], &[0, 0, 0, 0, 0, 0, 0, 9]);
    assert_eq!(&bytes[12..16], &[0, 0, 0, 2]);
    assert_eq!(&bytes[16..20], &[0, 0, 0, 4]);
    assert_eq!(&bytes[20..24], &[0, 0, 0, 3]);
    assert_eq!(bytes.len(), 24 + 4 + 14);
    let back = AppendEntriesArgs::from_bytes(bytes);
    assert_eq!(back.term, 9);
    assert_eq!(back.leader_id, 1);
    assert_eq!(back.prev_log_index, 3);
    assert_eq!(back.prev_log_term, 4);
    assert_eq!(back.leader_commit, 2);
    assert_eq!(back.log.entries[0].command, vec![5, 6]);
    assert_eq!(back.log.entries[0].term, 2);
    assert!(AppendEntriesArgs::parse(&[0; 23]).is_none());
}

#[test]
fn refused_append_entries_retry_uses_conflict() {
    let reply = AppendEntriesReply { success: false, conflict_index: 0x1_0000_0001, conflict_term: Some(8) };
    let next = sample_args().next_attempt(&reply).unwrap();
    assert_eq!(next.prev_log_index, 1);
    assert_eq!(next.prev_log_term, 1);
    assert_eq!(next.term, 9);
    let none = AppendEntriesReply { success: false, conflict_index: 4, conflict_term: None };
    let next = sample_args().next_attempt(&none).unwrap();
    assert_eq!(next.prev_log_index, 4);
    assert_eq!(next.prev_log_term, 0);
    let ok = AppendEntriesReply { success: true, conflict_index: 0, conflict_term: None };
    assert!(sample_args().next_attempt(&ok).is_none());
}
