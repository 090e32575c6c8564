use cache::bytes::{bytes_eq, copy_range, get_be32, get_be64, push_be32, push_be64};
use cache::command::Command;
use cache::protocol::{
    append_entries_message, decode_response, encode_response, key_len_allowed, key_request,
    set_request, value_len_allowed, vote_request_message,
};
use cache::raft::Log;
use cache::response::Response;
use cache::rpc::{AppendEntriesArgs, RequestVoteArgs};
use cache::status::Status;
use std::convert::TryFrom;

#[test]
fn big_endian_helpers() {
    let mut buf = Vec::new();
    push_be32(&mut buf, 0x01020304);
    push_be64(&mut buf, 0x0506070809101112);
    assert_eq!(buf, vec![1, 2, 3, 4, 5, 6, 7, 8, 9, 0x10, 0x11, 0x12]);
    assert_eq!(get_be32(&buf, 0), 0x01020304);
    assert_eq!(get_be64(&buf, 4), 0x0506070809101112);
    assert_eq!(copy_range(&buf, 2, 5), vec![3, 4, 5]);
    assert!(bytes_eq(b"abc", b"abc"));
    assert!(!bytes_eq(b"abc", b"abd"));
    assert!(!bytes_eq(b"abc", b"ab"));
}

#[test]
fn command_bytes() {
    assert_eq!(Command::try_from(1u8), Ok(Command::Get));
    assert_eq!(Command::try_from(2u8), Ok(Command::Put));
    assert_eq!(Command::try_from(3u8), Ok(Command::Del));
    assert_eq!(Command::try_from(4u8), Err(4));
    assert_eq!(Command::Del.to_byte(), 3);
}

#[test]
fn status_bytes() {
    assert_eq!(Status::try_from(0u8), Ok(Status::Success));
    assert_eq!(Status::try_from(1u8), Ok(Status::NotFound));
    assert_eq!(Status::try_from(0xFFu8), Ok(Status::Error));
    assert_eq!(Status::try_from(2u8), Err(2));
    assert_eq!(Status::Error.to_byte(), 0xFF);
}

#[test]
fn request_frames() {
    assert_eq!(key_request(Command::Get, b"ab"), vec![1, 0, 0, 0, 2, b'a', b'b']);
    assert_eq!(key_request(Command::Del, b""), vec![3, 0, 0, 0, 0]);
    assert_eq!(set_request(b"k", b"vv"), vec![2, 0, 0, 0, 1, b'k', 0, 0, 0, 2, b'v', b'v']);
    let args = RequestVoteArgs { term: 3, candidate_id: 1, last_log_index: 5, last_log_term: 2 };
    let message = vote_request_message(&args);
    assert_eq!(message[0], 4);
    assert_eq!(&message[1..], args.to_bytes().unwrap().as_slice());
    let ae = AppendEntriesArgs { term: 1, leader_id: 2, prev_log_index: 0, prev_log_term: 0, log: Log::new(), leader_commit: 0 };
    let message = append_entries_message(&ae);
    assert_eq!(message[0], 5);
    assert_eq!(message.len(), 1 + 24 + 4);
}

#[test]
fn size_limits() {
    assert!(key_len_allowed(1024));
    assert!(!key_len_allowed(1025));
    assert!(value_len_allowed(1024 * 1024));
    assert!(!value_len_allowed(1024 * 1024 + 1));
}

#[test]
fn response_frames_and_decoding() {
    assert_eq!(encode_response(Status::Success, b"hi"), vec![0, 0, 0, 0, 2, b'h', b'i']);
    assert_eq!(encode_response(Status::NotFound, b""), vec![1, 0, 0, 0, 0]);
    match decode_response(0, b"value".to_vec()) {
        Ok(Response::Success(body)) => assert_eq!(body, b"value"),
        other => panic!("unexpected {:?}", other),
    }
    assert!(matches!(decode_response(1, vec![]), Ok(Response::NotFound)));
    match decode_response(0xFF, b"bad key".to_vec()) {
        Ok(Response::Error(message)) => assert_eq!(message, "bad key"),
        other => panic!("unexpected {:?}", other),
    }
    match decode_response(0xFF, vec![0x66, 0xFF, 0x67]) {
        Ok(Response::Error(message)) => assert_eq!(message, "f\u{FFFD}g"),
        other => panic!("unexpected {:?}", other),
    }
    assert!(matches!(decode_response(7, vec![]), Err(7)));
}
