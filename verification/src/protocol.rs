//! The binary protocol between clients and the cache server, and the
//! command bytes that open the messages between nodes.
use vstd::prelude::*;
use crate::bytes::{be32, lemma_be32_roundtrip, push_be32, push_bytes, read_be32};
use crate::command::{command_byte, Command};
use crate::response::Response;
use crate::rpc::{append_entries_args_bytes, request_vote_args_bytes, AppendEntriesArgs, RequestVoteArgs};
use crate::status::{status_byte, status_from_byte, Status};

verus! {

/// The longest key the server accepts, in bytes.
pub const MAX_KEY_SIZE: u32 = 1024;

/// The longest value the server accepts, in bytes.
pub const MAX_VALUE_SIZE: u32 = 1048576;

/// The command byte that opens a vote request between nodes.
pub const REQUEST_VOTE_COMMAND: u8 = 4;

/// The command byte that opens an append-entries request between nodes.
pub const APPEND_ENTRIES_COMMAND: u8 = 5;

/// Whether the server accepts a key of `len` bytes.
pub fn key_len_allowed(len: u32) -> (r: bool)
    ensures
        r == (len <= MAX_KEY_SIZE),
{
    len <= MAX_KEY_SIZE
}

/// Whether the server accepts a value of `len` bytes.
pub fn value_len_allowed(len: u32) -> (r: bool)
    ensures
        r == (len <= MAX_VALUE_SIZE),
{
    len <= MAX_VALUE_SIZE
}

/// A request that names one key: the command byte, the key's length (as a
/// `u32`) and the key.
pub open spec fn key_request_bytes(c: Command, key: Seq<u8>) -> Seq<u8> {
    seq![command_byte(c)] + be32(key.len() as u32) + key
}

/// A SET request: command byte `2`, the key's length and the key, then the
/// value's length and the value (lengths as `u32`).
pub open spec fn set_request_bytes(key: Seq<u8>, value: Seq<u8>) -> Seq<u8> {
    seq![command_byte(Command::Put)] + be32(key.len() as u32) + key + be32(value.len() as u32) + value
}

/// A response: the status byte, the body's length (as a `u32`) and the body.
pub open spec fn response_bytes(s: Status, body: Seq<u8>) -> Seq<u8> {
    seq![status_byte(s)] + be32(body.len() as u32) + body
}

/// Frames a request that names one key (GET and DEL).
pub fn key_request(command: Command, key: &[u8]) -> (r: Vec<u8>)
    ensures
        r@ == key_request_bytes(command, key@),
{
    let mut out: Vec<u8> = Vec::new();
    out.push(command.to_byte());
    push_be32(&mut out, key.len() as u32);
    push_bytes(&mut out, key);
    assert(out@ =~= key_request_bytes(command, key@));
    out
}

/// Frames a SET request.
pub fn set_request(key: &[u8], value: &[u8]) -> (r: Vec<u8>)
    ensures
        r@ == set_request_bytes(key@, value@),
{
    let mut out: Vec<u8> = Vec::new();
    out.push(Command::Put.to_byte());
    push_be32(&mut out, key.len() as u32);
    push_bytes(&mut out, key);
    push_be32(&mut out, value.len() as u32);
    push_bytes(&mut out, value);
    assert(out@ =~= set_request_bytes(key@, value@));
    out
}

/// Frames a vote request for another node: byte `4`, then the request.
pub fn vote_request_message(args: &RequestVoteArgs) -> (r: Vec<u8>)
    ensures
        r@ == seq![REQUEST_VOTE_COMMAND] + request_vote_args_bytes(*args),
{
    let mut out: Vec<u8> = Vec::new();
    out.push(REQUEST_VOTE_COMMAND);
    let body = match args.to_bytes() {
        Ok(b) => b,
        Err(_) => Vec::new(),
    };
    push_bytes(&mut out, body.as_slice());
    assert(out@ =~= seq![REQUEST_VOTE_COMMAND] + request_vote_args_bytes(*args));
    out
}

/// Frames an append-entries request for another node: byte `5`, then the
/// request.
pub fn append_entries_message(args: &AppendEntriesArgs) -> (r: Vec<u8>)
    ensures
        r@ == seq![APPEND_ENTRIES_COMMAND] + append_entries_args_bytes(args@),
{
    let mut out: Vec<u8> = Vec::new();
    out.push(APPEND_ENTRIES_COMMAND);
    let body = args.to_bytes();
    push_bytes(&mut out, body.as_slice());
    assert(out@ =~= seq![APPEND_ENTRIES_COMMAND] + append_entries_args_bytes(args@));
    out
}

/// Frames a response.
pub fn encode_response(status: Status, body: &[u8]) -> (r: Vec<u8>)
    ensures
        r@ == response_bytes(status, body@),
{
    let mut out: Vec<u8> = Vec::new();
    out.push(status.to_byte());
    push_be32(&mut out, body.len() as u32);
    push_bytes(&mut out, body);
    assert(out@ =~= response_bytes(status, body@));
    out
}

/// The text that `String::from_utf8_lossy` makes of a byte string.
pub uninterp spec fn utf8_lossy(bytes: Seq<u8>) -> Seq<char>;

/// Decodes `bytes` as UTF-8 with `String::from_utf8_lossy`, which puts a
/// replacement character where the bytes are not UTF-8. Stated: the result
/// is `utf8_lossy` of the bytes, and ASCII bytes come out as the same
/// characters; what other bytes become is left to `utf8_lossy`.
#[verifier::external_body]
fn lossy_text(bytes: &[u8]) -> (r: String)
    ensures
        r@ == utf8_lossy(bytes@),
        (forall|i: int| 0 <= i < bytes@.len() ==> #[trigger] bytes@[i] < 128) ==> r@ == bytes@.map_values(
            |b: u8| b as char,
        ),
{
    String::from_utf8_lossy(bytes).into_owned()
}

/// Decodes a response from its status byte and its body: a success carries
/// the body, a missing key carries nothing, an error carries the body as
/// text; an unknown status byte is returned as the error.
pub fn decode_response(status: u8, body: Vec<u8>) -> (r: Result<Response, u8>)
    ensures
        match status_from_byte(status) {
            Ok(Status::Success) => r matches Ok(Response::Success(b)) && b@ == body@,
            Ok(Status::NotFound) => r matches Ok(Response::NotFound),
            Ok(Status::Error) => r matches Ok(Response::Error(m)) && m@ == utf8_lossy(body@),
            Err(x) => r == Err::<Response, u8>(x),
        },
{
    if status == 0x00 {
        Ok(Response::Success(body))
    } else if status == 0x01 {
        Ok(Response::NotFound)
    } else if status == 0xFF {
        Ok(Response::Error(lossy_text(body.as_slice())))
    } else {
        Err(status)
    }
}

/// A response frame whose body length fits a `u32` gives back its status,
/// its body length and its body.
pub proof fn lemma_response_frame(s: Status, body: Seq<u8>)
    requires
        body.len() <= u32::MAX,
    ensures
        ({
            let f = response_bytes(s, body);
            &&& f.len() == 5 + body.len()
            &&& status_from_byte(f[0]) == Ok::<Status, u8>(s)
            &&& read_be32(f.subrange(1, 5)) == body.len()
            &&& f.subrange(5, f.len() as int) == body
        }),
{
    let f = response_bytes(s, body);
    lemma_be32_roundtrip(body.len() as u32);
    assert(f.subrange(1, 5) =~= be32(body.len() as u32));
    assert(f.subrange(5, f.len() as int) =~= body);
}

/// A request frame that names one key whose length fits a `u32` gives back
/// its command, its key length and its key.
pub proof fn lemma_key_request_frame(c: Command, key: Seq<u8>)
    requires
        key.len() <= u32::MAX,
    ensures
        ({
            let f = key_request_bytes(c, key);
            &&& f.len() == 5 + key.len()
            &&& crate::command::command_from_byte(f[0]) == Ok::<Command, u8>(c)
            &&& read_be32(f.subrange(1, 5)) == key.len()
            &&& f.subrange(5, f.len() as int) == key
        }),
{
    let f = key_request_bytes(c, key);
    lemma_be32_roundtrip(key.len() as u32);
    assert(f.subrange(1, 5) =~= be32(key.len() as u32));
    assert(f.subrange(5, f.len() as int) =~= key);
}

} // verus!
