//! The events that drive a node's state machine.
use vstd::prelude::*;
use std::sync::mpsc::Sender;
use crate::rpc::{AppendEntriesArgs, RequestVoteArgs};

verus! {

/// The sending half of a channel; the library only carries it through.
#[verifier::external_type_specification]
#[verifier::external_body]
#[verifier::reject_recursive_types(T)]
pub struct ExSender<T>(Sender<T>);

/// Something that happened to a node: a client's command, a timer firing,
/// or a message of the consensus protocol, with the channel on which an
/// answer is expected.
#[derive(Debug)]
#[allow(inconsistent_fields)]
pub enum Event {
    ClientCommand { command: Vec<u8>, reply_to: Sender<Vec<u8>> },
    ElectionTimeout,
    IncomingRequestVote { args: RequestVoteArgs, reply_to: Sender<Vec<u8>> },
    AppendEntries,
    IncomingAppendEntries { args: AppendEntriesArgs, reply_to: Sender<Vec<u8>> },
    RpcReply { term: u64, vote_granted: bool },
}

} // verus!
