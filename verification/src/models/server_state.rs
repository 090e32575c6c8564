//! A node's whole state, and the step that takes it from one event to the next.
use vstd::prelude::*;
use std::sync::mpsc::Sender;
use crate::event::Event;
use crate::models::cache_store::CacheStore;
use crate::raft::{
    append_entries_received, append_entries_safe, client_command_accepted, cluster_addresses,
    cluster_members, election_started, heartbeats, other_members, others, strings_view,
    vote_granted, vote_replies, Node, NodeStatus,
};
use crate::rpc::{
    append_entries_reply_bytes, request_vote_reply_bytes, AppendEntriesArgs, RequestVoteArgs,
    RequestVoteReply,
};

verus! {

/// Everything a node holds: its store, its consensus state and the cluster's
/// members.
pub struct ServerState {
    pub map: CacheStore,
    pub node: Node,
    pub peers: Vec<String>,
}

/// What the node asks its environment to do after an event.
pub enum Effect {
    /// Nothing to do.
    Nothing,
    /// Reset the election timer first if `refresh_timer` is set, then send
    /// each message on `reply_to`, in order.
    Reply { reply_to: Sender<Vec<u8>>, messages: Vec<Vec<u8>>, refresh_timer: bool },
    /// Ask each peer for its vote with `args`; the number of grants goes to
    /// `Node::finish_election`.
    RequestVotes { args: RequestVoteArgs, peers: Vec<String> },
    /// Send each request to its peer.
    Replicate { requests: Vec<(String, AppendEntriesArgs)> },
}

/// The byte strings of a sequence of messages.
pub open spec fn messages_view(v: Seq<Vec<u8>>) -> Seq<Seq<u8>> {
    v.map_values(|m: Vec<u8>| m@)
}

/// Whether the state machine can handle `event` in `state`: it does not
/// handle vote replies, and it needs room for a new term, a new commit index
/// and a merge of the leader's entries where the event calls for them.
pub open spec fn can_step(state: &ServerState, event: &Event) -> bool {
    match event {
        Event::RpcReply { .. } => false,
        Event::ElectionTimeout => state.node.node_status != NodeStatus::Leader
            ==> state.node.current_term < u64::MAX,
        Event::ClientCommand { .. } => state.node.node_status == NodeStatus::Leader
            ==> state.node.commit_index < u64::MAX,
        Event::IncomingAppendEntries { args, .. } => append_entries_safe(&state.node, args@),
        _ => true,
    }
}

/// What handling `event` does: the node's new state `n` and the effect `e`.
pub open spec fn stepped(o: &ServerState, n: &ServerState, event: &Event, e: &Effect) -> bool {
    &&& n.map == o.map
    &&& n.peers == o.peers
    &&& match event {
        Event::ElectionTimeout => match e {
            Effect::Nothing => election_started(o.node, n.node, None),
            Effect::RequestVotes { args, peers } => {
                &&& election_started(o.node, n.node, Some(*args))
                &&& strings_view(peers@) == others(strings_view(o.peers@), o.node.node_ip@)
            },
            _ => false,
        },
        Event::IncomingRequestVote { args, reply_to } => {
            &&& vote_granted(o.node, n.node, *args)
            &&& e matches Effect::Reply { reply_to: to, messages, refresh_timer }
            &&& to == reply_to
            &&& !*refresh_timer
            &&& messages_view(messages@) == vote_replies(*args, o.node.current_term).map_values(
                |r: RequestVoteReply| request_vote_reply_bytes(r),
            )
        },
        Event::AppendEntries => {
            &&& n.node == o.node
            &&& e matches Effect::Replicate { requests }
            &&& heartbeats(o.node, o.peers@, requests@)
        },
        Event::IncomingAppendEntries { args, reply_to } => {
            &&& e matches Effect::Reply { reply_to: to, messages, refresh_timer }
            &&& to == reply_to
            &&& messages@.len() == 1
            &&& exists|reply: crate::rpc::AppendEntriesReply|
                {
                    &&& append_entries_received(o.node, n.node, args@, reply, *refresh_timer)
                    &&& #[trigger] messages@[0]@ == append_entries_reply_bytes(reply)
                }
        },
        Event::ClientCommand { command, reply_to } => {
            let leads = o.node.node_status == NodeStatus::Leader;
            &&& client_command_accepted(o.node, n.node, command@, leads)
            &&& !leads ==> e is Nothing
            &&& leads ==> {
                &&& e matches Effect::Reply { reply_to: to, messages, refresh_timer }
                &&& to == reply_to
                &&& !*refresh_timer
                &&& messages_view(messages@) == seq![seq![79u8, 75u8]]
            }
        },
        Event::RpcReply { .. } => false,
    }
}

impl ServerState {
    /// A fresh node `node_id` at `node_ip` with a store of `cache_capacity`
    /// bytes; the cluster's members are the three local addresses.
    pub fn new(cache_capacity: usize, node_id: u32, node_ip: String) -> (r: ServerState)
        ensures
            r.map.wf(),
            r.map@ == Map::<Seq<u8>, Seq<u8>>::empty(),
            r.map.capacity() == cache_capacity,
            r.node.id == node_id,
            r.node.node_ip == node_ip,
            r.node.voted_for is None,
            r.node.node_status == NodeStatus::Follower,
            r.node.commit_index == 0,
            r.node.current_term == 0,
            r.node.leader is None,
            r.node.log@ == Seq::<crate::raft::EntryModel>::empty(),
            strings_view(r.peers@) == cluster_addresses(),
    {
        ServerState { map: CacheStore::new(cache_capacity), node: Node::new(node_id, node_ip), peers: cluster_members() }
    }

    /// Whether `step` can handle `event` (see `can_step`).
    pub fn can_handle(&self, event: &Event) -> (r: bool)
        ensures
            r == can_step(self, event),
    {
        match event {
            Event::RpcReply { .. } => false,
            Event::ElectionTimeout => self.node.node_status == NodeStatus::Leader || self.node.current_term
                < u64::MAX,
            Event::ClientCommand { .. } => self.node.node_status != NodeStatus::Leader
                || self.node.commit_index < u64::MAX,
            Event::IncomingAppendEntries { args, .. } => self.node.append_entries_is_safe(args),
            _ => true,
        }
    }

    /// Handles one event: updates the node and says what to send.
    pub fn step(&mut self, event: Event) -> (e: Effect)
        requires
            can_step(old(self), &event),
        ensures
            stepped(old(self), final(self), &event, &e),
    {
        match event {
            Event::ElectionTimeout => {
                match self.node.start_election() {
                    None => Effect::Nothing,
                    Some(args) => {
                        let peers = other_members(&self.peers, &self.node.node_ip);
                        Effect::RequestVotes { args, peers }
                    },
                }
            },
            Event::IncomingRequestVote { args, reply_to } => {
                let replies = self.node.grant_vote(&args);
                let mut messages: Vec<Vec<u8>> = Vec::new();
                let n = replies.len();
                let mut i: usize = 0;
                while i < n
                    invariant
                        n == replies@.len(),
                        i <= n,
                        messages_view(messages@) == replies@.take(i as int).map_values(
                            |r: RequestVoteReply| request_vote_reply_bytes(r),
                        ),
                    decreases n - i,
                {
                    let bytes = match replies[i].to_bytes() {
                        Ok(b) => b,
                        Err(_) => Vec::new(),
                    };
                    let ghost before = messages@;
                    messages.push(bytes);
                    assert(replies@.take(i + 1) =~= replies@.take(i as int).push(replies@[i as int]));
                    assert(messages_view(messages@) =~= messages_view(before).push(request_vote_reply_bytes(replies@[i as int])));
                    assert(messages_view(messages@) =~= replies@.take(i + 1).map_values(
                        |r: RequestVoteReply| request_vote_reply_bytes(r),
                    ));
                    i = i + 1;
                }
                assert(replies@.take(n as int) =~= replies@);
                Effect::Reply { reply_to, messages, refresh_timer: false }
            },
            Event::AppendEntries => {
                let requests = self.node.heartbeat_requests(&self.peers);
                Effect::Replicate { requests }
            },
            Event::IncomingAppendEntries { args, reply_to } => {
                let (reply, refresh_timer) = self.node.receive_append_entries(&args);
                let mut messages: Vec<Vec<u8>> = Vec::new();
                messages.push(reply.to_bytes());
                Effect::Reply { reply_to, messages, refresh_timer }
            },
            Event::ClientCommand { command, reply_to } => {
                if self.node.accept_client_command(command) {
                    let mut messages: Vec<Vec<u8>> = Vec::new();
                    let mut ok: Vec<u8> = Vec::new();
                    ok.push(79u8);
                    ok.push(75u8);
                    assert(ok@ =~= seq![79u8, 75u8]);
                    messages.push(ok);
                    assert(messages_view(messages@)[0] == seq![79u8, 75u8]);
                    assert(messages_view(messages@) =~= seq![seq![79u8, 75u8]]);
                    Effect::Reply { reply_to, messages, refresh_timer: false }
                } else {
                    Effect::Nothing
                }
            },
            Event::RpcReply { .. } => Effect::Nothing,
        }
    }
}

/// A node's term never goes down: no event handled by `step` lowers it.
pub proof fn law_term_never_decreases(o: &ServerState, n: &ServerState, event: &Event, e: &Effect)
    requires
        stepped(o, n, event, e),
    ensures
        n.node.current_term >= o.node.current_term,
{
    match event {
        Event::IncomingAppendEntries { args, reply_to } => {
            let reply = choose|reply: crate::rpc::AppendEntriesReply|
                {
                    &&& append_entries_received(o.node, n.node, args@, reply, e->refresh_timer)
                    &&& #[trigger] e->messages@[0]@ == append_entries_reply_bytes(reply)
                };
        },
        _ => {},
    }
}

} // verus!
