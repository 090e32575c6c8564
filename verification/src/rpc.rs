//! The messages of the consensus protocol and their wire forms.
use vstd::prelude::*;
use crate::bytes::{
    be32, be64, get_be32, get_be64, lemma_be32_roundtrip, lemma_be64_roundtrip, push_be32,
    push_be64, push_bytes, read_be32, read_be64,
};
use crate::raft::{log_bytes, log_fits, parse_log, lemma_log_roundtrip, EntryModel, Log};

verus! {

/// The remote procedures of the consensus protocol.
pub enum RaftRpc {
    RequestVote {},
}

/// A candidate's request for a vote.
#[derive(Debug)]
pub struct RequestVoteArgs {
    pub term: u64,
    pub candidate_id: u32,
    pub last_log_index: usize,
    pub last_log_term: u64,
}

impl Clone for RequestVoteArgs {
    fn clone(&self) -> (r: Self)
        ensures
            r == *self,
    {
        RequestVoteArgs {
            term: self.term,
            candidate_id: self.candidate_id,
            last_log_index: self.last_log_index,
            last_log_term: self.last_log_term,
        }
    }
}

/// The 28-byte wire form of a vote request: term, candidate id, last log
/// index (as a `u64`) and last log term.
pub open spec fn request_vote_args_bytes(a: RequestVoteArgs) -> Seq<u8> {
    be64(a.term) + be32(a.candidate_id) + be64(a.last_log_index as u64) + be64(a.last_log_term)
}

/// The vote request that `RequestVoteArgs::from_bytes` reads from 28 bytes.
pub open spec fn request_vote_args_from(s: Seq<u8>) -> RequestVoteArgs {
    RequestVoteArgs {
        term: read_be64(s.subrange(0, 8)),
        candidate_id: read_be32(s.subrange(8, 12)),
        last_log_index: read_be64(s.subrange(12, 20)) as usize,
        last_log_term: read_be64(s.subrange(20, 28)),
    }
}

impl RequestVoteArgs {
    /// Serialises the request as `request_vote_args_bytes` describes; it
    /// never fails.
    pub fn to_bytes(&self) -> (r: Result<Vec<u8>, &'static str>)
        ensures
            r matches Ok(b) && b@ == request_vote_args_bytes(*self),
    {
        let mut buffer: Vec<u8> = Vec::new();
        push_be64(&mut buffer, self.term);
        push_be32(&mut buffer, self.candidate_id);
        push_be64(&mut buffer, self.last_log_index as u64);
        push_be64(&mut buffer, self.last_log_term);
        Ok(buffer)
    }

    /// Reads a vote request from its 28-byte wire form.
    pub fn from_bytes(bytes: &[u8; 28]) -> (r: RequestVoteArgs)
        ensures
            r == request_vote_args_from(bytes@),
    {
        let s = bytes.as_slice();
        let term = get_be64(s, 0);
        let candidate_id = get_be32(s, 8);
        let last_log_index = get_be64(s, 12);
        let last_commit_index = get_be64(s, 20);
        RequestVoteArgs {
            term: term,
            candidate_id: candidate_id,
            last_log_index: last_log_index as usize,
            last_log_term: last_commit_index,
        }
    }
}

/// A vote request survives the trip to its 28 bytes and back.
pub proof fn lemma_request_vote_args_roundtrip(a: RequestVoteArgs)
    ensures
        request_vote_args_bytes(a).len() == 28,
        request_vote_args_from(request_vote_args_bytes(a)) == a,
{
    let s = request_vote_args_bytes(a);
    lemma_be64_roundtrip(a.term);
    lemma_be32_roundtrip(a.candidate_id);
    lemma_be64_roundtrip(a.last_log_index as u64);
    lemma_be64_roundtrip(a.last_log_term);
    assert(s.subrange(0, 8) =~= be64(a.term));
    assert(s.subrange(8, 12) =~= be32(a.candidate_id));
    assert(s.subrange(12, 20) =~= be64(a.last_log_index as u64));
    assert(s.subrange(20, 28) =~= be64(a.last_log_term));
}

/// A voter's answer to a vote request.
#[derive(Debug)]
pub struct RequestVoteReply {
    pub term: u64,
    pub vote_granted: bool,
}

impl Clone for RequestVoteReply {
    fn clone(&self) -> (r: Self)
        ensures
            r == *self,
    {
        RequestVoteReply { term: self.term, vote_granted: self.vote_granted }
    }
}

/// The 9-byte wire form of a vote reply: `1` or `0` for the vote, then the term.
pub open spec fn request_vote_reply_bytes(r: RequestVoteReply) -> Seq<u8> {
    seq![if r.vote_granted { 1u8 } else { 0u8 }] + be64(r.term)
}

/// The reply that `RequestVoteReply::from_bytes` reads from 9 bytes: the vote
/// is granted exactly when the first byte is `1`.
pub open spec fn request_vote_reply_from(s: Seq<u8>) -> RequestVoteReply {
    RequestVoteReply { term: read_be64(s.subrange(1, 9)), vote_granted: s[0] == 1 }
}

impl RequestVoteReply {
    /// Serialises the reply as `request_vote_reply_bytes` describes; it never
    /// fails.
    pub fn to_bytes(&self) -> (r: Result<Vec<u8>, &'static str>)
        ensures
            r matches Ok(b) && b@ == request_vote_reply_bytes(*self),
    {
        let mut bytes_repr: Vec<u8> = Vec::new();
        if self.vote_granted {
            bytes_repr.push(1u8);
        } else {
            bytes_repr.push(0u8);
        }
        push_be64(&mut bytes_repr, self.term);
        assert(bytes_repr@ =~= request_vote_reply_bytes(*self));
        Ok(bytes_repr)
    }

    /// Reads a vote reply from its 9-byte wire form.
    pub fn from_bytes(bytes: &[u8; 9]) -> (r: RequestVoteReply)
        ensures
            r == request_vote_reply_from(bytes@),
    {
        let s = bytes.as_slice();
        let vote = s[0];
        let vote_granted = vote == 1;
        let term = get_be64(s, 1);
        RequestVoteReply { term, vote_granted }
    }
}

/// A vote reply survives the trip to its 9 bytes and back.
pub proof fn lemma_request_vote_reply_roundtrip(r: RequestVoteReply)
    ensures
        request_vote_reply_bytes(r).len() == 9,
        request_vote_reply_from(request_vote_reply_bytes(r)) == r,
{
    let s = request_vote_reply_bytes(r);
    lemma_be64_roundtrip(r.term);
    assert(s.subrange(1, 9) =~= be64(r.term));
}

/// A leader's request to append entries (also its heartbeat).
#[derive(Debug)]
pub struct AppendEntriesArgs {
    pub term: u64,
    pub leader_id: u32,
    pub prev_log_index: u32,
    pub prev_log_term: u32,
    pub log: Log,
    pub leader_commit: u32,
}

/// What an append-entries request holds, as a mathematical value.
pub struct AppendEntriesModel {
    pub term: u64,
    pub leader_id: u32,
    pub prev_log_index: u32,
    pub prev_log_term: u32,
    pub log: Seq<EntryModel>,
    pub leader_commit: u32,
}

impl View for AppendEntriesArgs {
    type V = AppendEntriesModel;

    open spec fn view(&self) -> AppendEntriesModel {
        AppendEntriesModel {
            term: self.term,
            leader_id: self.leader_id,
            prev_log_index: self.prev_log_index,
            prev_log_term: self.prev_log_term,
            log: self.log@,
            leader_commit: self.leader_commit,
        }
    }
}

/// The wire form of an append-entries request: leader id, term, leader
/// commit, previous log term, previous log index, then the log.
pub open spec fn append_entries_args_bytes(m: AppendEntriesModel) -> Seq<u8> {
    be32(m.leader_id) + be64(m.term) + be32(m.leader_commit) + be32(m.prev_log_term) + be32(
        m.prev_log_index,
    ) + log_bytes(m.log)
}

/// The request that `AppendEntriesArgs::from_bytes` reads from `s`, or `None`
/// where the bytes run out before the log's entries.
pub open spec fn parse_append_entries_args(s: Seq<u8>) -> Option<AppendEntriesModel> {
    if s.len() < 24 {
        None
    } else {
        match parse_log(s.subrange(24, s.len() as int)) {
            Some(log) => Some(
                AppendEntriesModel {
                    leader_id: read_be32(s.subrange(0, 4)),
                    term: read_be64(s.subrange(4, 12)),
                    leader_commit: read_be32(s.subrange(12, 16)),
                    prev_log_term: read_be32(s.subrange(16, 20)),
                    prev_log_index: read_be32(s.subrange(20, 24)),
                    log,
                },
            ),
            None => None,
        }
    }
}

/// The request that follows a refused one (see `AppendEntriesArgs::next_attempt`).
pub open spec fn retry_model(m: AppendEntriesModel, reply: AppendEntriesReply) -> AppendEntriesModel {
    AppendEntriesModel {
        prev_log_index: reply.conflict_index as u32,
        prev_log_term: if reply.conflict_term is Some { 1u32 } else { 0u32 },
        ..m
    }
}

impl AppendEntriesArgs {
    /// Serialises the request as `append_entries_args_bytes` describes.
    pub fn to_bytes(&self) -> (r: Vec<u8>)
        ensures
            r@ == append_entries_args_bytes(self@),
    {
        let mut bytes_repr: Vec<u8> = Vec::new();
        push_be32(&mut bytes_repr, self.leader_id);
        push_be64(&mut bytes_repr, self.term);
        push_be32(&mut bytes_repr, self.leader_commit);
        push_be32(&mut bytes_repr, self.prev_log_term);
        push_be32(&mut bytes_repr, self.prev_log_index);
        let log_repr = self.log.to_bytes();
        push_bytes(&mut bytes_repr, log_repr.as_slice());
        bytes_repr
    }

    /// Reads a request from its wire form; the bytes must hold the fixed
    /// fields and every log entry that the log's count announces.
    pub fn from_bytes(bytes: Vec<u8>) -> (r: AppendEntriesArgs)
        requires
            parse_append_entries_args(bytes@) is Some,
        ensures
            Some(r@) == parse_append_entries_args(bytes@),
    {
        match Self::parse(bytes.as_slice()) {
            Some(args) => args,
            None => AppendEntriesArgs {
                term: 0,
                leader_id: 0,
                prev_log_index: 0,
                prev_log_term: 0,
                log: Log::new(),
                leader_commit: 0,
            },
        }
    }

    /// Reads a request from its wire form, or `None` where the bytes run out.
    pub fn parse(bytes: &[u8]) -> (r: Option<AppendEntriesArgs>)
        ensures
            match r {
                Some(args) => parse_append_entries_args(bytes@) == Some(args@),
                None => parse_append_entries_args(bytes@) is None,
            },
    {
        if bytes.len() < 24 {
            return None;
        }
        let tail = crate::bytes::copy_range(bytes, 24, bytes.len());
        match Log::parse(tail.as_slice()) {
            Some(log) => Some(
                AppendEntriesArgs {
                    leader_id: get_be32(bytes, 0),
                    term: get_be64(bytes, 4),
                    leader_commit: get_be32(bytes, 12),
                    prev_log_term: get_be32(bytes, 16),
                    log: log,
                    prev_log_index: get_be32(bytes, 20),
                },
            ),
            None => None,
        }
    }

    /// The request to send after a peer refused this one: `None` when the
    /// reply reports success, else the same request with the previous log
    /// index set to the reply's conflict index (cut to a `u32`) and the
    /// previous log term set to `1` when the reply names a conflicting term
    /// and `0` when it does not.
    pub fn next_attempt(self, reply: &AppendEntriesReply) -> (r: Option<AppendEntriesArgs>)
        ensures
            (reply.success ==> r is None),
            (!reply.success ==> (r matches Some(next) && next@ == retry_model(self@, *reply))),
    {
        if reply.success {
            None
        } else {
            let prev_log_term: u32 = if reply.conflict_term.is_some() { 1 } else { 0 };
            Some(
                AppendEntriesArgs {
                    term: self.term,
                    leader_id: self.leader_id,
                    prev_log_index: reply.conflict_index as u32,
                    prev_log_term,
                    log: self.log,
                    leader_commit: self.leader_commit,
                },
            )
        }
    }
}

/// An append-entries request whose log lengths fit their `u32` fields
/// survives the trip to its wire form and back.
pub proof fn lemma_append_entries_args_roundtrip(m: AppendEntriesModel)
    requires
        log_fits(m.log),
    ensures
        parse_append_entries_args(append_entries_args_bytes(m)) == Some(m),
{
    let s = append_entries_args_bytes(m);
    lemma_be32_roundtrip(m.leader_id);
    lemma_be64_roundtrip(m.term);
    lemma_be32_roundtrip(m.leader_commit);
    lemma_be32_roundtrip(m.prev_log_term);
    lemma_be32_roundtrip(m.prev_log_index);
    lemma_log_roundtrip(m.log);
    assert(s.subrange(0, 4) =~= be32(m.leader_id));
    assert(s.subrange(4, 12) =~= be64(m.term));
    assert(s.subrange(12, 16) =~= be32(m.leader_commit));
    assert(s.subrange(16, 20) =~= be32(m.prev_log_term));
    assert(s.subrange(20, 24) =~= be32(m.prev_log_index));
    assert(s.subrange(24, s.len() as int) =~= log_bytes(m.log));
}

/// A follower's answer to an append-entries request.
#[derive(Debug)]
pub struct AppendEntriesReply {
    pub conflict_index: u64,
    pub conflict_term: Option<u64>,
    pub success: bool,
}

impl Clone for AppendEntriesReply {
    fn clone(&self) -> (r: Self)
        ensures
            r == *self,
    {
        AppendEntriesReply {
            conflict_index: self.conflict_index,
            conflict_term: self.conflict_term,
            success: self.success,
        }
    }
}

/// The wire form of an append-entries reply: `1` or `0` for success; then
/// `1` and the conflicting term, or `0` alone; then the conflict index.
pub open spec fn append_entries_reply_bytes(r: AppendEntriesReply) -> Seq<u8> {
    seq![if r.success { 1u8 } else { 0u8 }] + match r.conflict_term {
        Some(t) => seq![1u8] + be64(t),
        None => seq![0u8],
    } + be64(r.conflict_index)
}

/// Whether `AppendEntriesReply::from_bytes` can read `s`: the option tag in
/// the second byte must be `0` or `1`, and the bytes it reads must be there.
/// After a `0` tag the reader skips one byte before the conflict index.
pub open spec fn append_entries_reply_readable(s: Seq<u8>) -> bool {
    &&& s.len() >= 2
    &&& (s[1] == 0 && s.len() >= 11) || (s[1] == 1 && s.len() >= 18)
}

/// The reply that `AppendEntriesReply::from_bytes` reads from `s`.
pub open spec fn append_entries_reply_from(s: Seq<u8>) -> AppendEntriesReply {
    if s[1] == 0 {
        AppendEntriesReply {
            success: s[0] == 1,
            conflict_term: None,
            conflict_index: read_be64(s.subrange(3, 11)),
        }
    } else {
        AppendEntriesReply {
            success: s[0] == 1,
            conflict_term: Some(read_be64(s.subrange(2, 10))),
            conflict_index: read_be64(s.subrange(10, 18)),
        }
    }
}

impl AppendEntriesReply {
    /// Serialises the reply as `append_entries_reply_bytes` describes.
    pub fn to_bytes(&self) -> (r: Vec<u8>)
        ensures
            r@ == append_entries_reply_bytes(*self),
    {
        let mut bytes_repr: Vec<u8> = Vec::new();
        if self.success {
            bytes_repr.push(1u8);
        } else {
            bytes_repr.push(0u8);
        }
        match self.conflict_term {
            Some(term) => {
                bytes_repr.push(1u8);
                push_be64(&mut bytes_repr, term);
            },
            None => bytes_repr.push(0u8),
        }
        push_be64(&mut bytes_repr, self.conflict_index);
        assert(bytes_repr@ =~= append_entries_reply_bytes(*self));
        bytes_repr
    }

    /// Whether `from_bytes` can read `bytes` (see
    /// `append_entries_reply_readable`).
    pub fn readable(bytes: &[u8]) -> (r: bool)
        ensures
            r == append_entries_reply_readable(bytes@),
    {
        bytes.len() >= 2 && ((bytes[1] == 0 && bytes.len() >= 11) || (bytes[1] == 1 && bytes.len() >= 18))
    }

    /// Reads a reply from its wire form (see `append_entries_reply_from`).
    pub fn from_bytes(bytes: Vec<u8>) -> (r: AppendEntriesReply)
        requires
            append_entries_reply_readable(bytes@),
        ensures
            r == append_entries_reply_from(bytes@),
    {
        let s = bytes.as_slice();
        let mut cursor: usize = 0;
        cursor += 1;
        let success = s[0] == 1;
        let conflict_option_existence_bit = s[cursor];
        cursor += 1;
        let conflict_term = if conflict_option_existence_bit == 0 {
            cursor += 1;
            None
        } else {
            let term = get_be64(s, cursor);
            cursor += 8;
            Some(term)
        };
        let conflict_index = get_be64(s, cursor);
        AppendEntriesReply { conflict_index, conflict_term, success }
    }
}

/// A reply that names a conflicting term survives the trip to its wire form
/// and back. (One that names none does not: its reader skips a byte and
/// needs 11 bytes where the writer wrote 10.)
pub proof fn lemma_append_entries_reply_roundtrip(r: AppendEntriesReply)
    requires
        r.conflict_term is Some,
    ensures
        append_entries_reply_bytes(r).len() == 18,
        append_entries_reply_readable(append_entries_reply_bytes(r)),
        append_entries_reply_from(append_entries_reply_bytes(r)) == r,
{
    let s = append_entries_reply_bytes(r);
    let t = r.conflict_term.unwrap();
    lemma_be64_roundtrip(t);
    lemma_be64_roundtrip(r.conflict_index);
    assert(s.subrange(2, 10) =~= be64(t));
    assert(s.subrange(10, 18) =~= be64(r.conflict_index));
}

/// The wire form of a reply that names no conflicting term is 10 bytes,
/// which its reader cannot read.
pub proof fn lemma_append_entries_reply_without_term_unreadable(r: AppendEntriesReply)
    requires
        r.conflict_term is None,
    ensures
        append_entries_reply_bytes(r).len() == 10,
        !append_entries_reply_readable(append_entries_reply_bytes(r)),
{
}

/// A refused request is retried with the same log, term, leader id and
/// leader commit; only the previous log index (the reply's conflict index,
/// cut to a `u32`) and the previous log term (`1` when the reply names a
/// conflicting term, else `0`) change.
pub proof fn law_retry_resends_same_entries(m: AppendEntriesModel, reply: AppendEntriesReply)
    ensures
        retry_model(m, reply).log == m.log,
        retry_model(m, reply).term == m.term,
        retry_model(m, reply).leader_id == m.leader_id,
        retry_model(m, reply).leader_commit == m.leader_commit,
        retry_model(m, reply).prev_log_index == reply.conflict_index as u32,
        reply.conflict_term is Some ==> retry_model(m, reply).prev_log_term == 1,
        reply.conflict_term is None ==> retry_model(m, reply).prev_log_term == 0,
{
}

/// Reading any readable reply: success is exactly whether the first byte is
/// `1`, whichever the option tag; a `0` tag gives no conflicting term and the
/// conflict index at bytes 3..11; a `1` tag gives the term at bytes 2..10 and
/// the conflict index at bytes 10..18. The length of the input beyond what
/// is read does not matter.
pub proof fn law_reply_reading(s: Seq<u8>)
    requires
        append_entries_reply_readable(s),
    ensures
        append_entries_reply_from(s).success == (s[0] == 1),
        s[1] == 0 ==> append_entries_reply_from(s).conflict_term is None
            && append_entries_reply_from(s).conflict_index == read_be64(s.subrange(3, 11)),
        s[1] == 1 ==> append_entries_reply_from(s).conflict_term == Some(read_be64(s.subrange(2, 10)))
            && append_entries_reply_from(s).conflict_index == read_be64(s.subrange(10, 18)),
        forall|t: Seq<u8>| t.len() >= s.len() && t.subrange(0, s.len() as int) == s ==> #[trigger] append_entries_reply_from(t) == append_entries_reply_from(s),
{
    assert forall|t: Seq<u8>| t.len() >= s.len() && t.subrange(0, s.len() as int) == s implies #[trigger] append_entries_reply_from(t) == append_entries_reply_from(s) by {
        assert(t[0] == s[0] && t[1] == s[1]);
        if s[1] == 0 {
            assert(t.subrange(3, 11) =~= s.subrange(3, 11));
        } else {
            assert(t.subrange(2, 10) =~= s.subrange(2, 10));
            assert(t.subrange(10, 18) =~= s.subrange(10, 18));
        }
    }
}

} // verus!
