//! The replicated log and the consensus state of one node.
use vstd::prelude::*;
use core::convert::TryFrom;
use vstd::std_specs::convert::TryFromSpecImpl;
use vstd::string::StringExecFns;
use crate::rpc::{AppendEntriesArgs, AppendEntriesModel, AppendEntriesReply, RequestVoteArgs, RequestVoteReply};
use crate::bytes::{be32, be64, copy_range, get_be32, get_be64, push_be32, push_be64, push_bytes, read_be32, read_be64, lemma_be32_roundtrip, lemma_be64_roundtrip};

verus! {

/// What a log entry holds, as a mathematical value.
pub struct EntryModel {
    pub command: Seq<u8>,
    pub term: u64,
}

/// One command of the replicated log, with the term in which the leader
/// received it.
#[derive(Debug)]
pub struct LogEntry {
    pub command: Vec<u8>,
    pub term: u64,
}

impl View for LogEntry {
    type V = EntryModel;

    open spec fn view(&self) -> EntryModel {
        EntryModel { command: self.command@, term: self.term }
    }
}

impl Clone for LogEntry {
    fn clone(&self) -> (r: Self)
        ensures
            r@ == self@,
    {
        let command = copy_range(self.command.as_slice(), 0, self.command.len());
        assert(self.command@.subrange(0, self.command@.len() as int) =~= self.command@);
        LogEntry { command, term: self.term }
    }
}

/// The wire form of an entry: the command's length (as a `u32`), the term,
/// then the command.
pub open spec fn entry_bytes(e: EntryModel) -> Seq<u8> {
    be32(e.command.len() as u32) + be64(e.term) + e.command
}

/// The entry that `LogEntry::from_bytes` reads from `s`: the term at bytes
/// 4..12 and the command from byte 12 on; the length field is not read.
pub open spec fn entry_from_bytes(s: Seq<u8>) -> EntryModel {
    EntryModel { command: s.subrange(12, s.len() as int), term: read_be64(s.subrange(4, 12)) }
}

/// Whether an entry's command length fits the `u32` length field.
pub open spec fn entry_fits(e: EntryModel) -> bool {
    e.command.len() <= u32::MAX
}

impl LogEntry {
    /// Serialises the entry as `entry_bytes` describes.
    pub fn to_bytes(&self) -> (r: Vec<u8>)
        ensures
            r@ == entry_bytes(self@),
    {
        let mut bytes_repr: Vec<u8> = Vec::new();
        push_be32(&mut bytes_repr, self.command.len() as u32);
        push_be64(&mut bytes_repr, self.term);
        push_bytes(&mut bytes_repr, self.command.as_slice());
        assert(bytes_repr@ =~= entry_bytes(self@));
        bytes_repr
    }

    /// Reads an entry from its wire form; the input must hold at least the
    /// length field and the term.
    pub fn from_bytes(bytes: Vec<u8>) -> (r: LogEntry)
        requires
            bytes@.len() >= 12,
        ensures
            r@ == entry_from_bytes(bytes@),
    {
        assert(bytes@.subrange(0, bytes@.len() as int) =~= bytes@);
        Self::read_at(bytes.as_slice(), 0, bytes.len())
    }

    /// Reads the entry held by `bytes[start..end]`.
    fn read_at(bytes: &[u8], start: usize, end: usize) -> (r: LogEntry)
        requires
            start + 12 <= end <= bytes@.len(),
        ensures
            r@ == entry_from_bytes(bytes@.subrange(start as int, end as int)),
    {
        let term = get_be64(bytes, start + 4);
        let command = copy_range(bytes, start + 12, end);
        let ghost s = bytes@.subrange(start as int, end as int);
        assert(s.subrange(4, 12) =~= bytes@.subrange(start + 4, start + 12));
        assert(s.subrange(12, s.len() as int) =~= bytes@.subrange(start + 12, end as int));
        LogEntry { command, term }
    }
}

/// Reading back the wire form of an entry whose command length fits a
/// `u32` gives the same entry.
pub proof fn lemma_entry_roundtrip(e: EntryModel)
    ensures
        entry_bytes(e).len() == 12 + e.command.len(),
        entry_from_bytes(entry_bytes(e)) == e,
{
    let s = entry_bytes(e);
    lemma_be32_roundtrip(e.command.len() as u32);
    lemma_be64_roundtrip(e.term);
    assert(s.subrange(4, 12) =~= be64(e.term));
    assert(s.subrange(12, s.len() as int) =~= e.command);
}


/// The replicated log: its entries in order.
#[derive(Debug)]
pub struct Log {
    pub entries: Vec<LogEntry>,
}

/// The entries of a vector of log entries, as mathematical values.
pub open spec fn entries_view(v: Seq<LogEntry>) -> Seq<EntryModel> {
    v.map_values(|e: LogEntry| e@)
}

impl View for Log {
    type V = Seq<EntryModel>;

    open spec fn view(&self) -> Seq<EntryModel> {
        entries_view(self.entries@)
    }
}

impl Clone for Log {
    fn clone(&self) -> (r: Self)
        ensures
            r@ == self@,
    {
        let mut entries: Vec<LogEntry> = Vec::new();
        let n = self.entries.len();
        let mut i: usize = 0;
        while i < n
            invariant
                n == self.entries@.len(),
                i <= n,
                entries_view(entries@) == entries_view(self.entries@).subrange(0, i as int),
            decreases n - i,
        {
            let e = self.entries[i].clone();
            let ghost before = entries@;
            let ghost ev = e@;
            entries.push(e);
            assert(entries_view(entries@) =~= entries_view(before).push(ev));
            assert(entries_view(entries@) =~= entries_view(self.entries@).subrange(0, i + 1));
            i = i + 1;
        }
        assert(entries_view(self.entries@).subrange(0, n as int) =~= entries_view(self.entries@));
        Log { entries }
    }
}

/// The wire form of a sequence of entries: each entry's wire form, in order.
pub open spec fn entries_bytes(s: Seq<EntryModel>) -> Seq<u8>
    decreases s.len(),
{
    if s.len() == 0 {
        Seq::empty()
    } else {
        entry_bytes(s[0]) + entries_bytes(s.drop_first())
    }
}

/// The wire form of a log: the number of entries (as a `u32`), then the entries.
pub open spec fn log_bytes(s: Seq<EntryModel>) -> Seq<u8> {
    be32(s.len() as u32) + entries_bytes(s)
}

/// Reads `count` entries from `s` starting at `pos`; `None` where the bytes
/// run out before the entries that the count announces.
pub open spec fn parse_entries(s: Seq<u8>, pos: int, count: nat) -> Option<Seq<EntryModel>>
    decreases count,
{
    if count == 0 {
        Some(Seq::empty())
    } else if pos + 4 > s.len() {
        None
    } else {
        let end = pos + 12 + read_be32(s.subrange(pos, pos + 4));
        if end > s.len() {
            None
        } else {
            match parse_entries(s, end, (count - 1) as nat) {
                Some(rest) => Some(seq![entry_from_bytes(s.subrange(pos, end))] + rest),
                None => None,
            }
        }
    }
}

/// The log that `Log::from_bytes` reads from `s`: the count in the first four
/// bytes, then that many entries; bytes after the last entry are ignored.
pub open spec fn parse_log(s: Seq<u8>) -> Option<Seq<EntryModel>> {
    if s.len() < 4 {
        None
    } else {
        parse_entries(s, 4, read_be32(s) as nat)
    }
}

/// Whether a log's entry count and every command length fit their `u32`
/// length fields.
pub open spec fn log_fits(s: Seq<EntryModel>) -> bool {
    &&& s.len() <= u32::MAX
    &&& forall|i: int| 0 <= i < s.len() ==> #[trigger] entry_fits(s[i])
}

proof fn lemma_entries_bytes_append(a: Seq<EntryModel>, b: Seq<EntryModel>)
    ensures
        entries_bytes(a + b) == entries_bytes(a) + entries_bytes(b),
    decreases a.len(),
{
    if a.len() == 0 {
        assert(a + b =~= b);
        assert(entries_bytes(a) + entries_bytes(b) =~= entries_bytes(b));
    } else {
        assert((a + b).drop_first() =~= a.drop_first() + b);
        lemma_entries_bytes_append(a.drop_first(), b);
        assert(entries_bytes(a + b) =~= entry_bytes(a[0]) + (entries_bytes(a.drop_first())
            + entries_bytes(b)));
    }
}

proof fn lemma_entries_bytes_push(a: Seq<EntryModel>, e: EntryModel)
    ensures
        entries_bytes(a.push(e)) == entries_bytes(a) + entry_bytes(e),
{
    assert(a.push(e) =~= a + seq![e]);
    lemma_entries_bytes_append(a, seq![e]);
    assert(seq![e].drop_first() =~= Seq::<EntryModel>::empty());
    assert(entries_bytes(Seq::<EntryModel>::empty()) =~= Seq::<u8>::empty());
    assert(entries_bytes(seq![e]) == entry_bytes(seq![e][0]) + entries_bytes(seq![e].drop_first()));
    assert(entries_bytes(seq![e]) =~= entry_bytes(e));
}

/// Entries written one after another between any prefix and suffix are
/// read back as they were written.
#[verifier::spinoff_prover]
#[verifier::rlimit(40)]
proof fn lemma_parse_entries_of_bytes(p: Seq<u8>, s: Seq<EntryModel>, q: Seq<u8>)
    requires
        forall|i: int| 0 <= i < s.len() ==> #[trigger] entry_fits(s[i]),
    ensures
        parse_entries(p + entries_bytes(s) + q, p.len() as int, s.len()) == Some(s),
    decreases s.len(),
{
    let all = p + entries_bytes(s) + q;
    if s.len() == 0 {
        assert(s =~= Seq::<EntryModel>::empty());
    } else {
        let e = s[0];
        assert(entry_fits(s[0]));
        let eb = entry_bytes(e);
        let rest = s.drop_first();
        let pos = p.len() as int;
        assert(all =~= (p + eb) + entries_bytes(rest) + q);
        lemma_be32_roundtrip(e.command.len() as u32);
        assert(all.subrange(pos, pos + 4) =~= be32(e.command.len() as u32));
        assert(read_be32(all.subrange(pos, pos + 4)) == e.command.len());
        let end = pos + 12 + e.command.len();
        assert(all.subrange(pos, end) =~= eb);
        lemma_entry_roundtrip(e);
        assert forall|i: int| 0 <= i < rest.len() implies #[trigger] entry_fits(rest[i]) by {
            assert(entry_fits(s[i + 1]));
        }
        lemma_parse_entries_of_bytes(p + eb, rest, q);
        assert(seq![e] + rest =~= s);
    }
}

/// Reading back the wire form of a log whose lengths fit their fields gives
/// the same entries.
pub proof fn lemma_log_roundtrip(s: Seq<EntryModel>)
    requires
        log_fits(s),
    ensures
        parse_log(log_bytes(s)) == Some(s),
{
    let b = log_bytes(s);
    lemma_be32_roundtrip(s.len() as u32);
    assert(b.subrange(0, 4) =~= be32(s.len() as u32));
    lemma_parse_entries_of_bytes(be32(s.len() as u32), s, Seq::empty());
    assert(be32(s.len() as u32) + entries_bytes(s) + Seq::<u8>::empty() =~= b);
}

impl Log {
    /// An empty log.
    pub fn new() -> (r: Log)
        ensures
            r@ == Seq::<EntryModel>::empty(),
    {
        let entries: Vec<LogEntry> = Vec::with_capacity(20);
        assert(entries_view(entries@) =~= Seq::<EntryModel>::empty());
        Log { entries }
    }

    /// The number of entries.
    pub fn len(&self) -> (r: usize)
        ensures
            r == self@.len(),
    {
        self.entries.len()
    }

    /// Appends one entry.
    pub fn add_entry(&mut self, entry: LogEntry)
        ensures
            final(self)@ == old(self)@.push(entry@),
    {
        self.entries.push(entry);
        assert(entries_view(self.entries@) =~= entries_view(old(self).entries@).push(entry@));
    }

    /// Appends copies of the given entries, in order.
    pub fn append_to_entries(&mut self, entries: Vec<LogEntry>)
        ensures
            final(self)@ == old(self)@ + entries_view(entries@),
    {
        let n = entries.len();
        let mut i: usize = 0;
        while i < n
            invariant
                n == entries@.len(),
                i <= n,
                self@ == old(self)@ + entries_view(entries@).subrange(0, i as int),
            decreases n - i,
        {
            let e = entries[i].clone();
            self.add_entry(e);
            assert(entries_view(entries@).subrange(0, i + 1) =~= entries_view(entries@).subrange(
                0,
                i as int,
            ).push(entries@[i as int]@));
            assert(self@ =~= old(self)@ + entries_view(entries@).subrange(0, i + 1));
            i = i + 1;
        }
        assert(entries_view(entries@).subrange(0, n as int) =~= entries_view(entries@));
    }

    /// Serialises the log as `log_bytes` describes; the count and each
    /// command length are written as `u32`.
    pub fn to_bytes(&self) -> (r: Vec<u8>)
        ensures
            r@ == log_bytes(self@),
    {
        let mut bytes_repr: Vec<u8> = Vec::new();
        push_be32(&mut bytes_repr, self.entries.len() as u32);
        let n = self.entries.len();
        let mut i: usize = 0;
        while i < n
            invariant
                n == self.entries@.len(),
                i <= n,
                bytes_repr@ == be32(n as u32) + entries_bytes(self@.subrange(0, i as int)),
            decreases n - i,
        {
            let eb = self.entries[i].to_bytes();
            push_bytes(&mut bytes_repr, eb.as_slice());
            proof {
                lemma_entries_bytes_push(self@.subrange(0, i as int), self@[i as int]);
                assert(self@.subrange(0, i + 1) =~= self@.subrange(0, i as int).push(self@[i as int]));
            }
            i = i + 1;
        }
        assert(self@.subrange(0, n as int) =~= self@);
        bytes_repr
    }

    /// Reads a log from its wire form (see `parse_log`); the bytes must hold
    /// every entry that the count announces.
    pub fn from_bytes(bytes: Vec<u8>) -> (r: Log)
        requires
            parse_log(bytes@) is Some,
        ensures
            Some(r@) == parse_log(bytes@),
    {
        match Self::parse(bytes.as_slice()) {
            Some(log) => log,
            None => Log::new(),
        }
    }

    /// Reads a log from its wire form, or `None` where the bytes run out
    /// before the entries that the count announces.
    pub fn parse(bytes: &[u8]) -> (r: Option<Log>)
        ensures
            match r {
                Some(log) => parse_log(bytes@) == Some(log@),
                None => parse_log(bytes@) is None,
            },
    {
        if bytes.len() < 4 {
            return None;
        }
        let log_len = get_be32(bytes, 0);
        assert(read_be32(bytes@.subrange(0, 4)) == read_be32(bytes@));
        let count = log_len as usize;
        let mut entries: Vec<LogEntry> = Vec::new();
        let mut pointer: usize = 4;
        let mut k: usize = 0;
        while k < count
            invariant
                count == read_be32(bytes@),
                bytes@.len() >= 4,
                k <= count,
                pointer <= bytes@.len(),
                parse_log(bytes@) == match parse_entries(bytes@, pointer as int, (count - k) as nat) {
                    Some(rest) => Some(entries_view(entries@) + rest),
                    None => None::<Seq<EntryModel>>,
                },
            decreases count - k,
        {
            if bytes.len() - pointer < 4 {
                return None;
            }
            let command_len = get_be32(bytes, pointer);
            if bytes.len() - pointer < 12 || bytes.len() - pointer - 12 < command_len as usize {
                return None;
            }
            let end = pointer + 12 + command_len as usize;
            let entry = LogEntry::read_at(bytes, pointer, end);
            proof {
                let rest_n = (count - k) as nat;
                assert(parse_entries(bytes@, pointer as int, rest_n) == match parse_entries(bytes@, end as int, (rest_n - 1) as nat) {
                    Some(rest) => Some(seq![entry@] + rest),
                    None => None::<Seq<EntryModel>>,
                });
                let old_view = entries_view(entries@);
                match parse_entries(bytes@, end as int, (rest_n - 1) as nat) {
                    Some(rest) => {
                        assert(old_view + (seq![entry@] + rest) =~= old_view.push(entry@) + rest);
                    },
                    None => {},
                }
            }
            let ghost before = entries@;
            let ghost ev = entry@;
            entries.push(entry);
            assert(entries_view(entries@) =~= entries_view(before).push(ev));
            pointer = end;
            k = k + 1;
        }
        assert(entries_view(entries@) + Seq::<EntryModel>::empty() =~= entries_view(entries@));
        Some(Log { entries })
    }
}


/// The role a node plays in the cluster.
#[derive(Clone, Copy, Debug, PartialEq, Eq, Structural)]
pub enum NodeStatus {
    Follower,
    Candidate,
    Leader,
}

/// The consensus state of one node.
pub struct Node {
    pub id: u32,
    pub node_ip: String,
    pub node_status: NodeStatus,
    pub voted_for: Option<u32>,
    pub current_term: u64,
    pub commit_index: u64,
    pub leader: Option<String>,
    pub log: Log,
}

/// A vote.
pub struct Vote;

/// A request for a vote in a term.
pub struct VoteRequest {
    term: u32,
}

/// A peer's answer to an election vote request: byte `0x00` accepts and
/// `0x01` rejects.
#[derive(Clone, Copy, Debug, PartialEq, Eq, Structural)]
pub enum VoteRequestResult {
    Accepted,
    Rejected,
    VoteRequestError,
}

/// The answer that a byte names, or the byte itself when it names none.
pub open spec fn vote_request_result_from(b: u8) -> Result<VoteRequestResult, u8> {
    if b == 0x00 {
        Ok(VoteRequestResult::Accepted)
    } else if b == 0x01 {
        Ok(VoteRequestResult::Rejected)
    } else {
        Err(b)
    }
}

impl TryFrom<u8> for VoteRequestResult {
    type Error = u8;

    fn try_from(value: u8) -> (r: Result<Self, u8>) {
        if value == 0x00 {
            Ok(VoteRequestResult::Accepted)
        } else if value == 0x01 {
            Ok(VoteRequestResult::Rejected)
        } else {
            Err(value)
        }
    }
}

impl TryFromSpecImpl<u8> for VoteRequestResult {
    open spec fn obeys_try_from_spec() -> bool {
        true
    }

    open spec fn try_from_spec(v: u8) -> Result<Self, u8> {
        vote_request_result_from(v)
    }
}

/// An election timeout, in milliseconds, drawn from a clock reading:
/// between 1500 and 2000.
pub fn generate_random_number(nanos: u64) -> (r: u64)
    ensures
        r == 1500 + nanos % 501,
        1500 <= r <= 2000,
{
    1500 + nanos % 501
}

/// The addresses of the cluster's members, as text.
pub open spec fn cluster_addresses() -> Seq<Seq<char>> {
    seq!["127.0.0.1:7878"@, "127.0.0.1:7879"@, "127.0.0.1:7880"@]
}

/// The text of each string.
pub open spec fn strings_view(v: Seq<String>) -> Seq<Seq<char>> {
    v.map_values(|s: String| s@)
}

/// The cluster's members: the three local addresses on ports 7878 to 7880.
pub fn cluster_members() -> (r: Vec<String>)
    ensures
        strings_view(r@) == cluster_addresses(),
{
    let mut members: Vec<String> = Vec::new();
    members.push(String::from_str("127.0.0.1:7878"));
    members.push(String::from_str("127.0.0.1:7879"));
    members.push(String::from_str("127.0.0.1:7880"));
    assert(strings_view(members@) =~= cluster_addresses());
    members
}

/// The members other than `me`, in order.
pub open spec fn others(members: Seq<Seq<char>>, me: Seq<char>) -> Seq<Seq<char>> {
    members.filter(|m: Seq<char>| m != me)
}

/// The members other than `node_ip`, in order.
pub fn other_members(members: &Vec<String>, node_ip: &String) -> (r: Vec<String>)
    ensures
        strings_view(r@) == others(strings_view(members@), node_ip@),
{
    let mut out: Vec<String> = Vec::new();
    let n = members.len();
    let mut i: usize = 0;
    while i < n
        invariant
            n == members@.len(),
            i <= n,
            strings_view(out@) == others(strings_view(members@).take(i as int), node_ip@),
        decreases n - i,
    {
        let ghost before = out@;
        let ghost sv = strings_view(members@);
        proof {
            reveal_with_fuel(Seq::<_>::filter, 1);
            assert(sv.take(i + 1).drop_last() =~= sv.take(i as int));
        }
        if members[i] != *node_ip {
            out.push(members[i].clone());
            assert(strings_view(out@) =~= strings_view(before).push(sv[i as int]));
        }
        i = i + 1;
    }
    assert(strings_view(members@).take(n as int) =~= strings_view(members@));
    out
}

impl Node {
    /// A follower in term 0 with an empty log, that has voted for no one and
    /// knows no leader.
    pub fn new(id: u32, node_ip: String) -> (r: Node)
        ensures
            r.id == id,
            r.node_ip == node_ip,
            r.voted_for is None,
            r.node_status == NodeStatus::Follower,
            r.commit_index == 0,
            r.current_term == 0,
            r.leader is None,
            r.log@ == Seq::<EntryModel>::empty(),
    {
        Node {
            id: id,
            node_ip: node_ip,
            voted_for: None,
            node_status: NodeStatus::Follower,
            commit_index: 0,
            current_term: 0,
            leader: None,
            log: Log::new(),
        }
    }

    /// Works out the members it would ask for leadership; it sends nothing.
    pub fn ask_for_leadership(&self) {
        let members = cluster_members();
        let _other_members = other_members(&members, &self.node_ip);
    }

    /// Votes for itself and becomes leader.
    pub fn become_leader(&mut self)
        ensures
            final(self).voted_for == Some(old(self).id),
            final(self).node_status == NodeStatus::Leader,
            final(self).id == old(self).id,
            final(self).node_ip == old(self).node_ip,
            final(self).current_term == old(self).current_term,
            final(self).commit_index == old(self).commit_index,
            final(self).leader == old(self).leader,
            final(self).log == old(self).log,
    {
        self.voted_for = Some(self.id);
        self.node_status = NodeStatus::Leader;
    }

    /// The message that asks a peer for its vote: command byte 7, then the
    /// commit index and the current term, each cut to a `u32`.
    pub fn election_vote_request_bytes(&self) -> (r: Vec<u8>)
        ensures
            r@ == seq![7u8] + crate::bytes::be32(self.commit_index as u32) + crate::bytes::be32(
                self.current_term as u32,
            ),
    {
        let mut write_response: Vec<u8> = Vec::new();
        write_response.push(7u8);
        push_be32(&mut write_response, self.commit_index as u32);
        push_be32(&mut write_response, self.current_term as u32);
        write_response
    }

    /// Records this node as the leader when its own vote and the
    /// `positive_voters` other members that accepted make a majority of the
    /// cluster's `member_count` members (`member_count / 2 + 1`).
    pub fn conclude_vote_request(&mut self, positive_voters: usize, member_count: usize)
        ensures
            positive_voters + 1 >= member_count / 2 + 1 ==> final(self).leader == Some(old(self).node_ip),
            positive_voters + 1 < member_count / 2 + 1 ==> final(self).leader == old(self).leader,
            final(self).id == old(self).id,
            final(self).node_ip == old(self).node_ip,
            final(self).node_status == old(self).node_status,
            final(self).voted_for == old(self).voted_for,
            final(self).current_term == old(self).current_term,
            final(self).commit_index == old(self).commit_index,
            final(self).log == old(self).log,
    {
        // the node's own vote counts towards the quota
        let others_needed = member_count / 2;
        if positive_voters >= others_needed {
            let node_ip = self.node_ip.clone();
            self.leader = Some(node_ip);
        }
    }

    /// Answers a leadership vote request for `term` from a node whose commit
    /// index is `index`: refused when the term is behind this node's, or
    /// when the index is behind this node's commit index.
    pub fn handle_vote_request(&self, term: u64, index: u64) -> (r: Result<(), &'static str>)
        ensures
            term < self.current_term ==> r == Err::<(), &'static str>(
                "You are behind on terms. Node requesting leadership might be outdated.",
            ),
            term >= self.current_term && index < self.commit_index ==> r == Err::<(), &'static str>(
                "I have a more recent logs compared to you hence I am more updated",
            ),
            term >= self.current_term && index >= self.commit_index ==> r == Ok::<(), &'static str>(()),
    {
        if term < self.current_term {
            self.reject_vote();
            return Err("You are behind on terms. Node requesting leadership might be outdated.");
        }
        if index < self.commit_index {
            self.reject_vote();
            return Err("I have a more recent logs compared to you hence I am more updated");
        }
        self.accept_vote();
        Ok(())
    }

    fn reject_vote(&self) {
    }

    fn accept_vote(&self) {
    }
}

/// One step of merging a leader's entry into the log at position `idx`: when
/// `idx` is inside the log, an entry whose term differs from the new one
/// cuts the log at `idx` before the new entry is appended, and an entry with
/// the same term keeps the log and appends the new entry after its end; when
/// `idx` is past the end, nothing changes.
pub open spec fn merge_step(log: Seq<EntryModel>, idx: int, e: EntryModel) -> Seq<EntryModel> {
    if idx < log.len() {
        if log[idx].term != e.term {
            log.take(idx).push(e)
        } else {
            log.push(e)
        }
    } else {
        log
    }
}

/// The log after the first `k` of the leader's entries were merged, the
/// `j`-th (from 1) at position `prev + j`.
pub open spec fn merged(log: Seq<EntryModel>, prev: int, new: Seq<EntryModel>, k: nat) -> Seq<EntryModel>
    decreases k,
{
    if k == 0 {
        log
    } else {
        merge_step(merged(log, prev, new, (k - 1) as nat), prev + k, new[k - 1])
    }
}

/// Whether merging the leader's entries never looks at the position just
/// past the end of the log, which holds no entry to compare.
pub open spec fn merge_in_bounds(log: Seq<EntryModel>, prev: int, new: Seq<EntryModel>) -> bool {
    forall|k: int| 0 <= k < new.len() ==> #[trigger] merged(log, prev, new, k as nat).len() != prev + k + 1
}

/// Whether a follower with this log accepts the leader's position: there is
/// no previous entry to match, or the previous entry exists and carries the
/// request's term.
pub open spec fn prev_entry_matches(log: Seq<EntryModel>, prev: int, term: u64) -> bool {
    prev == 0 || (prev < log.len() && log[prev].term == term)
}

/// Whether receiving an append-entries request stays within its bounds: it
/// must not index the previous entry at the log's end, index the log's end
/// while merging, or overflow the position count.
pub open spec fn append_entries_safe(node: &Node, args: AppendEntriesModel) -> bool {
    args.term >= node.current_term ==> {
        &&& !(args.prev_log_index > 0 && node.log@.len() == args.prev_log_index)
        &&& prev_entry_matches(node.log@, args.prev_log_index as int, args.term) ==> {
            &&& merge_in_bounds(node.log@, args.prev_log_index as int, args.log)
            &&& args.prev_log_index + args.log.len() <= usize::MAX
        }
    }
}

/// The outcome of an election timeout: a leader stays as it is and asks for
/// nothing; any other node becomes a candidate in the next term, records a
/// vote for node 0, and asks its peers for their votes in that term.
pub open spec fn election_started(o: Node, n: Node, r: Option<RequestVoteArgs>) -> bool {
    if o.node_status == NodeStatus::Leader {
        r is None && n == o
    } else {
        &&& n.node_status == NodeStatus::Candidate
        &&& n.current_term == o.current_term + 1
        &&& n.voted_for == Some(0u32)
        &&& n.id == o.id
        &&& n.node_ip == o.node_ip
        &&& n.commit_index == o.commit_index
        &&& n.leader == o.leader
        &&& n.log == o.log
        &&& r == Some(
            RequestVoteArgs {
                candidate_id: o.id,
                term: n.current_term,
                last_log_index: o.commit_index as usize,
                last_log_term: n.current_term,
            },
        )
    }
}

/// The answer to a vote request: one reply in the request's term, granting
/// the vote exactly when the request's term is newer than `term`.
pub open spec fn vote_replies(args: RequestVoteArgs, term: u64) -> Seq<RequestVoteReply> {
    seq![RequestVoteReply { term: args.term, vote_granted: args.term > term }]
}

/// The state after answering a vote request: the vote is recorded for the
/// candidate when its term is newer than the node's, and nothing else
/// changes.
pub open spec fn vote_granted(o: Node, n: Node, args: RequestVoteArgs) -> bool {
    &&& n.voted_for == if args.term > o.current_term {
        Some(args.candidate_id)
    } else {
        o.voted_for
    }
    &&& n.id == o.id
    &&& n.node_ip == o.node_ip
    &&& n.node_status == o.node_status
    &&& n.current_term == o.current_term
    &&& n.commit_index == o.commit_index
    &&& n.leader == o.leader
    &&& n.log == o.log
}

/// The outcome of a client's command: a leader appends it in its current
/// term and advances its commit index; any other node changes nothing.
pub open spec fn client_command_accepted(o: Node, n: Node, command: Seq<u8>, r: bool) -> bool {
    &&& r == (o.node_status == NodeStatus::Leader)
    &&& !r ==> n == o
    &&& r ==> {
        &&& n.log@ == o.log@.push(EntryModel { command: command, term: o.current_term })
        &&& n.commit_index == o.commit_index + 1
        &&& n.id == o.id
        &&& n.node_ip == o.node_ip
        &&& n.node_status == o.node_status
        &&& n.voted_for == o.voted_for
        &&& n.current_term == o.current_term
        &&& n.leader == o.leader
    }
}

/// The outcome of a leader's append-entries request; see
/// `Node::receive_append_entries`.
pub open spec fn append_entries_received(
    o: Node,
    n: Node,
    a: AppendEntriesModel,
    reply: AppendEntriesReply,
    refresh: bool,
) -> bool {
    let prev = a.prev_log_index as int;
    &&& a.term < o.current_term ==> {
        &&& reply == AppendEntriesReply {
            success: false,
            conflict_term: None,
            conflict_index: a.prev_log_index as u64,
        }
        &&& !refresh
        &&& n == o
    }
    &&& a.term >= o.current_term ==> {
        &&& refresh
        &&& n.current_term == a.term
        &&& n.node_status == NodeStatus::Follower
        &&& n.id == o.id
        &&& n.node_ip == o.node_ip
        &&& n.voted_for == o.voted_for
        &&& n.leader == o.leader
        &&& prev > 0 && o.log@.len() < prev ==> {
            &&& reply == AppendEntriesReply {
                success: false,
                conflict_index: o.log@.len() as u64,
                conflict_term: None,
            }
            &&& n.log == o.log
            &&& n.commit_index == o.commit_index
        }
        &&& prev > 0 && prev < o.log@.len() && o.log@[prev].term != a.term ==> {
            &&& !reply.success
            &&& reply.conflict_term == Some(o.log@[prev].term)
            &&& reply.conflict_index < o.log@.len()
            &&& o.log@[reply.conflict_index as int].term == o.log@[prev].term
            &&& forall|j: int| 0 <= j < reply.conflict_index ==> #[trigger] o.log@[j].term != o.log@[prev].term
            &&& n.log == o.log
            &&& n.commit_index == o.commit_index
        }
        &&& prev_entry_matches(o.log@, prev, a.term) ==> {
            &&& reply == AppendEntriesReply {
                success: true,
                conflict_term: None,
                conflict_index: a.leader_commit as u64,
            }
            &&& n.log@ == merged(o.log@, prev, a.log, a.log.len())
            &&& n.commit_index == if a.leader_commit > #[verifier::truncate] (o.commit_index as u32) {
                if (a.leader_commit as int) < prev + a.log.len() {
                    a.leader_commit as u64
                } else {
                    (prev + a.log.len()) as u64
                }
            } else {
                o.commit_index
            }
        }
    }
}

/// The request a leader sends with each heartbeat.
pub open spec fn heartbeat_model(node: Node) -> AppendEntriesModel {
    AppendEntriesModel {
        log: node.log@,
        leader_commit: node.commit_index as u32,
        leader_id: node.id,
        prev_log_index: node.commit_index as u32,
        prev_log_term: node.current_term as u32,
        term: node.current_term,
    }
}

/// The heartbeats of a node: for a leader, one request per peer other than
/// itself, in order; for any other node, none.
pub open spec fn heartbeats(node: Node, peers: Seq<String>, r: Seq<(String, AppendEntriesArgs)>) -> bool {
    &&& node.node_status != NodeStatus::Leader ==> r.len() == 0
    &&& node.node_status == NodeStatus::Leader ==> {
        &&& r.len() == others(strings_view(peers), node.node_ip@).len()
        &&& forall|i: int| 0 <= i < r.len() ==> {
            &&& (#[trigger] r[i]).0@ == others(strings_view(peers), node.node_ip@)[i]
            &&& r[i].1@ == heartbeat_model(node)
        }
    }
}

impl Node {
    /// Starts an election unless this node leads: it becomes a candidate in
    /// the next term, records a vote, and returns the request to send to
    /// its peers.
    pub fn start_election(&mut self) -> (r: Option<RequestVoteArgs>)
        requires
            old(self).node_status != NodeStatus::Leader ==> old(self).current_term < u64::MAX,
        ensures
            election_started(*old(self), *final(self), r),
    {
        if self.node_status == NodeStatus::Leader {
            return None;
        }
        self.node_status = NodeStatus::Candidate;
        self.current_term += 1;
        self.voted_for = Some(0);
        Some(
            RequestVoteArgs {
                candidate_id: self.id,
                term: self.current_term,
                last_log_index: self.commit_index as usize,
                last_log_term: self.current_term,
            },
        )
    }

    /// Ends an election in which `accepted` of its `peer_count` peers
    /// granted their vote. With its own vote the node then holds
    /// `accepted + 1` of the cluster's `peer_count + 1` votes; a majority of
    /// the cluster (`(peer_count + 1) / 2 + 1`) makes it the leader.
    pub fn finish_election(&mut self, accepted: usize, peer_count: usize)
        ensures
            accepted + 1 >= (peer_count + 1) / 2 + 1 ==> {
                &&& final(self).node_status == NodeStatus::Leader
                &&& final(self).voted_for == Some(old(self).id)
            },
            accepted + 1 < (peer_count + 1) / 2 + 1 ==> *final(self) == *old(self),
            final(self).id == old(self).id,
            final(self).node_ip == old(self).node_ip,
            final(self).current_term == old(self).current_term,
            final(self).commit_index == old(self).commit_index,
            final(self).leader == old(self).leader,
            final(self).log == old(self).log,
    {
        // a majority of the cluster counts the node's own vote
        let others_needed = peer_count / 2 + peer_count % 2;
        if accepted >= others_needed {
            self.become_leader();
        }
    }

    /// Answers a candidate's vote request with one reply: a request whose
    /// term is not newer than this node's is refused and changes nothing;
    /// otherwise the node records its vote for the candidate and grants it.
    pub fn grant_vote(&mut self, args: &RequestVoteArgs) -> (r: Vec<RequestVoteReply>)
        ensures
            vote_granted(*old(self), *final(self), *args),
            r@ == vote_replies(*args, old(self).current_term),
    {
        let mut replies: Vec<RequestVoteReply> = Vec::new();
        if args.term <= self.current_term {
            replies.push(RequestVoteReply { term: args.term, vote_granted: false });
        } else {
            self.voted_for = Some(args.candidate_id);
            replies.push(RequestVoteReply { term: args.term, vote_granted: true });
        }
        assert(replies@ =~= vote_replies(*args, self.current_term));
        replies
    }

    /// Appends a client's command in the current term when this node leads,
    /// and advances the commit index; returns whether it did.
    pub fn accept_client_command(&mut self, command: Vec<u8>) -> (r: bool)
        requires
            old(self).node_status == NodeStatus::Leader ==> old(self).commit_index < u64::MAX,
        ensures
            client_command_accepted(*old(self), *final(self), command@, r),
    {
        if self.node_status != NodeStatus::Leader {
            return false;
        }
        let term = self.current_term;
        self.log.add_entry(LogEntry { command: command, term: term });
        self.commit_index += 1;
        true
    }

    /// Handles a leader's append-entries request. A request from an older
    /// term is refused, naming the request's previous log index, and changes
    /// nothing. Otherwise the node adopts the request's term, becomes a
    /// follower and asks for its election timer to be reset (the `bool`);
    /// then it refuses when its log is shorter than the previous log index,
    /// naming its log length, or when the entry at that index carries
    /// another term than the request, naming that term and the first index
    /// that carries it; else it merges the request's entries (see `merged`),
    /// moves its commit index up to the leader's, bounded by the index of
    /// the last new entry, and reports success with the leader's commit.
    pub fn receive_append_entries(&mut self, args: &AppendEntriesArgs) -> (r: (AppendEntriesReply, bool))
        requires
            append_entries_safe(old(self), args@),
        ensures
            append_entries_received(*old(self), *final(self), args@, r.0, r.1),
    {
        if args.term < self.current_term {
            return (
                AppendEntriesReply {
                    success: false,
                    conflict_term: None,
                    conflict_index: args.prev_log_index as u64,
                },
                false,
            );
        }
        self.current_term = args.term;
        self.node_status = NodeStatus::Follower;
        let prev = args.prev_log_index as usize;
        if args.prev_log_index > 0 {
            if self.log.len() < prev {
                return (
                    AppendEntriesReply {
                        success: false,
                        conflict_index: self.log.len() as u64,
                        conflict_term: None,
                    },
                    true,
                );
            }
            let prev_term = self.log.entries[prev].term;
            if prev_term != args.term {
                let mut position: usize = 0;
                while self.log.entries[position].term != prev_term
                    invariant
                        position <= prev,
                        prev < self.log@.len(),
                        self.log@[prev as int].term == prev_term,
                        forall|j: int| 0 <= j < position ==> #[trigger] self.log@[j].term != prev_term,
                    decreases prev - position,
                {
                    position = position + 1;
                }
                return (
                    AppendEntriesReply {
                        success: false,
                        conflict_term: Some(prev_term),
                        conflict_index: position as u64,
                    },
                    true,
                );
            }
        }
        let ghost log0 = self.log@;
        let n = args.log.entries.len();
        let mut current_idx: usize = prev;
        let mut k: usize = 0;
        while k < n
            invariant
                n == args.log@.len(),
                k <= n,
                prev == args.prev_log_index,
                prev + n <= usize::MAX,
                current_idx == prev + k,
                merge_in_bounds(log0, prev as int, args.log@),
                self.log@ == merged(log0, prev as int, args.log@, k as nat),
                log0 == old(self).log@,
                self.current_term == args.term,
                self.node_status == NodeStatus::Follower,
                self.id == old(self).id,
                self.node_ip == old(self).node_ip,
                self.voted_for == old(self).voted_for,
                self.leader == old(self).leader,
                self.commit_index == old(self).commit_index,
            decreases n - k,
        {
            current_idx += 1;
            let ghost cur = self.log@;
            let ghost ki: int = k as int;
            assert(merged(log0, prev as int, args.log@, ki as nat).len() != prev + ki + 1);
            let ghost ev = args.log@[k as int];
            assert(args.log.entries@[k as int]@ == ev);
            if current_idx <= self.log.entries.len() {
                if self.log.entries[current_idx].term != args.log.entries[k].term {
                    self.log.entries.truncate(current_idx);
                    let ghost cut = self.log.entries@;
                    let e = args.log.entries[k].clone();
                    self.log.entries.push(e);
                    assert(entries_view(cut) =~= cur.take(current_idx as int));
                    assert(self.log@ =~= cur.take(current_idx as int).push(ev));
                } else {
                    let e = args.log.entries[k].clone();
                    self.log.add_entry(e);
                }
            }
            k = k + 1;
        }
        if args.leader_commit > #[verifier::truncate] (self.commit_index as u32) {
            let new_entry_idx = prev + args.log.len();
            let target = args.leader_commit as u64;
            let bound = new_entry_idx as u64;
            self.commit_index = if target < bound { target } else { bound };
        }
        (AppendEntriesReply { success: true, conflict_term: None, conflict_index: args.leader_commit as u64 }, true)
    }

    /// The heartbeat requests a leader sends: one per peer other than this
    /// node, each carrying a copy of the whole log, the commit index (cut to
    /// a `u32`) as both leader commit and previous log index, and the
    /// current term (cut to a `u32`) as previous log term. A node that does
    /// not lead sends none.
    pub fn heartbeat_requests(&self, peers: &Vec<String>) -> (r: Vec<(String, AppendEntriesArgs)>)
        ensures
            heartbeats(*self, peers@, r@),
    {
        let mut out: Vec<(String, AppendEntriesArgs)> = Vec::new();
        if self.node_status != NodeStatus::Leader {
            return out;
        }
        let targets = other_members(peers, &self.node_ip);
        let n = targets.len();
        let mut i: usize = 0;
        while i < n
            invariant
                n == targets@.len(),
                i <= n,
                strings_view(targets@) == others(strings_view(peers@), self.node_ip@),
                out@.len() == i,
                forall|j: int| 0 <= j < i ==> {
                    &&& (#[trigger] out@[j]).0@ == strings_view(targets@)[j]
                    &&& out@[j].1@ == AppendEntriesModel {
                        log: self.log@,
                        leader_commit: self.commit_index as u32,
                        leader_id: self.id,
                        prev_log_index: self.commit_index as u32,
                        prev_log_term: self.current_term as u32,
                        term: self.current_term,
                    }
                },
            decreases n - i,
        {
            let request = AppendEntriesArgs {
                log: self.log.clone(),
                leader_commit: self.commit_index as u32,
                leader_id: self.id,
                prev_log_index: self.commit_index as u32,
                prev_log_term: self.current_term as u32,
                term: self.current_term,
            };
            let peer = targets[i].clone();
            out.push((peer, request));
            i = i + 1;
        }
        out
    }
}

/// The terms of a sequence of entries.
pub open spec fn terms_of(s: Seq<EntryModel>) -> Seq<u64> {
    s.map_values(|e: EntryModel| e.term)
}

/// Whether merging `new` after position `prev` stays in bounds (see
/// `merge_in_bounds`), worked out on the entries' terms alone.
fn merge_stays_in_bounds(log: &Log, prev: usize, new: &Log) -> (r: bool)
    requires
        prev + new@.len() <= usize::MAX,
    ensures
        r == merge_in_bounds(log@, prev as int, new@),
{
    let mut terms: Vec<u64> = Vec::new();
    let m = log.entries.len();
    let mut i: usize = 0;
    while i < m
        invariant
            m == log@.len(),
            i <= m,
            terms@ == terms_of(log@).take(i as int),
        decreases m - i,
    {
        terms.push(log.entries[i].term);
        assert(terms_of(log@).take(i + 1) =~= terms_of(log@).take(i as int).push(log@[i as int].term));
        i = i + 1;
    }
    assert(terms_of(log@).take(m as int) =~= terms_of(log@));
    let n = new.entries.len();
    let mut k: usize = 0;
    while k < n
        invariant
            n == new@.len(),
            k <= n,
            prev + n <= usize::MAX,
            terms@ == terms_of(merged(log@, prev as int, new@, k as nat)),
            forall|j: int| 0 <= j < k ==> #[trigger] merged(log@, prev as int, new@, j as nat).len() != prev + j + 1,
        decreases n - k,
    {
        let ghost cur = merged(log@, prev as int, new@, k as nat);
        let ghost ki: int = k as int;
        let idx = prev + k + 1;
        if idx == terms.len() {
            assert(merged(log@, prev as int, new@, ki as nat).len() == prev + ki + 1);
            return false;
        }
        let t = new.entries[k].term;
        assert(t == new@[ki].term);
        assert(merged(log@, prev as int, new@, (ki + 1) as nat) == merge_step(cur, prev + ki + 1, new@[ki]));
        if idx < terms.len() {
            if terms[idx] != t {
                terms.truncate(idx);
                terms.push(t);
                assert(terms@ =~= terms_of(cur.take(idx as int).push(new@[ki])));
            } else {
                terms.push(t);
                assert(terms@ =~= terms_of(cur.push(new@[ki])));
            }
        }
        k = k + 1;
    }
    true
}

impl Node {
    /// Whether `append_entries_safe` holds for this node and request.
    pub fn append_entries_is_safe(&self, args: &AppendEntriesArgs) -> (r: bool)
        ensures
            r == append_entries_safe(self, args@),
    {
        if args.term < self.current_term {
            return true;
        }
        let prev = args.prev_log_index as usize;
        let len = self.log.len();
        if args.prev_log_index > 0 && len == prev {
            return false;
        }
        let matches = args.prev_log_index == 0 || (prev < len && self.log.entries[prev].term == args.term);
        if !matches {
            return true;
        }
        let n = args.log.len();
        if n > usize::MAX - prev {
            return false;
        }
        merge_stays_in_bounds(&self.log, prev, &args.log)
    }
}

/// Merging a leader's entries after position `prev` never changes the
/// entries up to `prev`, and leaves the log at least one entry longer than
/// `prev` once an entry was merged at `prev + 1`.
pub proof fn lemma_merge_keeps_prefix(log: Seq<EntryModel>, prev: int, new: Seq<EntryModel>, k: nat)
    requires
        0 <= prev < log.len(),
        k <= new.len(),
    ensures
        merged(log, prev, new, k).len() > prev,
        merged(log, prev, new, k).take(prev + 1) == log.take(prev + 1),
    decreases k,
{
    if k > 0 {
        lemma_merge_keeps_prefix(log, prev, new, (k - 1) as nat);
        let cur = merged(log, prev, new, (k - 1) as nat);
        let idx = prev + k;
        if idx < cur.len() {
            if cur[idx].term != new[k - 1].term {
                assert(cur.take(idx).push(new[k - 1]).take(prev + 1) =~= cur.take(prev + 1));
            } else {
                assert(cur.push(new[k - 1]).take(prev + 1) =~= cur.take(prev + 1));
            }
        }
    }
}

/// A follower that accepts a leader's entries keeps every entry of its log
/// up to the leader's previous log index.
pub proof fn law_accepted_entries_keep_prefix(
    o: Node,
    n: Node,
    a: AppendEntriesModel,
    reply: AppendEntriesReply,
    refresh: bool,
)
    requires
        append_entries_received(o, n, a, reply, refresh),
        reply.success,
        (a.prev_log_index as int) < o.log@.len(),
    ensures
        n.log@.take(a.prev_log_index as int + 1) == o.log@.take(a.prev_log_index as int + 1),
{
    lemma_merge_keeps_prefix(o.log@, a.prev_log_index as int, a.log, a.log.len());
}

/// Merging one more of the leader's entries at position `idx`: an entry of
/// the log there with another term is dropped together with every entry
/// after it, and the new entry ends the log; an entry there with the same
/// term leaves the log whole and the new entry is added after its last
/// entry; a position past the end leaves the log as it was.
pub proof fn law_merge_one_entry(log: Seq<EntryModel>, prev: int, new: Seq<EntryModel>, k: nat)
    requires
        0 <= prev,
        k < new.len(),
    ensures
        ({
            let before = merged(log, prev, new, k);
            let after = merged(log, prev, new, k + 1);
            let idx = prev + k + 1;
            &&& idx < before.len() && before[idx].term != new[k as int].term ==> {
                &&& after.len() == idx + 1
                &&& forall|j: int| 0 <= j < idx ==> after[j] == before[j]
                &&& after[idx] == new[k as int]
            }
            &&& idx < before.len() && before[idx].term == new[k as int].term ==> {
                &&& after.len() == before.len() + 1
                &&& forall|j: int| 0 <= j < before.len() ==> after[j] == before[j]
                &&& after[before.len() as int] == new[k as int]
            }
            &&& idx >= before.len() ==> after == before
        }),
{
    let before = merged(log, prev, new, k);
    let after = merged(log, prev, new, k + 1);
    assert(after == merge_step(before, prev + k + 1, new[k as int]));
}

/// A follower that accepts a request whose first entry conflicts with its
/// own entry just after the previous log index (another term there) ends
/// its log with that entry: what came before the conflict is kept, the
/// conflicting entry and everything after it are gone.
pub proof fn law_conflicting_entry_truncates_log(
    o: Node,
    n: Node,
    a: AppendEntriesModel,
    reply: AppendEntriesReply,
    refresh: bool,
)
    requires
        append_entries_safe(&o, a),
        append_entries_received(o, n, a, reply, refresh),
        reply.success,
        a.log.len() > 0,
        (a.prev_log_index as int) + 1 < o.log@.len(),
        o.log@[a.prev_log_index as int + 1].term != a.log[0].term,
    ensures
        n.log@ == o.log@.take(a.prev_log_index as int + 1).push(a.log[0]),
        n.log@.len() == a.prev_log_index + 2,
{
    let prev = a.prev_log_index as int;
    let idx = prev + 1;
    law_merge_one_entry(o.log@, prev, a.log, 0);
    let after1 = merged(o.log@, prev, a.log, 1);
    assert(after1 =~= o.log@.take(idx).push(a.log[0]));
    if a.log.len() > 1 {
        // the next entry would land just past the end of the log, which a
        // safe request rules out
        assert(merged(o.log@, prev, a.log, 1nat).len() != prev + 1 + 1);
    }
    assert(a.log.len() == 1);
}

/// A leader's heartbeats carry, to every peer, the leader's whole log, its
/// term and its id, with its commit index (cut to a `u32`) as leader commit
/// and previous log index and its term (cut to a `u32`) as previous log term.
pub proof fn law_heartbeats_carry_whole_log(node: Node, peers: Seq<String>, r: Seq<(String, AppendEntriesArgs)>)
    requires
        heartbeats(node, peers, r),
        node.node_status == NodeStatus::Leader,
    ensures
        r.len() == others(strings_view(peers), node.node_ip@).len(),
        forall|i: int| 0 <= i < r.len() ==> {
            &&& (#[trigger] r[i]).1.log@ == node.log@
            &&& r[i].1.term == node.current_term
            &&& r[i].1.leader_id == node.id
            &&& r[i].1.leader_commit == node.commit_index as u32
            &&& r[i].1.prev_log_index == node.commit_index as u32
            &&& r[i].1.prev_log_term == node.current_term as u32
            &&& r[i].0@ != node.node_ip@
        },
{
    assert forall|i: int| 0 <= i < r.len() implies (#[trigger] r[i]).0@ != node.node_ip@ by {
        let f = |m: Seq<char>| m != node.node_ip@;
        let o = others(strings_view(peers), node.node_ip@);
        assert(r[i].0@ == o[i]);
        strings_view(peers).lemma_filter_contains_rev(f, o[i]);
        assert(o.contains(o[i]));
    }
}

/// A vote request gets exactly one reply, in the request's term. The vote is
/// granted, and recorded for the candidate, exactly when the request's term
/// is greater than the node's by any amount; otherwise it is refused and the
/// node's vote stays as it was.
pub proof fn law_vote_granted_for_newer_terms(o: Node, n: Node, args: RequestVoteArgs, r: Seq<RequestVoteReply>)
    requires
        vote_granted(o, n, args),
        r == vote_replies(args, o.current_term),
    ensures
        r.len() == 1,
        r[0].term == args.term,
        args.term > o.current_term ==> r[0].vote_granted && n.voted_for == Some(args.candidate_id),
        args.term <= o.current_term ==> !r[0].vote_granted && n.voted_for == o.voted_for,
        n.current_term == o.current_term,
        n.log == o.log,
{
}

} // verus!
