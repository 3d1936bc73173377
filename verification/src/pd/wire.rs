//! What replicas of the placement driver say to each other on the wire, and the two directions of
//! turning a [`Message`] into it.
//!
//! A request carries the message of its sender; the response carries the receiver's reply. The
//! placement driver is a **single** Raft group, so every request is tagged with the fixed
//! [`PD_GROUP_ID`].

use vstd::prelude::*;
use crate::bytes;
use crate::pd::order;
use crate::raft::message;
use crate::raft::message::{BodyView, Entry, EntryType, EntryView, Message, MessageBody, MessageView};

verus! {

/// The placement driver's one Raft group id.
pub const PD_GROUP_ID: u64 = 0;

const ENTRY_NORMAL: u32 = 0;

const ENTRY_CONF_CHANGE: u32 = 1;

/// A log entry on the wire.
#[derive(Clone, Debug, PartialEq, Eq)]
pub struct LogEntry {
    pub term: u64,
    pub index: u64,
    pub data: Vec<u8>,
    pub entry_type: u32,
}

/// A [`LogEntry`] as values.
#[verifier::ext_equal]
pub struct LogEntryView {
    pub term: u64,
    pub index: u64,
    pub data: Seq<u8>,
    pub entry_type: u32,
}

impl View for LogEntry {
    type V = LogEntryView;

    open spec fn view(&self) -> LogEntryView {
        LogEntryView {
            term: self.term,
            index: self.index,
            data: self.data@,
            entry_type: self.entry_type,
        }
    }
}

/// A candidate asks for a vote.
#[derive(Clone, Copy, Debug, PartialEq, Eq, Structural)]
pub struct RequestVoteRequest {
    pub term: u64,
    pub candidate_id: u64,
    pub last_log_index: u64,
    pub last_log_term: u64,
    pub group_id: u64,
}

/// The answer to a candidate.
#[derive(Clone, Copy, Debug, PartialEq, Eq, Structural)]
pub struct RequestVoteResponse {
    pub term: u64,
    pub vote_granted: bool,
}

/// A leader replicates entries.
#[derive(Clone, Debug, PartialEq, Eq)]
pub struct AppendEntriesRequest {
    pub term: u64,
    pub leader_id: u64,
    pub prev_log_index: u64,
    pub prev_log_term: u64,
    pub entries: Vec<LogEntry>,
    pub leader_commit: u64,
    pub group_id: u64,
}

/// An [`AppendEntriesRequest`] as values.
#[verifier::ext_equal]
pub struct AppendView {
    pub term: u64,
    pub leader_id: u64,
    pub prev_log_index: u64,
    pub prev_log_term: u64,
    pub entries: Seq<LogEntryView>,
    pub leader_commit: u64,
    pub group_id: u64,
}

impl View for AppendEntriesRequest {
    type V = AppendView;

    open spec fn view(&self) -> AppendView {
        AppendView {
            term: self.term,
            leader_id: self.leader_id,
            prev_log_index: self.prev_log_index,
            prev_log_term: self.prev_log_term,
            entries: order::views(self.entries@),
            leader_commit: self.leader_commit,
            group_id: self.group_id,
        }
    }
}

/// The answer to replicated entries.
#[derive(Clone, Copy, Debug, PartialEq, Eq, Structural)]
pub struct AppendEntriesResponse {
    pub term: u64,
    pub success: bool,
    pub match_index: u64,
}

/// A leader sends a snapshot.
#[derive(Clone, Debug, PartialEq, Eq)]
pub struct InstallSnapshotRequest {
    pub term: u64,
    pub leader_id: u64,
    pub last_included_index: u64,
    pub last_included_term: u64,
    pub data: Vec<u8>,
    pub group_id: u64,
    pub conf_state: Vec<u64>,
    pub learners: Vec<u64>,
}

/// An [`InstallSnapshotRequest`] as values.
#[verifier::ext_equal]
pub struct InstallView {
    pub term: u64,
    pub leader_id: u64,
    pub last_included_index: u64,
    pub last_included_term: u64,
    pub data: Seq<u8>,
    pub group_id: u64,
    pub conf_state: Seq<u64>,
    pub learners: Seq<u64>,
}

impl View for InstallSnapshotRequest {
    type V = InstallView;

    open spec fn view(&self) -> InstallView {
        InstallView {
            term: self.term,
            leader_id: self.leader_id,
            last_included_index: self.last_included_index,
            last_included_term: self.last_included_term,
            data: self.data@,
            group_id: self.group_id,
            conf_state: self.conf_state@,
            learners: self.learners@,
        }
    }
}

/// The answer to a snapshot.
#[derive(Clone, Copy, Debug, PartialEq, Eq, Structural)]
pub struct InstallSnapshotResponse {
    pub term: u64,
}

/// A request to a peer.
#[derive(Clone, Debug, PartialEq, Eq)]
pub enum PeerRequest {
    Vote(RequestVoteRequest),
    Append(AppendEntriesRequest),
    Install(InstallSnapshotRequest),
}

/// A [`PeerRequest`] as values.
pub enum PeerRequestView {
    Vote(RequestVoteRequest),
    Append(AppendView),
    Install(InstallView),
}

impl View for PeerRequest {
    type V = PeerRequestView;

    open spec fn view(&self) -> PeerRequestView {
        match self {
            PeerRequest::Vote(r) => PeerRequestView::Vote(*r),
            PeerRequest::Append(r) => PeerRequestView::Append(r@),
            PeerRequest::Install(r) => PeerRequestView::Install(r@),
        }
    }
}

/// A peer's response.
#[derive(Clone, Copy, Debug, PartialEq, Eq, Structural)]
pub enum PeerResponse {
    Vote(RequestVoteResponse),
    Append(AppendEntriesResponse),
    Install(InstallSnapshotResponse),
}

/// An entry as it goes out.
pub open spec fn entry_out(e: EntryView) -> LogEntryView {
    LogEntryView {
        term: e.term,
        index: e.index,
        data: e.data,
        entry_type: match e.kind {
            EntryType::Normal => 0,
            EntryType::ConfChange => 1,
        },
    }
}

/// An entry as it comes in. Anything but a membership change is an ordinary command.
pub open spec fn entry_in(p: LogEntryView) -> EntryView {
    EntryView {
        term: p.term,
        index: p.index,
        kind: if p.entry_type == 1 {
            EntryType::ConfChange
        } else {
            EntryType::Normal
        },
        data: p.data,
    }
}

/// A message as it goes out: a request, unless it is a reply or nothing that replicas of the
/// placement driver send.
pub open spec fn request_of(m: MessageView) -> Option<PeerRequestView> {
    match m.body {
        BodyView::RequestVote { last_log_index, last_log_term } => Some(
            PeerRequestView::Vote(
                RequestVoteRequest {
                    term: m.term,
                    candidate_id: m.from,
                    last_log_index,
                    last_log_term,
                    group_id: 0,
                },
            ),
        ),
        BodyView::AppendEntries { prev_log_index, prev_log_term, entries, leader_commit } => Some(
            PeerRequestView::Append(
                AppendView {
                    term: m.term,
                    leader_id: m.from,
                    prev_log_index,
                    prev_log_term,
                    entries: Seq::new(entries.len(), |i: int| entry_out(entries[i])),
                    leader_commit,
                    group_id: 0,
                },
            ),
        ),
        BodyView::InstallSnapshot {
            last_included_index,
            last_included_term,
            conf_state,
            learners,
            data,
        } => Some(
            PeerRequestView::Install(
                InstallView {
                    term: m.term,
                    leader_id: m.from,
                    last_included_index,
                    last_included_term,
                    data,
                    group_id: 0,
                    conf_state,
                    learners,
                },
            ),
        ),
        _ => None,
    }
}

/// A request as the message that it carries.
pub open spec fn message_of(r: PeerRequestView, self_id: u64) -> MessageView {
    match r {
        PeerRequestView::Vote(v) => MessageView {
            from: v.candidate_id,
            to: self_id,
            term: v.term,
            body: BodyView::RequestVote {
                last_log_index: v.last_log_index,
                last_log_term: v.last_log_term,
            },
        },
        PeerRequestView::Append(a) => MessageView {
            from: a.leader_id,
            to: self_id,
            term: a.term,
            body: BodyView::AppendEntries {
                prev_log_index: a.prev_log_index,
                prev_log_term: a.prev_log_term,
                entries: Seq::new(a.entries.len(), |i: int| entry_in(a.entries[i])),
                leader_commit: a.leader_commit,
            },
        },
        PeerRequestView::Install(s) => MessageView {
            from: s.leader_id,
            to: self_id,
            term: s.term,
            body: BodyView::InstallSnapshot {
                last_included_index: s.last_included_index,
                last_included_term: s.last_included_term,
                conf_state: s.conf_state,
                learners: s.learners,
                data: s.data,
            },
        },
    }
}

/// The response that carries a reply to a request; where there is none, or one of another kind, a
/// refusal of term 0.
pub open spec fn response_of(r: PeerRequestView, reply: Option<MessageView>) -> PeerResponse {
    match r {
        PeerRequestView::Vote(_) => PeerResponse::Vote(vote_answer(reply)),
        PeerRequestView::Append(_) => PeerResponse::Append(append_answer(reply)),
        PeerRequestView::Install(_) => PeerResponse::Install(install_answer(reply)),
    }
}

/// The answer to a candidate that carries a reply.
pub open spec fn vote_answer(reply: Option<MessageView>) -> RequestVoteResponse {
    match reply {
        Some(m) => match m.body {
            BodyView::RequestVoteResp { granted } => RequestVoteResponse {
                term: m.term,
                vote_granted: granted,
            },
            _ => RequestVoteResponse { term: 0, vote_granted: false },
        },
        None => RequestVoteResponse { term: 0, vote_granted: false },
    }
}

/// The answer to replicated entries that carries a reply.
pub open spec fn append_answer(reply: Option<MessageView>) -> AppendEntriesResponse {
    match reply {
        Some(m) => match m.body {
            BodyView::AppendEntriesResp { success, match_index } => AppendEntriesResponse {
                term: m.term,
                success,
                match_index,
            },
            _ => AppendEntriesResponse { term: 0, success: false, match_index: 0 },
        },
        None => AppendEntriesResponse { term: 0, success: false, match_index: 0 },
    }
}

/// The answer to a snapshot that carries a reply: its term.
pub open spec fn install_answer(reply: Option<MessageView>) -> InstallSnapshotResponse {
    InstallSnapshotResponse {
        term: match reply {
            Some(m) => m.term,
            None => 0,
        },
    }
}

/// A response from `peer` as the message that it carries. The answer to a snapshot does not say
/// how far it reaches: that is what was sent.
pub open spec fn reply_of(
    sent: MessageView,
    resp: PeerResponse,
    peer: u64,
    self_id: u64,
) -> Option<MessageView> {
    match (sent.body, resp) {
        (BodyView::RequestVote { .. }, PeerResponse::Vote(r)) => Some(
            MessageView {
                from: peer,
                to: self_id,
                term: r.term,
                body: BodyView::RequestVoteResp { granted: r.vote_granted },
            },
        ),
        (BodyView::AppendEntries { .. }, PeerResponse::Append(r)) => Some(
            MessageView {
                from: peer,
                to: self_id,
                term: r.term,
                body: BodyView::AppendEntriesResp {
                    success: r.success,
                    match_index: r.match_index,
                },
            },
        ),
        (BodyView::InstallSnapshot { last_included_index, .. }, PeerResponse::Install(r)) => Some(
            MessageView {
                from: peer,
                to: self_id,
                term: r.term,
                body: BodyView::InstallSnapshotResp { match_index: last_included_index },
            },
        ),
        _ => None,
    }
}

fn entry_to_proto(e: &Entry) -> (r: LogEntry)
    ensures
        r@ == entry_out(e@),
{
    let entry_type: u32 = match e.entry_type {
        EntryType::Normal => ENTRY_NORMAL,
        EntryType::ConfChange => ENTRY_CONF_CHANGE,
    };
    LogEntry {
        term: e.term,
        index: e.index,
        data: bytes::copy(e.data.as_slice()),
        entry_type,
    }
}

fn entry_from_proto(p: &LogEntry) -> (r: Entry)
    ensures
        r@ == entry_in(p@),
{
    let entry_type = if p.entry_type == ENTRY_CONF_CHANGE {
        EntryType::ConfChange
    } else {
        EntryType::Normal
    };
    Entry { term: p.term, index: p.index, entry_type, data: bytes::copy(p.data.as_slice()) }
}

fn entries_to_proto(es: &Vec<Entry>) -> (r: Vec<LogEntry>)
    ensures
        order::views(r@) == Seq::new(
            es@.len(),
            |i: int| entry_out(message::entry_views(es@)[i]),
        ),
{
    let mut out: Vec<LogEntry> = Vec::new();
    let mut i: usize = 0;
    while i < es.len()
        invariant
            0 <= i <= es@.len(),
            out@.len() == i,
            forall|j: int| 0 <= j < i ==> (#[trigger] out@[j])@ == entry_out(es@[j]@),
        decreases es@.len() - i,
    {
        out.push(entry_to_proto(&es[i]));
        i = i + 1;
    }
    assert(order::views(out@) =~= Seq::new(
        es@.len(),
        |i: int| entry_out(message::entry_views(es@)[i]),
    ));
    out
}

fn entries_from_proto(es: &Vec<LogEntry>) -> (r: Vec<Entry>)
    ensures
        message::entry_views(r@) == Seq::new(
            es@.len(),
            |i: int| entry_in(order::views(es@)[i]),
        ),
{
    let mut out: Vec<Entry> = Vec::new();
    let mut i: usize = 0;
    while i < es.len()
        invariant
            0 <= i <= es@.len(),
            out@.len() == i,
            forall|j: int| 0 <= j < i ==> (#[trigger] out@[j])@ == entry_in(es@[j]@),
        decreases es@.len() - i,
    {
        out.push(entry_from_proto(&es[i]));
        i = i + 1;
    }
    assert(message::entry_views(out@) =~= Seq::new(
        es@.len(),
        |i: int| entry_in(order::views(es@)[i]),
    ));
    out
}

/// The request that carries a vote request.
pub fn vote_request(m: &Message) -> (r: RequestVoteRequest)
    requires
        m.body is RequestVote,
    ensures
        request_of(m@) == Some(PeerRequestView::Vote(r)),
{
    let (last_log_index, last_log_term) = match &m.body {
        MessageBody::RequestVote { last_log_index, last_log_term } => (
            *last_log_index,
            *last_log_term,
        ),
        _ => (0, 0),
    };
    RequestVoteRequest {
        term: m.term,
        candidate_id: m.from,
        last_log_index,
        last_log_term,
        group_id: PD_GROUP_ID,
    }
}

/// The request that carries entries.
pub fn append_request(m: &Message) -> (r: AppendEntriesRequest)
    requires
        m.body is AppendEntries,
    ensures
        request_of(m@) == Some(PeerRequestView::Append(r@)),
{
    let ghost want = request_of(m@)->0;
    let mut r = AppendEntriesRequest {
        term: m.term,
        leader_id: m.from,
        prev_log_index: 0,
        prev_log_term: 0,
        entries: Vec::new(),
        leader_commit: 0,
        group_id: PD_GROUP_ID,
    };
    match &m.body {
        MessageBody::AppendEntries { prev_log_index, prev_log_term, entries, leader_commit } => {
            r.prev_log_index = *prev_log_index;
            r.prev_log_term = *prev_log_term;
            r.entries = entries_to_proto(entries);
            r.leader_commit = *leader_commit;
        },
        _ => {},
    }
    proof {
        match want {
            PeerRequestView::Append(a) => {
                assert(r@.entries =~= a.entries);
                assert(r@ =~= a);
            },
            _ => {},
        }
    }
    r
}

/// The request that carries a snapshot.
pub fn install_snapshot_request(m: &Message) -> (r: InstallSnapshotRequest)
    requires
        m.body is InstallSnapshot,
    ensures
        request_of(m@) == Some(PeerRequestView::Install(r@)),
{
    let mut r = InstallSnapshotRequest {
        term: m.term,
        leader_id: m.from,
        last_included_index: 0,
        last_included_term: 0,
        data: Vec::new(),
        group_id: PD_GROUP_ID,
        conf_state: Vec::new(),
        learners: Vec::new(),
    };
    match &m.body {
        MessageBody::InstallSnapshot {
            last_included_index,
            last_included_term,
            conf_state,
            learners,
            data,
        } => {
            r.last_included_index = *last_included_index;
            r.last_included_term = *last_included_term;
            r.data = bytes::copy(data.as_slice());
            r.conf_state = conf_state.clone();
            r.learners = learners.clone();
        },
        _ => {},
    }
    r
}

/// The request that carries a message to its peer, where it is one that a peer answers: what the
/// sender of a replica's messages does with each.
pub fn peer_request(m: &Message) -> (r: Option<PeerRequest>)
    ensures
        match request_of(m@) {
            Some(v) => r matches Some(x) && x@ == v,
            None => r is None,
        },
{
    match &m.body {
        MessageBody::RequestVote { .. } => Some(PeerRequest::Vote(vote_request(m))),
        MessageBody::AppendEntries { .. } => Some(PeerRequest::Append(append_request(m))),
        MessageBody::InstallSnapshot { .. } => Some(
            PeerRequest::Install(install_snapshot_request(m)),
        ),
        _ => None,
    }
}

/// The message that a vote request carries.
pub fn vote_request_to_msg(req: &RequestVoteRequest, self_id: u64) -> (m: Message)
    ensures
        m@ == message_of(PeerRequestView::Vote(*req), self_id),
{
    Message {
        from: req.candidate_id,
        to: self_id,
        term: req.term,
        body: MessageBody::RequestVote {
            last_log_index: req.last_log_index,
            last_log_term: req.last_log_term,
        },
    }
}

/// The message that a request with entries carries.
pub fn append_request_to_msg(req: &AppendEntriesRequest, self_id: u64) -> (m: Message)
    ensures
        m@ == message_of(PeerRequestView::Append(req@), self_id),
{
    Message {
        from: req.leader_id,
        to: self_id,
        term: req.term,
        body: MessageBody::AppendEntries {
            prev_log_index: req.prev_log_index,
            prev_log_term: req.prev_log_term,
            entries: entries_from_proto(&req.entries),
            leader_commit: req.leader_commit,
        },
    }
}

/// The message that a request with a snapshot carries.
pub fn install_snapshot_request_to_msg(req: &InstallSnapshotRequest, self_id: u64) -> (m: Message)
    ensures
        m@ == message_of(PeerRequestView::Install(req@), self_id),
{
    Message {
        from: req.leader_id,
        to: self_id,
        term: req.term,
        body: MessageBody::InstallSnapshot {
            last_included_index: req.last_included_index,
            last_included_term: req.last_included_term,
            conf_state: req.conf_state.clone(),
            learners: req.learners.clone(),
            data: bytes::copy(req.data.as_slice()),
        },
    }
}

/// The message that a peer's request carries.
pub fn peer_request_to_msg(req: &PeerRequest, self_id: u64) -> (m: Message)
    ensures
        m@ == message_of(req@, self_id),
{
    match req {
        PeerRequest::Vote(r) => vote_request_to_msg(r, self_id),
        PeerRequest::Append(r) => append_request_to_msg(r, self_id),
        PeerRequest::Install(r) => install_snapshot_request_to_msg(r, self_id),
    }
}

/// The view of a reply that may not be there.
pub open spec fn maybe(reply: Option<&Message>) -> Option<MessageView> {
    match reply {
        Some(m) => Some(m@),
        None => None,
    }
}

/// The response that carries a reply to a vote request.
pub fn vote_response(reply: Option<&Message>) -> (r: RequestVoteResponse)
    ensures
        r == vote_answer(maybe(reply)),
{
    match reply {
        Some(m) => match &m.body {
            MessageBody::RequestVoteResp { granted } => RequestVoteResponse {
                term: m.term,
                vote_granted: *granted,
            },
            _ => RequestVoteResponse { term: 0, vote_granted: false },
        },
        None => RequestVoteResponse { term: 0, vote_granted: false },
    }
}

/// The response that carries a reply to entries.
pub fn append_response(reply: Option<&Message>) -> (r: AppendEntriesResponse)
    ensures
        r == append_answer(maybe(reply)),
{
    match reply {
        Some(m) => match &m.body {
            MessageBody::AppendEntriesResp { success, match_index } => AppendEntriesResponse {
                term: m.term,
                success: *success,
                match_index: *match_index,
            },
            _ => AppendEntriesResponse { term: 0, success: false, match_index: 0 },
        },
        None => AppendEntriesResponse { term: 0, success: false, match_index: 0 },
    }
}

/// The response that carries a reply to a snapshot.
pub fn install_snapshot_response(reply: Option<&Message>) -> (r: InstallSnapshotResponse)
    ensures
        r == install_answer(maybe(reply)),
{
    match reply {
        Some(m) => InstallSnapshotResponse { term: m.term },
        None => InstallSnapshotResponse { term: 0 },
    }
}

/// The response that carries a reply to a peer's request.
pub fn peer_response(req: &PeerRequest, reply: Option<&Message>) -> (r: PeerResponse)
    ensures
        r == response_of(req@, maybe(reply)),
{
    match req {
        PeerRequest::Vote(_) => PeerResponse::Vote(vote_response(reply)),
        PeerRequest::Append(_) => PeerResponse::Append(append_response(reply)),
        PeerRequest::Install(_) => PeerResponse::Install(install_snapshot_response(reply)),
    }
}

/// The message that the answer to a vote request carries.
pub fn vote_response_to_msg(resp: &RequestVoteResponse, peer: u64, self_id: u64) -> (m: Message)
    ensures
        m@ == (MessageView {
            from: peer,
            to: self_id,
            term: resp.term,
            body: BodyView::RequestVoteResp { granted: resp.vote_granted },
        }),
{
    Message {
        from: peer,
        to: self_id,
        term: resp.term,
        body: MessageBody::RequestVoteResp { granted: resp.vote_granted },
    }
}

/// The message that the answer to entries carries.
pub fn append_response_to_msg(resp: &AppendEntriesResponse, peer: u64, self_id: u64) -> (m: Message)
    ensures
        m@ == (MessageView {
            from: peer,
            to: self_id,
            term: resp.term,
            body: BodyView::AppendEntriesResp {
                success: resp.success,
                match_index: resp.match_index,
            },
        }),
{
    Message {
        from: peer,
        to: self_id,
        term: resp.term,
        body: MessageBody::AppendEntriesResp {
            success: resp.success,
            match_index: resp.match_index,
        },
    }
}

/// The message that the answer to a snapshot of `sent_index` carries.
pub fn install_snapshot_response_to_msg(
    resp: &InstallSnapshotResponse,
    peer: u64,
    self_id: u64,
    sent_index: u64,
) -> (m: Message)
    ensures
        m@ == (MessageView {
            from: peer,
            to: self_id,
            term: resp.term,
            body: BodyView::InstallSnapshotResp { match_index: sent_index },
        }),
{
    Message {
        from: peer,
        to: self_id,
        term: resp.term,
        body: MessageBody::InstallSnapshotResp { match_index: sent_index },
    }
}

/// The message that a peer's response to `sent` carries, to be stepped in; none where the
/// response is not of that request's kind.
pub fn peer_response_to_msg(sent: &Message, resp: &PeerResponse, peer: u64, self_id: u64) -> (r:
    Option<Message>)
    ensures
        match reply_of(sent@, *resp, peer, self_id) {
            Some(v) => r matches Some(m) && m@ == v,
            None => r is None,
        },
{
    match (&sent.body, resp) {
        (MessageBody::RequestVote { .. }, PeerResponse::Vote(r)) => Some(
            vote_response_to_msg(r, peer, self_id),
        ),
        (MessageBody::AppendEntries { .. }, PeerResponse::Append(r)) => Some(
            append_response_to_msg(r, peer, self_id),
        ),
        (MessageBody::InstallSnapshot { last_included_index, .. }, PeerResponse::Install(r)) => Some(
            install_snapshot_response_to_msg(r, peer, self_id, *last_included_index),
        ),
        _ => None,
    }
}

/// A request arrives as the message that was sent.
pub proof fn law_request_roundtrip(m: MessageView)
    ensures
        request_of(m) matches Some(r) ==> message_of(r, m.to) == m,
        request_of(m) is Some <==> m.body is RequestVote || m.body is AppendEntries || m.body
            is InstallSnapshot,
{
    match m.body {
        BodyView::AppendEntries { entries, .. } => {
            let out = Seq::new(entries.len(), |i: int| entry_out(entries[i]));
            assert(Seq::new(out.len(), |i: int| entry_in(out[i])) =~= entries);
        },
        _ => {},
    }
}

/// A reply of the request's kind arrives as the message that was sent: a vote or an append result
/// in full, and the answer to a snapshot with the index that was sent.
pub proof fn law_response_roundtrip(sent: MessageView, reply: MessageView)
    requires
        request_of(sent) is Some,
        match (sent.body, reply.body) {
            (BodyView::RequestVote { .. }, BodyView::RequestVoteResp { .. }) => true,
            (BodyView::AppendEntries { .. }, BodyView::AppendEntriesResp { .. }) => true,
            (
                BodyView::InstallSnapshot { last_included_index, .. },
                BodyView::InstallSnapshotResp { match_index },
            ) => match_index == last_included_index,
            _ => false,
        },
    ensures
        reply_of(
            sent,
            response_of(request_of(sent)->0, Some(reply)),
            reply.from,
            reply.to,
        ) == Some(reply),
{
}

/// A reply that never came is no vote, no match and no newer term.
pub proof fn law_no_reply(sent: MessageView, peer: u64, self_id: u64)
    requires
        request_of(sent) is Some,
    ensures
        match reply_of(sent, response_of(request_of(sent)->0, None), peer, self_id) {
            Some(m) => m.term == 0 && match m.body {
                BodyView::RequestVoteResp { granted } => !granted,
                BodyView::AppendEntriesResp { success, match_index } => !success && match_index
                    == 0,
                _ => sent.body is InstallSnapshot,
            },
            None => false,
        },
{
}

} // verus!
