//! Messages between nodes, and between clients and nodes.

use std::collections::{BTreeMap, BTreeSet, HashSet};

use vstd::prelude::*;
use vstd::slice::slice_to_vec;

use super::entry::{duplicate_entries, entry_views, Entry, EntryView, Index, Term};
use super::ids::{ordered, unordered, NodeID};
use super::membership::{MembershipEntry, MembershipView};
use crate::error::{error_detail, ErrorView, Result};
use crate::storage::engine::{Status as StorageStatus, StatusView as StorageStatusView};

verus! {

/// A client request's identifier, globally unique while the request is in
/// flight: the 128 bits of a UUID.
pub type RequestID = u128;

/// The number of a read, by which a leader confirms its leadership.
pub type ReadSequence = u64;

/// A message with its sender and receiver.
#[derive(Debug, PartialEq)]
pub struct Envelope {
    pub from: NodeID,
    /// The sender's current term.
    pub term: Term,
    pub to: NodeID,
    pub message: Message,
}

/// A message between nodes. Messages may be lost or reordered.
#[derive(Debug, PartialEq)]
pub enum Message {
    /// Asks whether an election could be won, without raising the term.
    PreCampaign { last_index: Index, last_term: Term },
    /// Answers [`Message::PreCampaign`].
    PreCampaignResponse { vote: bool },
    /// Asks for a vote. It is granted only to a candidate whose log is at least
    /// as up to date as the voter's.
    Campaign { last_index: Index, last_term: Term },
    /// Answers [`Message::Campaign`]. A node votes once in a term.
    CampaignResponse { vote: bool },
    /// The leader's heartbeat: it announces the leader, detects lost appends and
    /// reads, and moves the commit index of the followers.
    Heartbeat { last_index: Index, commit_index: Index, read_seq: ReadSequence },
    /// Answers [`Message::Heartbeat`]. The match index is the leader's last
    /// index if the follower has that entry, otherwise 0.
    HeartbeatResponse { match_index: Index, read_seq: ReadSequence },
    /// Appends entries after a base entry, or probes for it if there are none.
    Append { base_index: Index, base_term: Term, entries: Vec<Entry> },
    /// Answers [`Message::Append`]: the last index that matches, or the base
    /// index that was rejected; the other one is 0.
    AppendResponse { match_index: Index, reject_index: Index },
    /// Asks the followers to confirm the leadership for a read.
    Read { seq: ReadSequence },
    /// Answers [`Message::Read`].
    ReadResponse { seq: ReadSequence },
    /// A client's request, which a follower forwards to its leader.
    ClientRequest { id: RequestID, request: Request },
    /// Answers [`Message::ClientRequest`].
    ClientResponse { id: RequestID, response: Result<Response> },
    /// Replaces the follower's log and state by a snapshot.
    InstallSnapshot {
        last_included_index: Index,
        last_included_term: Term,
        data: Vec<u8>,
        membership: MembershipEntry,
    },
    /// Answers [`Message::InstallSnapshot`].
    InstallSnapshotResponse { last_included_index: Index },
}

/// A client's request.
#[derive(Debug, PartialEq)]
pub enum Request {
    /// A read command for the state machine.
    Read(Vec<u8>),
    /// A write command for the state machine.
    Write(Vec<u8>),
    /// A write command that takes effect at most once per client and number.
    WriteSession { client_id: u128, seq: u64, command: Vec<u8> },
    /// Asks the leader for the cluster's state.
    Status,
    /// Changes the voters.
    ChangeMembership { voters: HashSet<NodeID> },
}

/// The answer to a [`Request`].
#[derive(Clone, Debug, PartialEq)]
pub enum Response {
    Read(Vec<u8>),
    Write(Vec<u8>),
    Status(Status),
    /// The membership change was committed at this index.
    ChangeMembership { index: Index },
}

/// The state of a cluster, as its leader sees it.
#[derive(Clone, Debug, PartialEq)]
pub struct Status {
    pub leader: NodeID,
    pub term: Term,
    /// Up to which index each node's log is known to match the leader's.
    pub match_index: BTreeMap<NodeID, Index>,
    pub commit_index: Index,
    pub applied_index: Index,
    /// The state of the log's storage engine.
    pub storage: StorageStatus,
    /// The voters.
    pub voters: BTreeSet<NodeID>,
}

#[verifier::ext_equal]
pub ghost struct StatusView {
    pub leader: NodeID,
    pub term: Term,
    pub match_index: Map<NodeID, Index>,
    pub commit_index: Index,
    pub applied_index: Index,
    pub storage: StorageStatusView,
    pub voters: Set<NodeID>,
}

#[verifier::ext_equal]
pub ghost enum RequestView {
    Read(Seq<u8>),
    Write(Seq<u8>),
    WriteSession { client_id: u128, seq: u64, command: Seq<u8> },
    Status,
    ChangeMembership { voters: Set<NodeID> },
}

#[verifier::ext_equal]
pub ghost enum ResponseView {
    Read(Seq<u8>),
    Write(Seq<u8>),
    Status(StatusView),
    ChangeMembership { index: Index },
}

/// The view of a response or an error.
pub type AnswerView = std::result::Result<ResponseView, ErrorView>;

#[verifier::ext_equal]
pub ghost enum MessageView {
    PreCampaign { last_index: Index, last_term: Term },
    PreCampaignResponse { vote: bool },
    Campaign { last_index: Index, last_term: Term },
    CampaignResponse { vote: bool },
    Heartbeat { last_index: Index, commit_index: Index, read_seq: ReadSequence },
    HeartbeatResponse { match_index: Index, read_seq: ReadSequence },
    Append { base_index: Index, base_term: Term, entries: Seq<EntryView> },
    AppendResponse { match_index: Index, reject_index: Index },
    Read { seq: ReadSequence },
    ReadResponse { seq: ReadSequence },
    ClientRequest { id: RequestID, request: RequestView },
    ClientResponse { id: RequestID, response: AnswerView },
    InstallSnapshot {
        last_included_index: Index,
        last_included_term: Term,
        data: Seq<u8>,
        membership: MembershipView,
    },
    InstallSnapshotResponse { last_included_index: Index },
}

#[verifier::ext_equal]
pub ghost struct EnvelopeView {
    pub from: NodeID,
    pub term: Term,
    pub to: NodeID,
    pub message: MessageView,
}

impl View for Status {
    type V = StatusView;

    open spec fn view(&self) -> StatusView {
        StatusView {
            leader: self.leader,
            term: self.term,
            match_index: self.match_index@,
            commit_index: self.commit_index,
            applied_index: self.applied_index,
            storage: self.storage@,
            voters: self.voters@,
        }
    }
}

impl View for Request {
    type V = RequestView;

    open spec fn view(&self) -> RequestView {
        match self {
            Request::Read(command) => RequestView::Read(command@),
            Request::Write(command) => RequestView::Write(command@),
            Request::WriteSession { client_id, seq, command } => RequestView::WriteSession {
                client_id: *client_id,
                seq: *seq,
                command: command@,
            },
            Request::Status => RequestView::Status,
            Request::ChangeMembership { voters } => RequestView::ChangeMembership {
                voters: voters@,
            },
        }
    }
}

impl View for Response {
    type V = ResponseView;

    open spec fn view(&self) -> ResponseView {
        match self {
            Response::Read(data) => ResponseView::Read(data@),
            Response::Write(data) => ResponseView::Write(data@),
            Response::Status(status) => ResponseView::Status(status@),
            Response::ChangeMembership { index } => ResponseView::ChangeMembership {
                index: *index,
            },
        }
    }
}

/// The view of a response or an error.
pub open spec fn answer(response: Result<Response>) -> AnswerView {
    match response {
        Ok(response) => Ok(response@),
        Err(e) => Err(e@),
    }
}

impl View for Message {
    type V = MessageView;

    open spec fn view(&self) -> MessageView {
        match self {
            Message::PreCampaign { last_index, last_term } => MessageView::PreCampaign {
                last_index: *last_index,
                last_term: *last_term,
            },
            Message::PreCampaignResponse { vote } => MessageView::PreCampaignResponse {
                vote: *vote,
            },
            Message::Campaign { last_index, last_term } => MessageView::Campaign {
                last_index: *last_index,
                last_term: *last_term,
            },
            Message::CampaignResponse { vote } => MessageView::CampaignResponse { vote: *vote },
            Message::Heartbeat { last_index, commit_index, read_seq } => MessageView::Heartbeat {
                last_index: *last_index,
                commit_index: *commit_index,
                read_seq: *read_seq,
            },
            Message::HeartbeatResponse { match_index, read_seq } =>
                MessageView::HeartbeatResponse { match_index: *match_index, read_seq: *read_seq },
            Message::Append { base_index, base_term, entries } => MessageView::Append {
                base_index: *base_index,
                base_term: *base_term,
                entries: entry_views(entries@),
            },
            Message::AppendResponse { match_index, reject_index } => MessageView::AppendResponse {
                match_index: *match_index,
                reject_index: *reject_index,
            },
            Message::Read { seq } => MessageView::Read { seq: *seq },
            Message::ReadResponse { seq } => MessageView::ReadResponse { seq: *seq },
            Message::ClientRequest { id, request } => MessageView::ClientRequest {
                id: *id,
                request: request@,
            },
            Message::ClientResponse { id, response } => MessageView::ClientResponse {
                id: *id,
                response: answer(*response),
            },
            Message::InstallSnapshot {
                last_included_index,
                last_included_term,
                data,
                membership,
            } => MessageView::InstallSnapshot {
                last_included_index: *last_included_index,
                last_included_term: *last_included_term,
                data: data@,
                membership: membership@,
            },
            Message::InstallSnapshotResponse { last_included_index } =>
                MessageView::InstallSnapshotResponse { last_included_index: *last_included_index },
        }
    }
}

impl View for Envelope {
    type V = EnvelopeView;

    open spec fn view(&self) -> EnvelopeView {
        EnvelopeView {
            from: self.from,
            term: self.term,
            to: self.to,
            message: self.message@,
        }
    }
}

/// The views of a list of envelopes.
pub open spec fn envelope_views(envelopes: Seq<Envelope>) -> Seq<EnvelopeView> {
    envelopes.map_values(|envelope: Envelope| envelope@)
}

impl Clone for Request {
    fn clone(&self) -> (r: Request)
        ensures
            r@ == self@,
    {
        match self {
            Request::Read(command) => Request::Read(slice_to_vec(command.as_slice())),
            Request::Write(command) => Request::Write(slice_to_vec(command.as_slice())),
            Request::WriteSession { client_id, seq, command } => Request::WriteSession {
                client_id: *client_id,
                seq: *seq,
                command: slice_to_vec(command.as_slice()),
            },
            Request::Status => Request::Status,
            Request::ChangeMembership { voters } => Request::ChangeMembership {
                voters: unordered(&ordered(voters)),
            },
        }
    }
}

/// The text of an answer that is an error, where its view leaves it out.
pub open spec fn answer_detail(response: Result<Response>) -> Seq<char> {
    match response {
        Ok(_) => seq![],
        Err(e) => error_detail(e),
    }
}

/// The text of an error in a message, where its view leaves it out.
pub open spec fn message_detail(message: Message) -> Seq<char> {
    match message {
        Message::ClientResponse { response, .. } => answer_detail(response),
        _ => seq![],
    }
}

/// A copy of a response or an error.
pub fn duplicate_answer(response: &Result<Response>) -> (r: Result<Response>)
    ensures
        answer(r) == answer(*response),
        answer_detail(r) == answer_detail(*response),
{
    match response {
        Ok(Response::Read(data)) => Ok(Response::Read(slice_to_vec(data.as_slice()))),
        Ok(Response::Write(data)) => Ok(Response::Write(slice_to_vec(data.as_slice()))),
        Ok(Response::Status(status)) => {
            let copy = Status {
                leader: status.leader,
                term: status.term,
                match_index: status.match_index.clone(),
                commit_index: status.commit_index,
                applied_index: status.applied_index,
                storage: StorageStatus {
                    name: status.storage.name.clone(),
                    keys: status.storage.keys,
                    size: status.storage.size,
                    disk_size: status.storage.disk_size,
                    live_disk_size: status.storage.live_disk_size,
                },
                voters: status.voters.clone(),
            };
            Ok(Response::Status(copy))
        },
        Ok(Response::ChangeMembership { index }) => Ok(
            Response::ChangeMembership { index: *index },
        ),
        Err(e) => Err(e.duplicate()),
    }
}

impl Clone for Message {
    fn clone(&self) -> (r: Message)
        ensures
            r@ == self@,
            message_detail(r) == message_detail(*self),
    {
        match self {
            Message::PreCampaign { last_index, last_term } => Message::PreCampaign {
                last_index: *last_index,
                last_term: *last_term,
            },
            Message::PreCampaignResponse { vote } => Message::PreCampaignResponse { vote: *vote },
            Message::Campaign { last_index, last_term } => Message::Campaign {
                last_index: *last_index,
                last_term: *last_term,
            },
            Message::CampaignResponse { vote } => Message::CampaignResponse { vote: *vote },
            Message::Heartbeat { last_index, commit_index, read_seq } => Message::Heartbeat {
                last_index: *last_index,
                commit_index: *commit_index,
                read_seq: *read_seq,
            },
            Message::HeartbeatResponse { match_index, read_seq } => Message::HeartbeatResponse {
                match_index: *match_index,
                read_seq: *read_seq,
            },
            Message::Append { base_index, base_term, entries } => Message::Append {
                base_index: *base_index,
                base_term: *base_term,
                entries: duplicate_entries(entries),
            },
            Message::AppendResponse { match_index, reject_index } => Message::AppendResponse {
                match_index: *match_index,
                reject_index: *reject_index,
            },
            Message::Read { seq } => Message::Read { seq: *seq },
            Message::ReadResponse { seq } => Message::ReadResponse { seq: *seq },
            Message::ClientRequest { id, request } => Message::ClientRequest {
                id: *id,
                request: request.clone(),
            },
            Message::ClientResponse { id, response } => Message::ClientResponse {
                id: *id,
                response: duplicate_answer(response),
            },
            Message::InstallSnapshot {
                last_included_index,
                last_included_term,
                data,
                membership,
            } => Message::InstallSnapshot {
                last_included_index: *last_included_index,
                last_included_term: *last_included_term,
                data: slice_to_vec(data.as_slice()),
                membership: membership.duplicate(),
            },
            Message::InstallSnapshotResponse { last_included_index } =>
                Message::InstallSnapshotResponse { last_included_index: *last_included_index },
        }
    }
}

impl Clone for Envelope {
    fn clone(&self) -> (r: Envelope)
        ensures
            r@ == self@,
            message_detail(r.message) == message_detail(self.message),
    {
        Envelope {
            from: self.from,
            term: self.term,
            to: self.to,
            message: self.message.clone(),
        }
    }
}

} // verus!
