//! Frames: a message as a little-endian `u32` length followed by its encoding.

use vstd::prelude::*;
use crate::text::{decimal, decimal_text};

use super::parts::{
    answer_bytes, answer_fits, answer_round_trip, entries_fit, entry_list, entry_list_round_trip,
    flag, flag_round_trip, identifier, put_answer, put_entry_list, put_request, put_uuid,
    read_answer, read_entry_list, read_flag, read_request, read_two, read_u64, request_bytes,
    request_fits, request_round_trip, take_answer, take_entry_list, take_flag, take_request,
    take_two, take_uuid, two, two_round_trip, u64_round_trip, uuid_round_trip,
};
use crate::encoding::bincode::{
    byte_string, byte_string_round_trip, put_bytes, put_u64, read_byte_string, read_varint,
    unknown_variant, varint, varint_round_trip, Reader,
};
use crate::encoding::bytes::{
    chain2, chain3, chain4, from_le, le_bytes, le_round_trip, le_value, lemma_byte_pow, to_le,
};
use crate::error::{error_detail, Error, ErrorView, Result};
use crate::raft::entry::{
    membership_bytes, membership_round_trip, put_membership, read_membership, take_membership,
    EntryView, Index, Term,
};
use crate::raft::membership::MembershipView;
use crate::raft::message::{
    answer, answer_detail, duplicate_answer, message_detail, AnswerView, Envelope, EnvelopeView,
    Message, MessageView, ReadSequence, Request, RequestView, Response,
};
use crate::raft::session::read_client;

verus! {

/// A message between processes: of the protocol, or between a client and a node.
#[derive(Debug)]
pub enum WireMsg {
    Raft(Envelope),
    Client { id: u128, request: Request },
    ClientReply { id: u128, response: Result<Response> },
}

/// What contracts say of a message.
#[verifier::ext_equal]
pub ghost enum WireView {
    Raft(EnvelopeView),
    Client { id: u128, request: RequestView },
    ClientReply { id: u128, response: AnswerView },
}

impl View for WireMsg {
    type V = WireView;

    open spec fn view(&self) -> WireView {
        match self {
            WireMsg::Raft(envelope) => WireView::Raft(envelope@),
            WireMsg::Client { id, request } => WireView::Client { id: *id, request: request@ },
            WireMsg::ClientReply { id, response } => WireView::ClientReply {
                id: *id,
                response: answer(*response),
            },
        }
    }
}

/// The text of the error that a message carries, if there is one whose view
/// leaves it out.
pub open spec fn wire_detail(msg: WireMsg) -> Seq<char> {
    match msg {
        WireMsg::Raft(envelope) => message_detail(envelope.message),
        WireMsg::Client { .. } => seq![],
        WireMsg::ClientReply { response, .. } => answer_detail(response),
    }
}


impl Clone for WireMsg {
    fn clone(&self) -> (r: WireMsg)
        ensures
            r@ == self@,
    {
        match self {
            WireMsg::Raft(envelope) => WireMsg::Raft(envelope.clone()),
            WireMsg::Client { id, request } => WireMsg::Client {
                id: *id,
                request: request.clone(),
            },
            WireMsg::ClientReply { id, response } => WireMsg::ClientReply {
                id: *id,
                response: duplicate_answer(response),
            },
        }
    }
}

// Messages.

pub open spec fn message_bytes(message: MessageView, detail: Seq<char>) -> Seq<u8> {
    match message {
        MessageView::PreCampaign { last_index, last_term } => varint(0) + two(
            last_index,
            last_term,
        ),
        MessageView::PreCampaignResponse { vote } => varint(1) + flag(vote),
        MessageView::Campaign { last_index, last_term } => varint(2) + two(last_index, last_term),
        MessageView::CampaignResponse { vote } => varint(3) + flag(vote),
        MessageView::Heartbeat { last_index, commit_index, read_seq } => varint(4) + two(
            last_index,
            commit_index,
        ) + varint(read_seq as nat),
        MessageView::HeartbeatResponse { match_index, read_seq } => varint(5) + two(
            match_index,
            read_seq,
        ),
        MessageView::Append { base_index, base_term, entries } => varint(6) + two(
            base_index,
            base_term,
        ) + entry_list(entries),
        MessageView::AppendResponse { match_index, reject_index } => varint(7) + two(
            match_index,
            reject_index,
        ),
        MessageView::Read { seq } => varint(8) + varint(seq as nat),
        MessageView::ReadResponse { seq } => varint(9) + varint(seq as nat),
        MessageView::ClientRequest { id, request } => varint(10) + identifier(id) + request_bytes(
            request,
        ),
        MessageView::ClientResponse { id, response } => varint(11) + identifier(id) + answer_bytes(
            response,
            detail,
        ),
        MessageView::InstallSnapshot {
            last_included_index,
            last_included_term,
            data,
            membership,
        } => varint(12) + two(last_included_index, last_included_term) + byte_string(data)
            + membership_bytes(membership),
        MessageView::InstallSnapshotResponse { last_included_index } => varint(13) + varint(
            last_included_index as nat,
        ),
    }
}

/// A message and the text of the error that it carries.
pub type Detailed = (MessageView, Seq<char>, Seq<u8>);

pub open spec fn read_heartbeat(bytes: Seq<u8>) -> Option<Detailed> {
    match read_two(bytes) {
        Some((last_index, commit_index, rest)) => match read_u64(rest) {
            Some((read_seq, rest)) => Some(
                (MessageView::Heartbeat { last_index, commit_index, read_seq }, seq![], rest),
            ),
            None => None,
        },
        None => None,
    }
}

pub open spec fn read_append(bytes: Seq<u8>) -> Option<Detailed> {
    match read_two(bytes) {
        Some((base_index, base_term, rest)) => match read_entry_list(rest) {
            Some((entries, rest)) => Some(
                (MessageView::Append { base_index, base_term, entries }, seq![], rest),
            ),
            None => None,
        },
        None => None,
    }
}

pub open spec fn read_client_request(bytes: Seq<u8>) -> Option<Detailed> {
    match read_client(bytes) {
        Some((id, rest)) => match read_request(rest) {
            Some((request, rest)) => Some(
                (MessageView::ClientRequest { id, request }, seq![], rest),
            ),
            None => None,
        },
        None => None,
    }
}

pub open spec fn read_client_response(bytes: Seq<u8>) -> Option<Detailed> {
    match read_client(bytes) {
        Some((id, rest)) => match read_answer(rest) {
            Some((response, detail, rest)) => Some(
                (MessageView::ClientResponse { id, response }, detail, rest),
            ),
            None => None,
        },
        None => None,
    }
}

#[verifier::opaque]
pub open spec fn read_install(bytes: Seq<u8>) -> Option<Detailed> {
    match read_two(bytes) {
        Some((last_included_index, last_included_term, rest)) => match read_byte_string(rest) {
            Some((data, rest)) => match read_membership(rest) {
                Some((membership, rest)) => Some(
                    (
                        MessageView::InstallSnapshot {
                            last_included_index,
                            last_included_term,
                            data,
                            membership,
                        },
                        seq![],
                        rest,
                    ),
                ),
                None => None,
            },
            None => None,
        },
        None => None,
    }
}

/// Reads what follows the variant of a message made of two numbers.
pub open spec fn read_pair(variant: nat, bytes: Seq<u8>) -> Option<Detailed> {
    match read_two(bytes) {
        Some((a, b, rest)) => Some(
            (
                if variant == 0 {
                    MessageView::PreCampaign { last_index: a, last_term: b }
                } else if variant == 2 {
                    MessageView::Campaign { last_index: a, last_term: b }
                } else if variant == 5 {
                    MessageView::HeartbeatResponse { match_index: a, read_seq: b }
                } else {
                    MessageView::AppendResponse { match_index: a, reject_index: b }
                },
                seq![],
                rest,
            ),
        ),
        None => None,
    }
}

/// Reads what follows the variant of a message made of one number.
pub open spec fn read_single(variant: nat, bytes: Seq<u8>) -> Option<Detailed> {
    match read_u64(bytes) {
        Some((a, rest)) => Some(
            (
                if variant == 8 {
                    MessageView::Read { seq: a }
                } else if variant == 9 {
                    MessageView::ReadResponse { seq: a }
                } else {
                    MessageView::InstallSnapshotResponse { last_included_index: a }
                },
                seq![],
                rest,
            ),
        ),
        None => None,
    }
}

/// Reads what follows the variant of a vote.
pub open spec fn read_vote(variant: nat, bytes: Seq<u8>) -> Option<Detailed> {
    match read_flag(bytes) {
        Some((vote, rest)) => Some(
            (
                if variant == 1 {
                    MessageView::PreCampaignResponse { vote }
                } else {
                    MessageView::CampaignResponse { vote }
                },
                seq![],
                rest,
            ),
        ),
        None => None,
    }
}

/// Reads a message off the front of `bytes`.
pub open spec fn read_message(bytes: Seq<u8>) -> Option<Detailed> {
    match read_varint(bytes, 4) {
        Some((variant, rest)) => if variant == 0 || variant == 2 || variant == 5 || variant == 7 {
            read_pair(variant, rest)
        } else if variant == 1 || variant == 3 {
            read_vote(variant, rest)
        } else if variant == 4 {
            read_heartbeat(rest)
        } else if variant == 6 {
            read_append(rest)
        } else if variant == 8 || variant == 9 || variant == 13 {
            read_single(variant, rest)
        } else if variant == 10 {
            read_client_request(rest)
        } else if variant == 11 {
            read_client_response(rest)
        } else if variant == 12 {
            read_install(rest)
        } else {
            None
        },
        None => None,
    }
}

/// Whether a message can be written, and `detail` is the text that its view leaves
/// out. Every message that fits into memory is such.
pub open spec fn message_fits(message: MessageView, detail: Seq<char>) -> bool {
    match message {
        MessageView::ClientResponse { response, .. } => answer_fits(response, detail),
        MessageView::ClientRequest { request, .. } => detail == Seq::<char>::empty()
            && request_fits(request),
        MessageView::Append { entries, .. } => detail == Seq::<char>::empty() && entries_fit(
            entries,
        ),
        MessageView::InstallSnapshot { data, .. } => detail == Seq::<char>::empty() && data.len()
            <= u64::MAX,
        _ => detail == Seq::<char>::empty(),
    }
}

proof fn lemma_pair(message: MessageView, rest: Seq<u8>)
    requires
        message is PreCampaign || message is Campaign || message is HeartbeatResponse
            || message is AppendResponse,
    ensures
        read_message(message_bytes(message, seq![]) + rest) == Some(
            (message, Seq::<char>::empty(), rest),
        ),
{
    match message {
        MessageView::PreCampaign { last_index, last_term } => {
            varint_round_trip(0, two(last_index, last_term) + rest, 4);
            two_round_trip(last_index, last_term, rest);
            chain2(varint(0), two(last_index, last_term), rest);
        },
        MessageView::Campaign { last_index, last_term } => {
            varint_round_trip(2, two(last_index, last_term) + rest, 4);
            two_round_trip(last_index, last_term, rest);
            chain2(varint(2), two(last_index, last_term), rest);
        },
        MessageView::HeartbeatResponse { match_index, read_seq } => {
            varint_round_trip(5, two(match_index, read_seq) + rest, 4);
            two_round_trip(match_index, read_seq, rest);
            chain2(varint(5), two(match_index, read_seq), rest);
        },
        MessageView::AppendResponse { match_index, reject_index } => {
            varint_round_trip(7, two(match_index, reject_index) + rest, 4);
            two_round_trip(match_index, reject_index, rest);
            chain2(varint(7), two(match_index, reject_index), rest);
        },
        _ => {},
    }
}

proof fn lemma_vote(message: MessageView, rest: Seq<u8>)
    requires
        message is PreCampaignResponse || message is CampaignResponse,
    ensures
        read_message(message_bytes(message, seq![]) + rest) == Some(
            (message, Seq::<char>::empty(), rest),
        ),
{
    match message {
        MessageView::PreCampaignResponse { vote } => {
            varint_round_trip(1, flag(vote) + rest, 4);
            flag_round_trip(vote, rest);
            chain2(varint(1), flag(vote), rest);
        },
        MessageView::CampaignResponse { vote } => {
            varint_round_trip(3, flag(vote) + rest, 4);
            flag_round_trip(vote, rest);
            chain2(varint(3), flag(vote), rest);
        },
        _ => {},
    }
}

proof fn lemma_single(message: MessageView, rest: Seq<u8>)
    requires
        message is Read || message is ReadResponse || message is InstallSnapshotResponse,
    ensures
        read_message(message_bytes(message, seq![]) + rest) == Some(
            (message, Seq::<char>::empty(), rest),
        ),
{
    match message {
        MessageView::Read { seq } => {
            varint_round_trip(8, varint(seq as nat) + rest, 4);
            u64_round_trip(seq, rest);
            chain2(varint(8), varint(seq as nat), rest);
        },
        MessageView::ReadResponse { seq } => {
            varint_round_trip(9, varint(seq as nat) + rest, 4);
            u64_round_trip(seq, rest);
            chain2(varint(9), varint(seq as nat), rest);
        },
        MessageView::InstallSnapshotResponse { last_included_index } => {
            varint_round_trip(13, varint(last_included_index as nat) + rest, 4);
            u64_round_trip(last_included_index, rest);
            chain2(varint(13), varint(last_included_index as nat), rest);
        },
        _ => {},
    }
}

proof fn lemma_heartbeat(
    last_index: Index,
    commit_index: Index,
    read_seq: ReadSequence,
    rest: Seq<u8>,
)
    ensures
        ({
            let message = MessageView::Heartbeat { last_index, commit_index, read_seq };
            read_message(message_bytes(message, seq![]) + rest) == Some(
                (message, Seq::<char>::empty(), rest),
            )
        }),
{
    let more = varint(read_seq as nat) + rest;
    varint_round_trip(4, two(last_index, commit_index) + more, 4);
    two_round_trip(last_index, commit_index, more);
    u64_round_trip(read_seq, rest);
    chain3(varint(4), two(last_index, commit_index), varint(read_seq as nat), rest);
}

proof fn lemma_append(
    base_index: Index,
    base_term: Term,
    entries: Seq<EntryView>,
    rest: Seq<u8>,
)
    requires
        entries_fit(entries),
    ensures
        ({
            let message = MessageView::Append { base_index, base_term, entries };
            read_message(message_bytes(message, seq![]) + rest) == Some(
                (message, Seq::<char>::empty(), rest),
            )
        }),
{
    let more = entry_list(entries) + rest;
    varint_round_trip(6, two(base_index, base_term) + more, 4);
    two_round_trip(base_index, base_term, more);
    entry_list_round_trip(entries, rest);
    chain3(varint(6), two(base_index, base_term), entry_list(entries), rest);
}

/// Reading a snapshot message is reading its parts.
proof fn lemma_read_install(
    index: Index,
    term: Term,
    data: Seq<u8>,
    membership: MembershipView,
    bytes: Seq<u8>,
    more: Seq<u8>,
    last: Seq<u8>,
    rest: Seq<u8>,
)
    requires
        read_two(bytes) == Some((index, term, more)),
        read_byte_string(more) == Some((data, last)),
        read_membership(last) == Some((membership, rest)),
    ensures
        read_install(bytes) == Some(
            (
                MessageView::InstallSnapshot {
                    last_included_index: index,
                    last_included_term: term,
                    data,
                    membership,
                },
                Seq::<char>::empty(),
                rest,
            ),
        ),
{
    reveal(read_install);
}

proof fn lemma_install_body(
    last_included_index: Index,
    last_included_term: Term,
    data: Seq<u8>,
    membership: MembershipView,
    rest: Seq<u8>,
)
    requires
        data.len() <= u64::MAX,
    ensures
        read_install(
            two(last_included_index, last_included_term) + (byte_string(data) + (membership_bytes(
                membership,
            ) + rest)),
        ) == Some(
            (
                MessageView::InstallSnapshot {
                    last_included_index,
                    last_included_term,
                    data,
                    membership,
                },
                Seq::<char>::empty(),
                rest,
            ),
        ),
{
    let last = membership_bytes(membership) + rest;
    let more = byte_string(data) + last;
    two_round_trip(last_included_index, last_included_term, more);
    byte_string_round_trip(data, last);
    membership_round_trip(membership, rest);
    lemma_read_install(
        last_included_index,
        last_included_term,
        data,
        membership,
        two(last_included_index, last_included_term) + more,
        more,
        last,
        rest,
    );
}

#[verifier::spinoff_prover]
proof fn lemma_install(
    last_included_index: Index,
    last_included_term: Term,
    data: Seq<u8>,
    membership: MembershipView,
    rest: Seq<u8>,
)
    requires
        data.len() <= u64::MAX,
    ensures
        ({
            let message = MessageView::InstallSnapshot {
                last_included_index,
                last_included_term,
                data,
                membership,
            };
            read_message(message_bytes(message, seq![]) + rest) == Some(
                (message, Seq::<char>::empty(), rest),
            )
        }),
{
    let body = two(last_included_index, last_included_term) + (byte_string(data) + (
    membership_bytes(membership) + rest));
    varint_round_trip(12, body, 4);
    lemma_install_body(last_included_index, last_included_term, data, membership, rest);
    chain4(
        varint(12),
        two(last_included_index, last_included_term),
        byte_string(data),
        membership_bytes(membership),
        rest,
    );
}

proof fn lemma_client(message: MessageView, detail: Seq<char>, rest: Seq<u8>)
    requires
        message is ClientRequest || message is ClientResponse,
        message_fits(message, detail),
    ensures
        read_message(message_bytes(message, detail) + rest) == Some((message, detail, rest)),
{
    match message {
        MessageView::ClientRequest { id, request } => {
            let more = request_bytes(request) + rest;
            let body = identifier(id) + more;
            varint_round_trip(10, body, 4);
            uuid_round_trip(id, more);
            request_round_trip(request, rest);
            chain3(varint(10), identifier(id), request_bytes(request), rest);
        },
        MessageView::ClientResponse { id, response } => {
            let more = answer_bytes(response, detail) + rest;
            let body = identifier(id) + more;
            varint_round_trip(11, body, 4);
            uuid_round_trip(id, more);
            answer_round_trip(response, detail, rest);
            chain3(varint(11), identifier(id), answer_bytes(response, detail), rest);
        },
        _ => {},
    }
}

/// The message written is the one read back.
pub proof fn message_round_trip(message: MessageView, detail: Seq<char>, rest: Seq<u8>)
    requires
        message_fits(message, detail),
    ensures
        read_message(message_bytes(message, detail) + rest) == Some((message, detail, rest)),
{
    match message {
        MessageView::PreCampaign { .. } => lemma_pair(message, rest),
        MessageView::Campaign { .. } => lemma_pair(message, rest),
        MessageView::HeartbeatResponse { .. } => lemma_pair(message, rest),
        MessageView::AppendResponse { .. } => lemma_pair(message, rest),
        MessageView::PreCampaignResponse { .. } => lemma_vote(message, rest),
        MessageView::CampaignResponse { .. } => lemma_vote(message, rest),
        MessageView::Read { .. } => lemma_single(message, rest),
        MessageView::ReadResponse { .. } => lemma_single(message, rest),
        MessageView::InstallSnapshotResponse { .. } => lemma_single(message, rest),
        MessageView::Heartbeat { last_index, commit_index, read_seq } => lemma_heartbeat(
            last_index,
            commit_index,
            read_seq,
            rest,
        ),
        MessageView::Append { base_index, base_term, entries } => lemma_append(
            base_index,
            base_term,
            entries,
            rest,
        ),
        MessageView::InstallSnapshot {
            last_included_index,
            last_included_term,
            data,
            membership,
        } => lemma_install(last_included_index, last_included_term, data, membership, rest),
        MessageView::ClientRequest { .. } => lemma_client(message, detail, rest),
        MessageView::ClientResponse { .. } => lemma_client(message, detail, rest),
    }
}

fn put_message(out: &mut Vec<u8>, message: &Message)
    ensures
        final(out)@ == old(out)@ + message_bytes(message@, message_detail(*message)),
{
    match message {
        Message::PreCampaign { last_index, last_term } => {
            put_u64(out, 0);
            put_u64(out, *last_index);
            put_u64(out, *last_term);
        },
        Message::PreCampaignResponse { vote } => {
            put_u64(out, 1);
            put_flag(out, *vote);
        },
        Message::Campaign { last_index, last_term } => {
            put_u64(out, 2);
            put_u64(out, *last_index);
            put_u64(out, *last_term);
        },
        Message::CampaignResponse { vote } => {
            put_u64(out, 3);
            put_flag(out, *vote);
        },
        Message::Heartbeat { last_index, commit_index, read_seq } => {
            put_u64(out, 4);
            put_u64(out, *last_index);
            put_u64(out, *commit_index);
            put_u64(out, *read_seq);
        },
        Message::HeartbeatResponse { match_index, read_seq } => {
            put_u64(out, 5);
            put_u64(out, *match_index);
            put_u64(out, *read_seq);
        },
        Message::Append { base_index, base_term, entries } => {
            put_u64(out, 6);
            put_u64(out, *base_index);
            put_u64(out, *base_term);
            put_entry_list(out, entries);
        },
        Message::AppendResponse { match_index, reject_index } => {
            put_u64(out, 7);
            put_u64(out, *match_index);
            put_u64(out, *reject_index);
        },
        Message::Read { seq } => {
            put_u64(out, 8);
            put_u64(out, *seq);
        },
        Message::ReadResponse { seq } => {
            put_u64(out, 9);
            put_u64(out, *seq);
        },
        Message::ClientRequest { id, request } => {
            put_u64(out, 10);
            put_uuid(out, *id);
            put_request(out, request);
        },
        Message::ClientResponse { id, response } => {
            put_u64(out, 11);
            put_uuid(out, *id);
            put_answer(out, response);
        },
        Message::InstallSnapshot { last_included_index, last_included_term, data, membership } => {
            put_u64(out, 12);
            put_u64(out, *last_included_index);
            put_u64(out, *last_included_term);
            put_bytes(out, data.as_slice());
            put_membership(out, membership);
        },
        Message::InstallSnapshotResponse { last_included_index } => {
            put_u64(out, 13);
            put_u64(out, *last_included_index);
        },
    }
    assert(out@ =~= old(out)@ + message_bytes(message@, message_detail(*message)));
}

fn put_flag(out: &mut Vec<u8>, value: bool)
    ensures
        final(out)@ == old(out)@ + flag(value),
{
    out.push(
        if value {
            1
        } else {
            0
        },
    );
    assert(out@ =~= old(out)@ + flag(value));
}

fn take_pair_message(reader: &mut Reader, variant: u32) -> (r: Result<Message>)
    requires
        old(reader).wf(),
        variant == 0 || variant == 2 || variant == 5 || variant == 7,
    ensures
        final(reader).wf(),
        is_read(read_pair(variant as nat, old(reader).rest()), r, final(reader).rest()),
{
    match take_two(reader) {
        Ok((a, b)) => Ok(
            if variant == 0 {
                Message::PreCampaign { last_index: a, last_term: b }
            } else if variant == 2 {
                Message::Campaign { last_index: a, last_term: b }
            } else if variant == 5 {
                Message::HeartbeatResponse { match_index: a, read_seq: b }
            } else {
                Message::AppendResponse { match_index: a, reject_index: b }
            },
        ),
        Err(e) => Err(e),
    }
}

fn take_single_message(reader: &mut Reader, variant: u32) -> (r: Result<Message>)
    requires
        old(reader).wf(),
        variant == 8 || variant == 9 || variant == 13,
    ensures
        final(reader).wf(),
        is_read(read_single(variant as nat, old(reader).rest()), r, final(reader).rest()),
{
    match reader.u64() {
        Ok(a) => Ok(
            if variant == 8 {
                Message::Read { seq: a }
            } else if variant == 9 {
                Message::ReadResponse { seq: a }
            } else {
                Message::InstallSnapshotResponse { last_included_index: a }
            },
        ),
        Err(e) => Err(e),
    }
}

fn take_vote_message(reader: &mut Reader, variant: u32) -> (r: Result<Message>)
    requires
        old(reader).wf(),
        variant == 1 || variant == 3,
    ensures
        final(reader).wf(),
        is_read(read_vote(variant as nat, old(reader).rest()), r, final(reader).rest()),
{
    match take_flag(reader) {
        Ok(vote) => Ok(
            if variant == 1 {
                Message::PreCampaignResponse { vote }
            } else {
                Message::CampaignResponse { vote }
            },
        ),
        Err(e) => Err(e),
    }
}

fn take_heartbeat(reader: &mut Reader) -> (r: Result<Message>)
    requires
        old(reader).wf(),
    ensures
        final(reader).wf(),
        is_read(read_heartbeat(old(reader).rest()), r, final(reader).rest()),
{
    let (last_index, commit_index) = match take_two(reader) {
        Ok(pair) => pair,
        Err(e) => return Err(e),
    };
    match reader.u64() {
        Ok(read_seq) => Ok(Message::Heartbeat { last_index, commit_index, read_seq }),
        Err(e) => Err(e),
    }
}

fn take_append(reader: &mut Reader) -> (r: Result<Message>)
    requires
        old(reader).wf(),
    ensures
        final(reader).wf(),
        is_read(read_append(old(reader).rest()), r, final(reader).rest()),
{
    let (base_index, base_term) = match take_two(reader) {
        Ok(pair) => pair,
        Err(e) => return Err(e),
    };
    match take_entry_list(reader) {
        Ok(entries) => Ok(Message::Append { base_index, base_term, entries }),
        Err(e) => Err(e),
    }
}

fn take_client_request(reader: &mut Reader) -> (r: Result<Message>)
    requires
        old(reader).wf(),
    ensures
        final(reader).wf(),
        is_read(read_client_request(old(reader).rest()), r, final(reader).rest()),
{
    let id = match take_uuid(reader) {
        Ok(id) => id,
        Err(e) => return Err(e),
    };
    match take_request(reader) {
        Ok(request) => Ok(Message::ClientRequest { id, request }),
        Err(e) => Err(e),
    }
}

fn take_client_response(reader: &mut Reader) -> (r: Result<Message>)
    requires
        old(reader).wf(),
    ensures
        final(reader).wf(),
        is_read(read_client_response(old(reader).rest()), r, final(reader).rest()),
{
    let id = match take_uuid(reader) {
        Ok(id) => id,
        Err(e) => return Err(e),
    };
    match take_answer(reader) {
        Ok(response) => Ok(Message::ClientResponse { id, response }),
        Err(e) => Err(e),
    }
}

fn take_install(reader: &mut Reader) -> (r: Result<Message>)
    requires
        old(reader).wf(),
    ensures
        final(reader).wf(),
        is_read(read_install(old(reader).rest()), r, final(reader).rest()),
{
    proof {
        reveal(read_install);
    }
    let (last_included_index, last_included_term) = match take_two(reader) {
        Ok(pair) => pair,
        Err(e) => return Err(e),
    };
    let data = match reader.byte_string() {
        Ok(data) => data,
        Err(e) => return Err(e),
    };
    match take_membership(reader) {
        Ok(membership) => Ok(
            Message::InstallSnapshot { last_included_index, last_included_term, data, membership },
        ),
        Err(e) => Err(e),
    }
}

/// Whether `r` is the message that was to be read.
pub open spec fn is_read(expected: Option<Detailed>, r: Result<Message>, rest: Seq<u8>) -> bool {
    match r {
        Ok(message) => expected == Some((message@, message_detail(message), rest)),
        Err(e) => expected is None && e@ == ErrorView::InvalidData,
    }
}

fn take_message(reader: &mut Reader) -> (r: Result<Message>)
    requires
        old(reader).wf(),
    ensures
        final(reader).wf(),
        is_read(read_message(old(reader).rest()), r, final(reader).rest()),
{
    let variant = match reader.variant() {
        Ok(variant) => variant,
        Err(e) => return Err(e),
    };
    if variant == 0 || variant == 2 || variant == 5 || variant == 7 {
        take_pair_message(reader, variant)
    } else if variant == 1 || variant == 3 {
        take_vote_message(reader, variant)
    } else if variant == 4 {
        take_heartbeat(reader)
    } else if variant == 6 {
        take_append(reader)
    } else if variant == 8 || variant == 9 || variant == 13 {
        take_single_message(reader, variant)
    } else if variant == 10 {
        take_client_request(reader)
    } else if variant == 11 {
        take_client_response(reader)
    } else if variant == 12 {
        take_install(reader)
    } else {
        Err(unknown_variant(variant, 14))
    }
}

// Wire messages.

pub open spec fn wire_bytes(msg: WireView, detail: Seq<char>) -> Seq<u8> {
    match msg {
        WireView::Raft(envelope) => varint(0) + seq![envelope.from] + varint(envelope.term as nat)
            + seq![envelope.to] + message_bytes(envelope.message, detail),
        WireView::Client { id, request } => varint(1) + identifier(id) + request_bytes(request),
        WireView::ClientReply { id, response } => varint(2) + identifier(id) + answer_bytes(
            response,
            detail,
        ),
    }
}

pub open spec fn read_envelope(bytes: Seq<u8>) -> Option<(WireView, Seq<char>)> {
    if bytes.len() == 0 {
        None
    } else {
        match read_u64(bytes.skip(1)) {
            Some((term, rest)) => if rest.len() == 0 {
                None
            } else {
                match read_message(rest.skip(1)) {
                    Some((message, detail, _)) => Some(
                        (
                            WireView::Raft(
                                EnvelopeView { from: bytes[0], term, to: rest[0], message },
                            ),
                            detail,
                        ),
                    ),
                    None => None,
                }
            },
            None => None,
        }
    }
}

/// The message that `bytes` start with, and the text of the error that it
/// carries. What follows it does not matter.
pub open spec fn read_wire(bytes: Seq<u8>) -> Option<(WireView, Seq<char>)> {
    match read_varint(bytes, 4) {
        Some((variant, rest)) => if variant == 0 {
            read_envelope(rest)
        } else if variant == 1 {
            match read_client_request(rest) {
                Some((MessageView::ClientRequest { id, request }, detail, _)) => Some(
                    (WireView::Client { id, request }, detail),
                ),
                _ => None,
            }
        } else if variant == 2 {
            match read_client_response(rest) {
                Some((MessageView::ClientResponse { id, response }, detail, _)) => Some(
                    (WireView::ClientReply { id, response }, detail),
                ),
                _ => None,
            }
        } else {
            None
        },
        None => None,
    }
}

pub open spec fn wire_fits(msg: WireView, detail: Seq<char>) -> bool {
    match msg {
        WireView::Raft(envelope) => message_fits(envelope.message, detail),
        WireView::Client { request, .. } => detail == Seq::<char>::empty() && request_fits(request),
        WireView::ClientReply { response, .. } => answer_fits(response, detail),
    }
}

/// What is sent is what is received: the message written is the one read back,
/// with the text of its error.
pub proof fn wire_round_trip(msg: WireView, detail: Seq<char>)
    requires
        wire_fits(msg, detail),
    ensures
        read_wire(wire_bytes(msg, detail)) == Some((msg, detail)),
{
    match msg {
        WireView::Raft(envelope) => {
            let message = message_bytes(envelope.message, detail);
            let to = seq![envelope.to] + message;
            let term = varint(envelope.term as nat) + to;
            let body = seq![envelope.from] + term;
            varint_round_trip(0, body, 4);
            u64_round_trip(envelope.term, to);
            message_round_trip(envelope.message, detail, seq![]);
            assert(message + seq![] =~= message);
            chain4(
                varint(0),
                seq![envelope.from],
                varint(envelope.term as nat),
                seq![envelope.to],
                message,
            );
            assert(body.skip(1) =~= term);
            assert(to.skip(1) =~= message);
        },
        WireView::Client { id, request } => {
            let body = identifier(id) + request_bytes(request);
            varint_round_trip(1, body, 4);
            uuid_round_trip(id, request_bytes(request));
            request_round_trip(request, seq![]);
            assert(request_bytes(request) + seq![] =~= request_bytes(request));
            chain2(varint(1), identifier(id), request_bytes(request));
        },
        WireView::ClientReply { id, response } => {
            let more = answer_bytes(response, detail);
            let body = identifier(id) + more;
            varint_round_trip(2, body, 4);
            uuid_round_trip(id, more);
            answer_round_trip(response, detail, seq![]);
            assert(more + seq![] =~= more);
            chain2(varint(2), identifier(id), more);
        },
    }
}

/// A frame: the length of its body, of which the low 32 bits are kept, and the
/// body.
pub open spec fn frame(body: Seq<u8>) -> Seq<u8> {
    le_bytes(body.len() % 0x1_0000_0000, 4) + body
}

/// The largest body that a frame may announce: 64 MiB.
pub const MAX_FRAME: usize = 67_108_864;

/// Encodes a message as a frame.
pub fn encode(msg: &WireMsg) -> (r: Result<Vec<u8>>)
    ensures
        r matches Ok(bytes) && bytes@ == frame(wire_bytes(msg@, wire_detail(*msg))),
{
    let mut body: Vec<u8> = Vec::new();
    match msg {
        WireMsg::Raft(envelope) => {
            put_u64(&mut body, 0);
            body.push(envelope.from);
            put_u64(&mut body, envelope.term);
            body.push(envelope.to);
            put_message(&mut body, &envelope.message);
        },
        WireMsg::Client { id, request } => {
            put_u64(&mut body, 1);
            put_uuid(&mut body, *id);
            put_request(&mut body, request);
        },
        WireMsg::ClientReply { id, response } => {
            put_u64(&mut body, 2);
            put_uuid(&mut body, *id);
            put_answer(&mut body, response);
        },
    }
    assert(body@ =~= wire_bytes(msg@, wire_detail(*msg)));
    let mut out = to_le(body.len() as u64 % 0x1_0000_0000, 4);
    out.append(&mut body);
    Ok(out)
}

/// Decodes the body of a frame.
pub fn decode(bytes: &[u8]) -> (r: Result<WireMsg>)
    ensures
        match r {
            Ok(msg) => read_wire(bytes@) == Some((msg@, wire_detail(msg))),
            Err(e) => read_wire(bytes@) is None && e@ == ErrorView::InvalidData,
        },
{
    let mut reader = Reader::new(bytes);
    let variant = match reader.variant() {
        Ok(variant) => variant,
        Err(e) => return Err(e),
    };
    if variant == 0 {
        let from = match reader.byte() {
            Ok(from) => from,
            Err(e) => return Err(e),
        };
        let term = match reader.u64() {
            Ok(term) => term,
            Err(e) => return Err(e),
        };
        let to = match reader.byte() {
            Ok(to) => to,
            Err(e) => return Err(e),
        };
        match take_message(&mut reader) {
            Ok(message) => Ok(WireMsg::Raft(Envelope { from, term, to, message })),
            Err(e) => Err(e),
        }
    } else if variant == 1 {
        let id = match take_uuid(&mut reader) {
            Ok(id) => id,
            Err(e) => return Err(e),
        };
        match take_request(&mut reader) {
            Ok(request) => Ok(WireMsg::Client { id, request }),
            Err(e) => Err(e),
        }
    } else if variant == 2 {
        let id = match take_uuid(&mut reader) {
            Ok(id) => id,
            Err(e) => return Err(e),
        };
        match take_answer(&mut reader) {
            Ok(response) => Ok(WireMsg::ClientReply { id, response }),
            Err(e) => Err(e),
        }
    } else {
        Err(unknown_variant(variant, 3))
    }
}

/// The length of the body that follows the first four bytes of a frame. One that
/// is too large is refused.
pub fn frame_length(header: &[u8]) -> (r: Result<usize>)
    requires
        header@.len() == 4,
    ensures
        match r {
            Ok(length) => length == le_value(header@) && length <= MAX_FRAME,
            Err(e) => le_value(header@) > MAX_FRAME && e@ == ErrorView::InvalidData
                && error_detail(e) == "frame too large: "@ + decimal(le_value(header@)),
        },
{
    let length = from_le(header);
    if length > MAX_FRAME as u64 {
        let mut message = "frame too large: ".to_string();
        message.append(decimal_text(length).as_str());
        return Err(Error::InvalidData(message));
    }
    Ok(length as usize)
}

/// A frame that is not too large announces the length of its body, and holds the
/// body after its first four bytes.
pub proof fn frames_announce_their_length(body: Seq<u8>)
    requires
        body.len() <= MAX_FRAME,
    ensures
        frame(body).len() == 4 + body.len(),
        le_value(frame(body).take(4)) == body.len(),
        frame(body).skip(4) == body,
{
    lemma_byte_pow();
    le_round_trip(body.len(), 4);
    assert(frame(body).take(4) =~= le_bytes(body.len(), 4));
    assert(frame(body).skip(4) =~= body);
}

} // verus!
