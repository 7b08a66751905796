//! The wire protocol.

use std::collections::{BTreeMap, BTreeSet, HashSet};

use raft_rust::net::codec::{decode, encode, frame_length};
use raft_rust::net::exchange::{answer_of, inbound, reply};
use raft_rust::net::{Inbound, WireMsg};
use raft_rust::raft::membership::{Membership, MembershipEntry};
use raft_rust::{Entry, Envelope, Error, Message, Request, Response, Status};

fn sent(message: Message) -> WireMsg {
    WireMsg::Raft(Envelope { from: 1, to: 2, term: 7, message })
}

/// Encodes a message and decodes it again.
fn passed(msg: &WireMsg) -> WireMsg {
    let frame = encode(msg).unwrap();
    let length = frame_length(&frame[..4]).unwrap();
    assert_eq!(length, frame.len() - 4);
    decode(&frame[4..]).unwrap()
}

fn status() -> Status {
    Status {
        leader: 1,
        term: 3,
        match_index: BTreeMap::from([(1, 9), (2, 8)]),
        commit_index: 8,
        applied_index: 8,
        storage: raft_rust::storage::Status {
            name: "bitcask".into(),
            keys: 4,
            size: 100,
            disk_size: 300,
            live_disk_size: 200,
        },
        voters: BTreeSet::from([1, 2]),
    }
}

#[test]
fn every_message_passes_the_wire() {
    let change = MembershipEntry::Simple(Membership::from_iter(&[1, 2, 3]));
    let entries = vec![
        Entry { index: 5, term: 6, command: Some(vec![1, 2, 3]), membership: None },
        Entry { index: 6, term: 7, command: None, membership: Some(change) },
    ];
    let messages = vec![
        Message::PreCampaign { last_index: 5, last_term: 6 },
        Message::PreCampaignResponse { vote: true },
        Message::Campaign { last_index: 5, last_term: 6 },
        Message::CampaignResponse { vote: false },
        Message::Heartbeat { last_index: 5, commit_index: 4, read_seq: 300 },
        Message::HeartbeatResponse { match_index: 5, read_seq: u64::MAX },
        Message::Append { base_index: 4, base_term: 6, entries },
        Message::AppendResponse { match_index: 5, reject_index: 0 },
        Message::Read { seq: 1 },
        Message::ReadResponse { seq: 1 },
        Message::InstallSnapshot {
            last_included_index: 9,
            last_included_term: 6,
            data: vec![7; 300],
            membership: MembershipEntry::Simple(Membership::from_iter(&[4])),
        },
        Message::InstallSnapshotResponse { last_included_index: 9 },
        Message::ClientRequest { id: 1 << 100, request: Request::Status },
        Message::ClientResponse { id: 3, response: Ok(Response::Read(vec![1])) },
    ];
    for message in messages {
        match passed(&sent(message.clone())) {
            WireMsg::Raft(envelope) => {
                assert_eq!((envelope.from, envelope.to, envelope.term), (1, 2, 7));
                assert_eq!(envelope.message, message);
            }
            other => panic!("{other:?}"),
        }
    }
}

#[test]
fn every_request_and_answer_passes_the_wire() {
    let requests = vec![
        Request::Read(vec![1, 2]),
        Request::Write(vec![]),
        Request::WriteSession { client_id: u128::MAX, seq: 9, command: vec![3] },
        Request::Status,
        Request::ChangeMembership { voters: HashSet::from([1, 2, 200]) },
    ];
    for request in requests {
        match passed(&WireMsg::Client { id: 77, request: request.clone() }) {
            WireMsg::Client { id: 77, request: got } => assert_eq!(got, request),
            other => panic!("{other:?}"),
        }
    }
    let answers = vec![
        Ok(Response::Read(vec![1])),
        Ok(Response::Write(vec![2])),
        Ok(Response::Status(status())),
        Ok(Response::ChangeMembership { index: 12 }),
        Err(Error::Abort),
        Err(Error::InvalidData("a".into())),
        Err(Error::InvalidInput("b".into())),
        Err(Error::IO("c".into())),
    ];
    for answer in answers {
        match passed(&WireMsg::ClientReply { id: 5, response: answer.clone() }) {
            WireMsg::ClientReply { id: 5, response } => assert_eq!(response, answer),
            other => panic!("{other:?}"),
        }
    }
}

#[test]
fn frames_start_with_their_length() {
    let frame = encode(&sent(Message::Read { seq: 1 })).unwrap();
    let length = (frame.len() - 4) as u32;
    assert_eq!(&frame[..4], &length.to_le_bytes());
    assert_eq!(frame_length(&[2, 1, 0, 0]), Ok(258));
    // 64 MiB is the most that a frame may hold.
    assert_eq!(frame_length(&[0, 0, 0, 4]), Ok(64 * 1024 * 1024));
    assert_eq!(
        frame_length(&[1, 0, 0, 4]),
        Err(Error::InvalidData("frame too large: 67108865".to_string()))
    );
}

#[test]
fn what_is_no_message_is_refused() {
    assert!(matches!(decode(&[]), Err(Error::InvalidData(_))));
    assert!(matches!(decode(&[3]), Err(Error::InvalidData(_))));
    let frame = encode(&sent(Message::Read { seq: 1 })).unwrap();
    assert!(decode(&frame[4..frame.len() - 1]).is_err());
}

#[test]
fn what_comes_in_is_told_apart() {
    match inbound(sent(Message::Read { seq: 1 })) {
        Inbound::Raft(envelope) => assert_eq!(envelope.message, Message::Read { seq: 1 }),
        _ => panic!("a peer's message"),
    }
    match inbound(WireMsg::Client { id: 4, request: Request::Status }) {
        Inbound::Client { id: 4, request } => assert_eq!(request, Request::Status),
        _ => panic!("a client's request"),
    }
    let stray = inbound(WireMsg::ClientReply { id: 4, response: Err(Error::Abort) });
    assert!(matches!(stray, Inbound::Stray));
}

#[test]
fn replies_answer_their_request() {
    let answer = Ok(Response::Write(vec![1]));
    assert_eq!(answer_of(4, reply(4, Some(answer.clone())), ""), answer);
    assert_eq!(answer_of(4, reply(4, None), ""), Err(Error::IO("request timed out".into())));
    let unexpected = Err(Error::InvalidData("unexpected reply: it".into()));
    assert_eq!(answer_of(5, reply(4, None), "it"), unexpected);
    let other = WireMsg::Client { id: 4, request: Request::Status };
    assert_eq!(answer_of(4, other, "it"), unexpected);
}

#[test]
fn unknown_bytes_are_named_in_the_error() {
    let config = bincode::config::standard();
    let told = |bytes: &[u8]| match decode(bytes) {
        Err(Error::InvalidData(text)) => text,
        other => panic!("{other:?}"),
    };
    let mut reply = vec![2, 16];
    reply.extend([0; 16]);
    reply.push(5);
    let outside =
        bincode::serde::decode_from_slice::<std::result::Result<u8, u8>, _>(&[5], config);
    assert_eq!(told(&reply), outside.unwrap_err().to_string());
    let outside = bincode::serde::decode_from_slice::<bool, _>(&[9], config);
    assert_eq!(told(&[0, 1, 1, 2, 1, 9]), outside.unwrap_err().to_string());
    assert_eq!(
        told(&[0, 1, 1, 2, 20]),
        "OtherString(\"invalid value: integer `20`, expected variant index 0 <= i < 14\")"
    );
    assert_eq!(
        told(&[3]),
        "OtherString(\"invalid value: integer `3`, expected variant index 0 <= i < 3\")"
    );
    assert_eq!(
        told(&[1, 3, 1, 2, 3, 4]),
        "OtherString(\"UUID parsing failed: invalid length: expected 16 bytes, found 3\")"
    );
    let outside = bincode::serde::decode_from_slice::<u8, _>(&[], config);
    assert_eq!(told(&[0]), outside.unwrap_err().to_string());
}
