//! What is done with the messages of a connection.

use vstd::prelude::*;

use super::codec::WireMsg;
use crate::error::{Error, Result};
use crate::raft::message::{Envelope, Request, Response};

verus! {

/// What came in on a connection.
pub enum Inbound {
    /// A message of a peer, for the node.
    Raft(Envelope),
    /// A request of a client, to be answered on the connection under its
    /// identifier.
    Client { id: u128, request: Request },
    /// A reply, which nobody waits for here.
    Stray,
}

/// Says what a message that came in on a listening connection is.
pub fn inbound(msg: WireMsg) -> (r: Inbound)
    ensures
        match msg {
            WireMsg::Raft(envelope) => r == Inbound::Raft(envelope),
            WireMsg::Client { id, request } => r == (Inbound::Client { id, request }),
            WireMsg::ClientReply { .. } => r == Inbound::Stray,
        },
{
    match msg {
        WireMsg::Raft(envelope) => Inbound::Raft(envelope),
        WireMsg::Client { id, request } => Inbound::Client { id, request },
        WireMsg::ClientReply { .. } => Inbound::Stray,
    }
}

/// The reply to a client's request: the node's answer, or an error if none came in
/// time.
pub fn reply(id: u128, answer: Option<Result<Response>>) -> (r: WireMsg)
    ensures
        match answer {
            Some(response) => r == (WireMsg::ClientReply { id, response }),
            None => r matches WireMsg::ClientReply { id: of, response: Err(Error::IO(text)) } && of
                == id && text@ == "request timed out"@,
        },
{
    match answer {
        Some(response) => WireMsg::ClientReply { id, response },
        None => WireMsg::ClientReply {
            id,
            response: Err(Error::IO("request timed out".to_string())),
        },
    }
}

/// The answer to the request `id`, from the first message that came back. Another
/// message is named in the error, by the text that it is printed as.
pub fn answer_of(id: u128, msg: WireMsg, printed: &str) -> (r: Result<Response>)
    ensures
        match msg {
            WireMsg::ClientReply { id: of, response } if of == id => r == response,
            _ => r matches Err(Error::InvalidData(text)) && text@ == "unexpected reply: "@
                + printed@,
        },
{
    match msg {
        WireMsg::ClientReply { id: of, response } => {
            if of == id {
                return response;
            }
        },
        _ => {},
    }
    let mut text = "unexpected reply: ".to_string();
    text.append(printed);
    Err(Error::InvalidData(text))
}

} // verus!
