//! One request, one response: what is sent to a peer and what is made of
//! what comes back.

use crate::codec::{decode, decoded, encode, frame_len, is_frame, CodecError};
use crate::protocol::{Identity, Message, MessageView, MAX_MESSAGE_SIZE};
use vstd::prelude::*;

verus! {

/// Why a request did not get its response.
#[derive(Clone, Copy, Debug, PartialEq, Eq, Structural)]
pub enum LinkError {
    /// No connection to the peer could be made.
    ConnectionFailed,
    /// No response came before the deadline.
    Timeout,
    /// The response was no frame.
    MalformedFrame,
    /// The request, or the response, was longer than a frame may be.
    FrameTooLarge,
}

/// A frame and the peer to send it to.
#[derive(Debug, PartialEq, Eq)]
pub struct Outbound {
    pub target: Identity,
    pub frame: Vec<u8>,
}

/// How the exchange with a peer went.
#[derive(Debug, PartialEq, Eq)]
pub enum Transfer {
    /// The connection could not be made.
    ConnectFailed,
    /// The deadline passed without a response.
    TimedOut,
    /// These bytes came back.
    Received(Vec<u8>),
}

/// A link error for each codec error.
pub open spec fn link_error(e: CodecError) -> LinkError {
    match e {
        CodecError::FrameTooLarge => LinkError::FrameTooLarge,
        CodecError::MalformedFrame => LinkError::MalformedFrame,
    }
}

/// What a request ends with, given how its exchange went: the message that
/// came back, or the reason why none did.
pub open spec fn received(transfer: Transfer) -> Result<MessageView, LinkError> {
    match transfer {
        Transfer::ConnectFailed => Err(LinkError::ConnectionFailed),
        Transfer::TimedOut => Err(LinkError::Timeout),
        Transfer::Received(bytes) => match decoded(bytes@) {
            Ok(message) => Ok(message),
            Err(e) => Err(link_error(e)),
        },
    }
}

/// The result of a request with the message, if there is one, as mathematics.
pub open spec fn reply_view(r: Result<Message, LinkError>) -> Result<MessageView, LinkError> {
    match r {
        Ok(message) => Ok(message@),
        Err(e) => Err(e),
    }
}

/// Prepares the request `req` to `peer`: the frame to write once connected.
///
/// Fails with `FrameTooLarge`, before anything is sent, when the frame would
/// be longer than `MAX_MESSAGE_SIZE`.
pub fn send_helper(peer: &Identity, req: &Message) -> (r: Result<Outbound, LinkError>)
    ensures
        r is Ok <==> frame_len(req@) <= MAX_MESSAGE_SIZE,
        r matches Ok(out) ==> out.target == *peer && is_frame(out.frame@, req@) && out.frame@.len()
            <= MAX_MESSAGE_SIZE,
        r matches Err(e) ==> e == LinkError::FrameTooLarge,
{
    match encode(req) {
        Ok(frame) => Ok(Outbound { target: *peer, frame }),
        Err(_) => Err(LinkError::FrameTooLarge),
    }
}

/// Ends a request: turns what came back into the response, and what went
/// wrong into its error.
pub fn receive_helper(transfer: Transfer) -> (r: Result<Message, LinkError>)
    ensures
        reply_view(r) == received(transfer),
{
    match transfer {
        Transfer::ConnectFailed => Err(LinkError::ConnectionFailed),
        Transfer::TimedOut => Err(LinkError::Timeout),
        Transfer::Received(bytes) => match decode(bytes.as_slice()) {
            Ok(message) => Ok(message),
            Err(CodecError::FrameTooLarge) => Err(LinkError::FrameTooLarge),
            Err(CodecError::MalformedFrame) => Err(LinkError::MalformedFrame),
        },
    }
}

} // verus!
