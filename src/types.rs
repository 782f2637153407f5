//! The frames agents exchange, and what goes wrong reading or writing them.
use crate::connection::AgentId;
use vstd::prelude::*;

verus! {

#[verifier::external_type_specification]
#[verifier::external_body]
pub struct ExIoError(std::io::Error);

/// The application payload of a frame.
#[derive(Debug, Clone, PartialEq, Eq)]
pub enum Message {
    /// One textual broadcast.
    Broadcast(String),
    /// The sender's peer table: each agent it knows, with its distance.
    Peers(Vec<(AgentId, usize)>),
}

/// One frame of the protocol.
#[derive(Debug, Clone, PartialEq, Eq)]
pub enum Frame {
    /// The sender's identity, sent once at the start of a connection.
    Hello(AgentId),
    /// An application payload.
    Message(Message),
    /// A protocol diagnostic; advisory only.
    Error(String),
    /// A voluntary close.
    Goodbye,
}

/// Why reading or writing a frame failed.
#[derive(Debug)]
pub enum FrameError {
    /// The transport failed, or a frame's length is out of bounds.
    Io(std::io::Error),
    /// A frame's body could not be decoded.
    Codec(String),
}

impl From<std::io::Error> for FrameError {
    fn from(e: std::io::Error) -> (r: FrameError)
        ensures
            r == FrameError::Io(e),
    {
        FrameError::Io(e)
    }
}

impl vstd::std_specs::convert::FromSpecImpl<std::io::Error> for FrameError {
    open spec fn obeys_from_spec() -> bool {
        true
    }

    open spec fn from_spec(e: std::io::Error) -> FrameError {
        FrameError::Io(e)
    }
}

/// A request of the local embedder to its agent.
#[derive(Debug, Clone, PartialEq, Eq)]
pub enum Request {
    /// Broadcast this text to every peer and every observer.
    Broadcast(String),
    /// Register one more observer.
    Observe,
}

} // verus!
