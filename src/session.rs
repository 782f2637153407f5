//! The per-connection protocol: each side greets with `Hello`, the first
//! frame it reads must be the other side's `Hello`, and after that only
//! messages are expected.
use crate::connection::AgentId;
use crate::types::{Frame, FrameError, Message};
use vstd::prelude::*;
use vstd::string::StringExecFns;

verus! {

/// How the first thing read is named in a rejection.
pub open spec fn described(first: Option<Result<Frame, FrameError>>) -> Seq<char> {
    match first {
        None => "the end of the stream"@,
        Some(Err(_)) => "an unreadable frame"@,
        Some(Ok(Frame::Hello(_))) => "Hello"@,
        Some(Ok(Frame::Message(_))) => "a message"@,
        Some(Ok(Frame::Error(_))) => "an error"@,
        Some(Ok(Frame::Goodbye)) => "Goodbye"@,
    }
}

/// The text sent back when a connection does not open with `Hello`.
pub open spec fn rejection(first: Option<Result<Frame, FrameError>>) -> Seq<char> {
    "Expected Hello, got "@ + described(first)
}

/// The frame a session sends first: its own identity.
pub fn greeting(me: &AgentId) -> (r: Frame)
    ensures
        r matches Frame::Hello(id) && id@ == me@,
{
    Frame::Hello(me.clone())
}

/// Decides a new connection on the first thing read from it. A `Hello`
/// makes the session ready, with the remote identity it names; anything
/// else (another frame, a broken frame, the end of the stream) is refused
/// with the `Error` frame to send before closing.
pub fn handshake(first: Option<Result<Frame, FrameError>>) -> (r: Result<AgentId, Frame>)
    ensures
        first matches Some(Ok(Frame::Hello(id))) ==> (r matches Ok(x) && x@ == id@),
        !(first matches Some(Ok(Frame::Hello(_)))) ==> (r matches Err(Frame::Error(text))
            && text@ == rejection(first)),
{
    let ghost seen = first;
    let what: &str = match &first {
        None => "the end of the stream",
        Some(Err(_)) => "an unreadable frame",
        Some(Ok(Frame::Hello(id))) => {
            return Ok(id.clone());
        },
        Some(Ok(Frame::Message(_))) => "a message",
        Some(Ok(Frame::Error(_))) => "an error",
        Some(Ok(Frame::Goodbye)) => "Goodbye",
    };
    let mut text = String::from_str("Expected Hello, got ");
    text.append(what);
    proof {
        assert(what@ == described(seen));
    }
    Err(Frame::Error(text))
}

/// Decides on one item read from a ready session: a message is handed to
/// the owner; anything else (a `Hello`, an `Error`, a `Goodbye`, a broken
/// frame, the end of the stream) ends the session.
pub fn inbound(item: Option<Result<Frame, FrameError>>) -> (r: Option<Message>)
    ensures
        item matches Some(Ok(Frame::Message(m))) ==> r == Some(m),
        !(item matches Some(Ok(Frame::Message(_)))) ==> r is None,
{
    match item {
        Some(Ok(Frame::Message(m))) => Some(m),
        _ => None,
    }
}

} // verus!
