//! Events of the simple client and server protocol.
use vstd::prelude::*;

verus! {

/// What a client sends.
#[derive(Debug, Clone, PartialEq, Eq)]
pub enum ClientEvent {
    /// A line of text.
    Msg(String),
}

/// Why a connection of the client and server protocol failed.
#[derive(Debug)]
pub enum Error {
    /// The transport failed.
    Io(std::io::Error),
}

impl From<std::io::Error> for Error {
    fn from(e: std::io::Error) -> (r: Error)
        ensures
            r == Error::Io(e),
    {
        Error::Io(e)
    }
}

impl vstd::std_specs::convert::FromSpecImpl<std::io::Error> for Error {
    open spec fn obeys_from_spec() -> bool {
        true
    }

    open spec fn from_spec(e: std::io::Error) -> Error {
        Error::Io(e)
    }
}

} // verus!
