//! A small peer-to-peer message overlay: agents greet each other, gossip
//! their peer tables, and broadcast text to every connected peer.
pub mod connection;
pub mod event;
pub mod peers;
pub mod reactor;
pub mod session;
mod tables;
pub mod types;

pub use connection::AgentId;
pub use peers::Peers;
pub use reactor::{Effect, Reactor};
pub use types::{Frame, FrameError, Message, Request};
