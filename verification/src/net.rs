//! The transport, as the server sees it: a listener that hands out
//! connections, and connections that take frames and give messages. Nothing
//! here blocks.
use crate::messages::ClientMessage;
use vstd::prelude::*;

verus! {

/// Why a listener handed out no connection.
#[derive(Clone, Copy, PartialEq, Eq, Structural, Debug)]
pub enum AcceptError {
    /// Nobody is waiting to connect right now.
    WouldBlock,
    /// The listener is broken: nobody will ever connect again.
    Fatal,
}

/// A frame could not be handed to the transport.
#[derive(Clone, Copy, PartialEq, Eq, Structural, Debug)]
pub struct SendError {}

/// One client's end of the transport.
pub trait Connection {
    /// Takes the messages that have arrived in full since the last call, in
    /// the order in which they arrived, and says whether the stream is
    /// closed. A stream with a malformed frame counts as closed.
    fn receive_cm(&mut self) -> (Vec<ClientMessage>, bool);

    /// Hands one frame to the transport.
    fn send(&mut self, bytes: &[u8]) -> Result<(), SendError>;
}

/// Where clients connect.
pub trait Listener {
    /// Takes the next connection that is waiting.
    fn accept(&mut self) -> Result<Box<dyn Connection>, AcceptError>;
}

} // verus!
