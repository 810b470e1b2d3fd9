use vstd::prelude::*;

verus! {

/// Protocol version written by this codec generation.
pub const VERSION: u16 = 0;

/// Operating mode that the vehicle is told to take.
#[derive(PartialEq, Eq, Structural, Debug, Clone, Copy)]
pub enum Mode {
    /// Turn the vehicle off.
    Off,
    /// The vehicle is driven by the user through the controller.
    Manual,
    /// The vehicle returns to the controller.
    Rth,
}

/// Payload of a message.
#[derive(PartialEq, Eq, Structural, Debug, Clone, Copy)]
pub enum Body {
    /// Forward or backward: 0 is full backward, 127 neutral, 255 full forward.
    Gas(u8),
    /// Left or right: 0 is full left, 127 neutral, 255 full right.
    Rotation(u8),
    /// Mode the vehicle must switch to.
    Mode(Mode),
    /// Liveness signal without control payload.
    Heartbeat,
}

#[derive(PartialEq, Eq, Structural, Debug, Clone, Copy)]
pub struct Header {
    pub id: u32,
    pub version: u16,
}

/// The unit of exchange over the radio link.
#[derive(PartialEq, Eq, Structural, Debug, Clone, Copy)]
pub struct Message {
    pub header: Header,
    pub body: Body,
}

impl Message {
    /// A message with the given sequence id, the current protocol version and `body`.
    pub fn new(id: u32, body: Body) -> (r: Message)
        ensures
            r.header.id == id,
            r.header.version == VERSION,
            r.body == body,
    {
        Message { header: Header { id, version: VERSION }, body }
    }
}

} // verus!
