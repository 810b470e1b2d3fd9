//! Command link protocol between a handheld controller and a remote vehicle:
//! the message codec and the decision logic of the radio loops.

pub mod buffer;
pub mod codec;
pub mod decimal;
pub mod link;
pub mod message;

pub use buffer::{Buffer, MAX_ENCODE_SIZE};
pub use codec::{decode_packet, DecodeError, EncodeError};
pub use message::{Body, Header, Message, Mode, VERSION};
