use vstd::prelude::*;

use crate::buffer::{bytes_of, MAX_ENCODE_SIZE};
use crate::codec::{decode_packet, encoding, lemma_encoding_fits, packet_decoded, DecodeError};
use crate::message::{Body, Message, VERSION};

verus! {

/// Size of the radio's physical payload.
pub const PAYLOAD_SIZE: usize = 255;

/// Centre frequency of the radio, in MHz.
pub const FREQUENCY: i64 = 433;

/// Transmit power level.
pub const TX_POWER: i32 = 17;

/// Amplifier output selector: 1 is the PA_BOOST pin.
pub const TX_OUTPUT_PIN: u8 = 1;

/// Pause between two transmitted messages, in milliseconds.
pub const TRANSMIT_INTERVAL_MS: u64 = 5000;

/// How long the receiver waits for a packet before it polls again, in milliseconds.
pub const POLL_TIMEOUT_MS: i32 = 5000;

/// Pause after a delivered message, in milliseconds.
pub const RECEIVE_PAUSE_MS: u64 = 100;

/// One message ready for the radio: the payload holds its encoding followed
/// by zeros, and `length` says how many bytes of it count.
pub struct Frame {
    pub message: Message,
    pub payload: Vec<u8>,
    pub length: usize,
}

/// The sequence number that follows `s`; it wraps at the 32-bit boundary.
pub open spec fn next_sequence(s: u32) -> u32 {
    if s == u32::MAX {
        0
    } else {
        (s + 1) as u32
    }
}

/// The ids that `n` consecutive frames carry when the first carries `start`.
pub open spec fn ids_sent(start: u32, n: nat) -> Seq<u32>
    decreases n,
{
    if n == 0 {
        Seq::<u32>::empty()
    } else {
        seq![start] + ids_sent(next_sequence(start), (n - 1) as nat)
    }
}

/// The `i`-th of `n` consecutive frames carries the id `start + i`, modulo 2^32.
pub proof fn lemma_ids_sent(start: u32, n: nat)
    ensures
        ids_sent(start, n).len() == n,
        forall|i: int| 0 <= i < n ==> #[trigger] ids_sent(start, n)[i] == ((start + i) % 0x1_0000_0000) as u32,
    decreases n,
{
    if n > 0 {
        let next = next_sequence(start);
        lemma_ids_sent(next, (n - 1) as nat);
        assert forall|i: int| 0 <= i < n implies #[trigger] ids_sent(start, n)[i] == ((start + i)
            % 0x1_0000_0000) as u32 by {
            if i > 0 {
                assert(ids_sent(start, n)[i] == ids_sent(next, (n - 1) as nat)[i - 1]);
                if start == u32::MAX {
                    assert((start + i) % 0x1_0000_0000 == (i - 1) % 0x1_0000_0000) by (nonlinear_arith)
                        requires
                            start == 0xffff_ffff,
                            i >= 1,
                    ;
                }
            }
        }
    }
}

/// From a fresh transmitter, whose next id is 0, `n` consecutive frames carry
/// the ids `0, 1, ..., n - 1`, modulo 2^32.
pub proof fn lemma_sequence_from_start(n: nat)
    ensures
        ids_sent(0, n) =~= Seq::new(n, |i: int| (i % 0x1_0000_0000) as u32),
{
    lemma_ids_sent(0, n);
}

/// The sending side: builds one frame per iteration and numbers them.
pub struct Transmitter {
    sequence: u32,
}

impl View for Transmitter {
    type V = u32;

    /// The id that the next frame carries.
    closed spec fn view(&self) -> u32 {
        self.sequence
    }
}

impl Transmitter {
    pub fn new() -> (r: Transmitter)
        ensures
            r@ == 0,
    {
        Transmitter { sequence: 0 }
    }

    /// The id that the next frame carries.
    pub fn sequence(&self) -> (r: u32)
        ensures
            r == self@,
    {
        self.sequence
    }

    /// Builds the frame that carries `body` with the next id, and moves on to
    /// the id after it.
    pub fn next_frame(&mut self, body: Body) -> (f: Frame)
        ensures
            f.message.header.id == old(self)@,
            f.message.header.version == VERSION,
            f.message.body == body,
            f.length == encoding(f.message).len(),
            f.payload@ == encoding(f.message) + Seq::new(
                (PAYLOAD_SIZE - f.length) as nat,
                |i: int| 0u8,
            ),
            final(self)@ == next_sequence(old(self)@),
    {
        let message = Message::new(self.sequence, body);
        proof {
            lemma_encoding_fits(message);
        }
        let mut payload: Vec<u8> = Vec::new();
        let mut length: usize = 0;
        if let Ok(text) = message.encode() {
            let bytes = bytes_of(&text);
            let mut i: usize = 0;
            while i < bytes.len()
                invariant
                    i <= bytes@.len(),
                    bytes@ == encoding(message),
                    payload@ == bytes@.take(i as int),
                decreases bytes@.len() - i,
            {
                payload.push(bytes[i]);
                i += 1;
                assert(bytes@.take(i as int) =~= bytes@.take(i - 1).push(bytes@[i - 1]));
            }
            assert(bytes@.take(i as int) =~= bytes@);
            length = bytes.len();
        }
        let ghost text = payload@;
        while payload.len() < PAYLOAD_SIZE
            invariant
                length == text.len(),
                length <= MAX_ENCODE_SIZE,
                length <= payload@.len() <= PAYLOAD_SIZE,
                payload@ == text + Seq::new((payload@.len() - length) as nat, |i: int| 0u8),
            decreases PAYLOAD_SIZE - payload@.len(),
        {
            payload.push(0);
            assert(payload@ =~= text + Seq::new((payload@.len() - length) as nat, |i: int| 0u8));
        }
        self.sequence = if self.sequence == u32::MAX {
            0
        } else {
            self.sequence + 1
        };
        Frame { message, payload, length }
    }
}

/// What the radio reported to the receiver.
pub enum RadioEvent {
    /// No packet came within the poll timeout, or the poll failed.
    PollTimedOut,
    /// A packet of the given size is waiting.
    PacketReady(usize),
    /// The waiting packet could not be read.
    ReadFailed,
    /// The bytes of the waiting packet.
    PacketRead(Vec<u8>),
}

/// What the receiver does next.
#[derive(PartialEq, Eq, Debug)]
pub enum ReceiverAction {
    /// Wait for a packet.
    Poll,
    /// Read the packet that is waiting.
    Read,
    /// Hand the message on, with the bytes its encoding took; then pause
    /// briefly and wait for the next packet.
    Deliver(Message, usize),
    /// Report why the packet was not a message, and wait for the next one.
    Discard(DecodeError),
}

/// The receiving side: waits for a packet, reads it and decodes it.
pub struct Receiver {
    waiting: Option<usize>,
}

impl View for Receiver {
    type V = Option<usize>;

    /// The size of the packet that is to be read, if the receiver is reading.
    closed spec fn view(&self) -> Option<usize> {
        self.waiting
    }
}

/// One step of the receiver: its next state and action, from its state and
/// what the radio reported.
pub open spec fn receiver_step(state: Option<usize>, event: RadioEvent) -> (Option<usize>, ReceiverAction) {
    match event {
        RadioEvent::PollTimedOut => (None, ReceiverAction::Poll),
        RadioEvent::PacketReady(n) => (Some(n), ReceiverAction::Read),
        RadioEvent::ReadFailed => (None, ReceiverAction::Poll),
        RadioEvent::PacketRead(bytes) => match state {
            None => (None, ReceiverAction::Poll),
            Some(n) => (
                None,
                match packet_decoded(bytes@, n as nat) {
                    Ok((m, c)) => ReceiverAction::Deliver(m, c as usize),
                    Err(e) => ReceiverAction::Discard(e),
                },
            ),
        },
    }
}

impl Receiver {
    pub fn new() -> (r: Receiver)
        ensures
            r@ is None,
    {
        Receiver { waiting: None }
    }

    /// Whether the receiver waits for the bytes of a packet.
    pub fn is_reading(&self) -> (r: bool)
        ensures
            r == self@ is Some,
    {
        self.waiting.is_some()
    }

    /// Takes what the radio reported and says what to do next. A timeout, a
    /// failed read or a packet that is no message sends the receiver back to
    /// waiting.
    pub fn handle(&mut self, event: RadioEvent) -> (a: ReceiverAction)
        ensures
            (final(self)@, a) == receiver_step(old(self)@, event),
    {
        match event {
            RadioEvent::PollTimedOut => {
                self.waiting = None;
                ReceiverAction::Poll
            },
            RadioEvent::PacketReady(n) => {
                self.waiting = Some(n);
                ReceiverAction::Read
            },
            RadioEvent::ReadFailed => {
                self.waiting = None;
                ReceiverAction::Poll
            },
            RadioEvent::PacketRead(bytes) => match self.waiting {
                None => ReceiverAction::Poll,
                Some(n) => {
                    self.waiting = None;
                    match decode_packet(bytes.as_slice(), n) {
                        Ok((m, c)) => ReceiverAction::Deliver(m, c),
                        Err(e) => ReceiverAction::Discard(e),
                    }
                },
            },
        }
    }
}

} // verus!
