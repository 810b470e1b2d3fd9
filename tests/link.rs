use protocol::link::{RadioEvent, Receiver, ReceiverAction, Transmitter, PAYLOAD_SIZE};
use protocol::{Body, DecodeError, Message, Mode};

#[test]
fn transmitter_ids_count_up_from_zero() {
    let mut tx = Transmitter::new();
    assert_eq!(tx.sequence(), 0);
    for expected in 0u32..20 {
        let frame = tx.next_frame(Body::Heartbeat);
        assert_eq!(frame.message, Message::new(expected, Body::Heartbeat));
    }
    assert_eq!(tx.sequence(), 20);
}

#[test]
fn transmitter_payload_is_encoding_then_zeros() {
    let mut tx = Transmitter::new();
    let frame = tx.next_frame(Body::Heartbeat);
    let encoded = Message::new(0, Body::Heartbeat).encode().unwrap();
    assert_eq!(frame.payload.len(), PAYLOAD_SIZE);
    assert_eq!(frame.length, encoded.len());
    assert_eq!(&frame.payload[..frame.length], encoded.as_bytes());
    assert!(frame.payload[frame.length..].iter().all(|b| *b == 0));
}

#[test]
fn transmitted_frame_is_received() {
    let mut tx = Transmitter::new();
    tx.next_frame(Body::Heartbeat);
    let frame = tx.next_frame(Body::Mode(Mode::Manual));
    let mut rx = Receiver::new();
    assert_eq!(rx.handle(RadioEvent::PacketReady(frame.length)), ReceiverAction::Read);
    assert!(rx.is_reading());
    let action = rx.handle(RadioEvent::PacketRead(frame.payload.clone()));
    assert_eq!(
        action,
        ReceiverAction::Deliver(Message::new(1, Body::Mode(Mode::Manual)), frame.length)
    );
    assert!(!rx.is_reading());
}

#[test]
fn receiver_poll_timeout_polls_again() {
    let mut rx = Receiver::new();
    assert_eq!(rx.handle(RadioEvent::PollTimedOut), ReceiverAction::Poll);
    assert!(!rx.is_reading());
    assert_eq!(rx.handle(RadioEvent::PollTimedOut), ReceiverAction::Poll);
}

#[test]
fn receiver_corrupted_packet_is_discarded() {
    let mut rx = Receiver::new();
    let garbage = b"{\"header\":{\"id\":1,\"vers#on\":0}}".to_vec();
    assert_eq!(rx.handle(RadioEvent::PacketReady(garbage.len())), ReceiverAction::Read);
    assert_eq!(
        rx.handle(RadioEvent::PacketRead(garbage)),
        ReceiverAction::Discard(DecodeError::Malformed)
    );
    assert!(!rx.is_reading());
    assert_eq!(rx.handle(RadioEvent::PollTimedOut), ReceiverAction::Poll);
}

#[test]
fn receiver_read_failure_polls_again() {
    let mut rx = Receiver::new();
    rx.handle(RadioEvent::PacketReady(20));
    assert_eq!(rx.handle(RadioEvent::ReadFailed), ReceiverAction::Poll);
    assert!(!rx.is_reading());
}

#[test]
fn receiver_ignores_bytes_it_did_not_ask_for() {
    let mut rx = Receiver::new();
    assert_eq!(rx.handle(RadioEvent::PacketRead(vec![1, 2, 3])), ReceiverAction::Poll);
}

#[test]
fn receiver_short_packet_is_discarded() {
    let mut rx = Receiver::new();
    rx.handle(RadioEvent::PacketReady(40));
    assert_eq!(
        rx.handle(RadioEvent::PacketRead(vec![b'{'; 10])),
        ReceiverAction::Discard(DecodeError::ShortPacket)
    );
}
