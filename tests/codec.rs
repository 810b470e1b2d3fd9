use protocol::{decode_packet, Body, Buffer, DecodeError, Message, Mode};

fn encode_decode(message: Message) {
    let encoded = message.encode();
    assert!(encoded.is_ok());

    let encoded = encoded.unwrap();
    let encoded_len = encoded.len();

    let decoded = Message::decode(encoded);
    assert!(decoded.is_ok());
    let (decoded, decoded_len) = decoded.unwrap();

    assert_eq!(encoded_len, decoded_len);
    assert_eq!(message, decoded);
}

fn text(s: &str) -> Buffer {
    Buffer::try_from(s).unwrap()
}

fn all_bodies() -> Vec<Body> {
    let mut bodies = vec![
        Body::Mode(Mode::Off),
        Body::Mode(Mode::Manual),
        Body::Mode(Mode::Rth),
        Body::Heartbeat,
    ];
    for v in [0u8, 1, 9, 10, 99, 100, 127, 254, 255] {
        bodies.push(Body::Gas(v));
        bodies.push(Body::Rotation(v));
    }
    bodies
}

#[test]
fn encode_and_decode_all_bodies() {
    encode_decode(Message::new(1, Body::Gas(127)));
    encode_decode(Message::new(2, Body::Rotation(0)));
    encode_decode(Message::new(4, Body::Mode(Mode::Rth)));
}

#[test]
fn round_trip_every_body_at_boundary_ids() {
    for id in [0u32, 1, u32::MAX] {
        for body in all_bodies() {
            encode_decode(Message::new(id, body));
        }
    }
}

#[test]
fn encodes_as_compact_json() {
    let gas = Message::new(1, Body::Gas(127)).encode().unwrap();
    assert_eq!(gas.as_str(), r#"{"header":{"id":1,"version":0},"body":{"Gas":127}}"#);
    let rotation = Message::new(2, Body::Rotation(0)).encode().unwrap();
    assert_eq!(
        rotation.as_str(),
        r#"{"header":{"id":2,"version":0},"body":{"Rotation":0}}"#
    );
    let mode = Message::new(4, Body::Mode(Mode::Rth)).encode().unwrap();
    assert_eq!(mode.as_str(), r#"{"header":{"id":4,"version":0},"body":{"Mode":"Rth"}}"#);
    let beat = Message::new(4294967295, Body::Heartbeat).encode().unwrap();
    assert_eq!(
        beat.as_str(),
        r#"{"header":{"id":4294967295,"version":0},"body":"Heartbeat"}"#
    );
}

#[test]
fn encoding_is_deterministic() {
    for body in all_bodies() {
        let a = Message::new(7, body).encode().unwrap();
        let b = Message::new(7, body).encode().unwrap();
        assert_eq!(a.as_bytes(), b.as_bytes());
    }
}

#[test]
fn largest_message_fits_capacity() {
    let mut longest = 0;
    for body in all_bodies() {
        let len = Message::new(u32::MAX, body).encode().unwrap().len();
        assert!(len <= protocol::MAX_ENCODE_SIZE);
        if len > longest {
            longest = len;
        }
    }
    assert_eq!(longest, 65);
}

#[test]
fn decodes_a_message_written_by_hand() {
    let (m, n) =
        Message::decode(text(r#"{"header":{"id":42,"version":0},"body":{"Mode":"Manual"}}"#))
            .unwrap();
    assert_eq!(m, Message::new(42, Body::Mode(Mode::Manual)));
    assert_eq!(n, 57);
}

#[test]
fn decode_reports_consumed_length_before_trailing_bytes() {
    let encoded = Message::new(3, Body::Heartbeat).encode().unwrap();
    let len = encoded.len();
    let mut padded = encoded.clone();
    padded.push_str("  trailing").unwrap();
    let (m, n) = Message::decode(padded).unwrap();
    assert_eq!(m, Message::new(3, Body::Heartbeat));
    assert_eq!(n, len);
}

#[test]
fn decode_rejects_empty_input() {
    assert_eq!(Message::decode(text("")), Err(DecodeError::Malformed));
}

#[test]
fn decode_rejects_every_truncation() {
    let encoded = Message::new(12345, Body::Mode(Mode::Off)).encode().unwrap();
    let s = encoded.as_str();
    for cut in 0..s.len() {
        assert_eq!(Message::decode(text(&s[..cut])), Err(DecodeError::Malformed));
    }
}

#[test]
fn decode_rejects_invalid_input() {
    let bad = [
        "not json at all",
        r#"{"header":{"id":1,"version":0},"body":{"Gas":256}}"#,
        r#"{"header":{"id":4294967296,"version":0},"body":"Heartbeat"}"#,
        r#"{"header":{"id":1,"version":65536},"body":"Heartbeat"}"#,
        r#"{"header":{"id":01,"version":0},"body":"Heartbeat"}"#,
        r#"{"header":{"id":1,"version":0},"body":{"Mode":"Auto"}}"#,
        r#"{"header":{"id":1,"version":0},"body":{"Brake":1}}"#,
        r#"{"header":{"id":1,"version":0},"body":"Heartbeat""#,
        r#"{"header":{"version":0},"body":"Heartbeat"}"#,
        r#"{"header":{"id":-1,"version":0},"body":"Heartbeat"}"#,
    ];
    for b in bad {
        assert_eq!(Message::decode(text(b)), Err(DecodeError::Malformed), "{}", b);
    }
}

#[test]
fn decode_accepts_largest_values() {
    let (m, _) = Message::decode(text(
        r#"{"header":{"id":4294967295,"version":65535},"body":{"Rotation":255}}"#,
    ))
    .unwrap();
    assert_eq!(m.header.id, u32::MAX);
    assert_eq!(m.header.version, u16::MAX);
    assert_eq!(m.body, Body::Rotation(255));
}

#[test]
fn packet_with_zero_padding_decodes() {
    let encoded = Message::new(9, Body::Gas(200)).encode().unwrap();
    let mut packet = [0u8; 255];
    packet[..encoded.len()].copy_from_slice(encoded.as_bytes());
    let (m, n) = decode_packet(&packet, encoded.len()).unwrap();
    assert_eq!(m, Message::new(9, Body::Gas(200)));
    assert_eq!(n, encoded.len());
}

#[test]
fn packet_errors() {
    let packet = [b'{'; 10];
    assert_eq!(decode_packet(&packet, 11), Err(DecodeError::ShortPacket));
    let long = [b' '; 300];
    assert_eq!(decode_packet(&long, 256), Err(DecodeError::Oversized));
    let binary = [0xffu8, 0x00, 0x12];
    assert_eq!(decode_packet(&binary, 3), Err(DecodeError::NotAscii));
    assert_eq!(decode_packet(&packet, 10), Err(DecodeError::Malformed));
    assert_eq!(decode_packet(&packet, 0), Err(DecodeError::Malformed));
}
