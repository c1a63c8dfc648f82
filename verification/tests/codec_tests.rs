use file_protocol::{decode_message, encode_message, Message, ProtocolError};

fn round_trip(msg: Message) {
    let bytes = encode_message(&msg).unwrap();
    let back = decode_message(&bytes).unwrap();
    assert_eq!(back, msg);
}

#[test]
fn round_trip_sync() {
    round_trip(Message::Sync(String::from("deadbeef")));
}

#[test]
fn round_trip_metadata() {
    round_trip(Message::Metadata(String::from("deadbeef"), 42));
}

#[test]
fn round_trip_receive_chunk() {
    round_trip(Message::ReceiveChunk(String::from("deadbeef"), 7, vec![1, 2, 3, 4, 5]));
    round_trip(Message::ReceiveChunk(String::from("deadbeef"), 0, Vec::new()));
    round_trip(Message::ReceiveChunk(String::from("ff"), 1, vec![0u8; 4096]));
}

#[test]
fn round_trip_ack() {
    round_trip(Message::ACK(String::from("deadbeef")));
}

#[test]
fn round_trip_nak() {
    round_trip(Message::NAK(String::from("deadbeef"), None));
    round_trip(Message::NAK(String::from("deadbeef"), Some(Vec::new())));
    round_trip(Message::NAK(String::from("deadbeef"), Some(vec![(3, 4), (7, 8)])));
}

#[test]
fn round_trip_req_receive() {
    round_trip(Message::ReqReceive(42, String::from("abcd"), String::from("/tmp/out.bin"), None));
    round_trip(Message::ReqReceive(
        42,
        String::from("abcd"),
        String::from("/tmp/out.bin"),
        Some(0o644),
    ));
}

#[test]
fn round_trip_req_transmit() {
    round_trip(Message::ReqTransmit(42, String::from("/a.bin")));
}

#[test]
fn round_trip_success_receive() {
    round_trip(Message::SuccessReceive(42));
}

#[test]
fn round_trip_success_transmit() {
    round_trip(Message::SuccessTransmit(42, String::from("abcd"), 3, None));
    round_trip(Message::SuccessTransmit(42, String::from("abcd"), 3, Some(0)));
}

#[test]
fn round_trip_failure() {
    round_trip(Message::Failure(7, String::from("file not found")));
}

#[test]
fn round_trip_non_ascii_strings() {
    round_trip(Message::Failure(1, String::from("datei nicht gefunden: \u{00e4}\u{20ac}")));
}

#[test]
fn encoding_is_exact_for_sync() {
    let bytes = encode_message(&Message::Sync(String::from("ab"))).unwrap();
    assert_eq!(bytes, vec![0u8, 0, 0, 0, 2, b'a', b'b']);
}

#[test]
fn encoding_is_exact_for_metadata() {
    let bytes = encode_message(&Message::Metadata(String::from("a"), 0x0102_0304)).unwrap();
    assert_eq!(bytes, vec![1u8, 0, 0, 0, 1, b'a', 1, 2, 3, 4]);
}

#[test]
fn encoding_is_exact_for_success_receive() {
    let bytes = encode_message(&Message::SuccessReceive(0x0102_0304_0506_0708)).unwrap();
    assert_eq!(bytes, vec![7u8, 1, 2, 3, 4, 5, 6, 7, 8]);
}

#[test]
fn encode_rejects_oversized_chunk() {
    let msg = Message::ReceiveChunk(String::from("ff"), 0, vec![0u8; 4097]);
    assert_eq!(encode_message(&msg), Err(ProtocolError::Decode));
}

#[test]
fn decode_rejects_empty_input() {
    assert_eq!(decode_message(&[]), Err(ProtocolError::Decode));
}

#[test]
fn decode_rejects_unknown_tag() {
    assert_eq!(decode_message(&[10u8, 0, 0, 0, 0]), Err(ProtocolError::Decode));
}

#[test]
fn decode_rejects_truncated_input() {
    let mut bytes = encode_message(&Message::Sync(String::from("abcd"))).unwrap();
    bytes.pop();
    assert_eq!(decode_message(&bytes), Err(ProtocolError::Decode));
}

#[test]
fn decode_rejects_trailing_bytes() {
    let mut bytes = encode_message(&Message::Sync(String::from("abcd"))).unwrap();
    bytes.push(0);
    assert_eq!(decode_message(&bytes), Err(ProtocolError::Decode));
}

#[test]
fn decode_rejects_invalid_utf8() {
    // Sync with a one-byte string field that is not valid UTF-8
    assert_eq!(decode_message(&[0u8, 0, 0, 0, 1, 0xff]), Err(ProtocolError::Decode));
}

#[test]
fn decode_rejects_oversized_chunk() {
    // ReceiveChunk with a 4097-byte payload violates the chunk cap
    let mut bytes = vec![2u8, 0, 0, 0, 1, b'a', 0, 0, 0, 0, 0, 0, 0x10, 0x01];
    bytes.extend(std::iter::repeat(0u8).take(4097));
    assert_eq!(decode_message(&bytes), Err(ProtocolError::Decode));
}
