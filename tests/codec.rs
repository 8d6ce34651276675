use chat_server::codec::{decode_frame, decode_message, encode_frame, encode_message, DecodeError};
use chat_server::protocol::ChatProtocol;

fn chat(sender: &str, text: &str) -> ChatProtocol {
    ChatProtocol::Message(sender.to_string(), text.to_string())
}

#[test]
fn payload_layout_of_joined() {
    let bytes = encode_message(&ChatProtocol::ClientJoined("ab".to_string()));
    assert_eq!(bytes, vec![1, 0, 0, 0, 2, 0, 0, 0, 0, 0, 0, 0, b'a', b'b']);
}

#[test]
fn payload_layout_of_chat() {
    let bytes = encode_message(&chat("a", "hi"));
    assert_eq!(
        bytes,
        vec![0, 0, 0, 0, 1, 0, 0, 0, 0, 0, 0, 0, b'a', 2, 0, 0, 0, 0, 0, 0, 0, b'h', b'i']
    );
}

#[test]
fn payload_layout_of_disconnected() {
    let bytes = encode_message(&ChatProtocol::ClientDisconnected(String::new()));
    assert_eq!(bytes, vec![2, 0, 0, 0, 0, 0, 0, 0, 0, 0, 0, 0]);
}

#[test]
fn frame_layout_has_big_endian_length() {
    let frame = encode_frame(&ChatProtocol::ClientJoined("ab".to_string()));
    assert_eq!(&frame[..4], &[0, 0, 0, 14]);
    assert_eq!(frame.len(), 18);
    assert_eq!(&frame[4..], &encode_message(&ChatProtocol::ClientJoined("ab".to_string()))[..]);
}

#[test]
fn payload_matches_bincode_layout() {
    let joined = bincode::serialize(&(1u32, "alice".to_string())).unwrap();
    assert_eq!(joined, encode_message(&ChatProtocol::ClientJoined("alice".to_string())));
    let message = bincode::serialize(&(0u32, "alice".to_string(), "hi".to_string())).unwrap();
    assert_eq!(message, encode_message(&chat("alice", "hi")));
    let left = bincode::serialize(&(2u32, "bob".to_string())).unwrap();
    assert_eq!(left, encode_message(&ChatProtocol::ClientDisconnected("bob".to_string())));
}

#[test]
fn bincode_reads_encoded_chat() {
    let bytes = encode_message(&chat("alice", "héllo"));
    let (tag, sender, text): (u32, String, String) = bincode::deserialize(&bytes).unwrap();
    assert_eq!(tag, 0);
    assert_eq!(sender, "alice");
    assert_eq!(text, "héllo");
}

#[test]
fn round_trip_of_every_variant() {
    let samples = vec![
        chat("alice", "hi"),
        chat("", ""),
        chat("zoë", "naïve — ☃ 🚀"),
        ChatProtocol::ClientJoined("bob".to_string()),
        ChatProtocol::ClientDisconnected("carol".to_string()),
    ];
    for m in samples {
        assert_eq!(decode_message(&encode_message(&m)), Ok(m.clone()));
        let frame = encode_frame(&m);
        assert_eq!(decode_frame(&frame), Ok((m.clone(), frame.len())));
    }
}

#[test]
fn frame_followed_by_another_is_read_alone() {
    let first = encode_frame(&chat("a", "one"));
    let second = encode_frame(&chat("b", "two"));
    let mut stream = first.clone();
    stream.extend_from_slice(&second);
    assert_eq!(decode_frame(&stream), Ok((chat("a", "one"), first.len())));
    assert_eq!(decode_frame(&stream[first.len()..]), Ok((chat("b", "two"), second.len())));
}

#[test]
fn decoded_text_is_not_the_raw_bytes() {
    let m = decode_message(&[1, 0, 0, 0, 2, 0, 0, 0, 0, 0, 0, 0, 0xc3, 0xa9]).unwrap();
    assert_eq!(m, ChatProtocol::ClientJoined("é".to_string()));
}

#[test]
fn truncated_frame_header() {
    assert_eq!(decode_frame(&[]), Err(DecodeError::TruncatedFrame));
    assert_eq!(decode_frame(&[0, 0, 0]), Err(DecodeError::TruncatedFrame));
}

#[test]
fn truncated_frame_body() {
    let frame = encode_frame(&chat("alice", "hi"));
    assert_eq!(decode_frame(&frame[..frame.len() - 1]), Err(DecodeError::TruncatedFrame));
    assert_eq!(decode_frame(&[0xff, 0xff, 0xff, 0xff, 1, 0, 0, 0]), Err(DecodeError::TruncatedFrame));
}

#[test]
fn unknown_variant() {
    assert_eq!(decode_message(&[3, 0, 0, 0]), Err(DecodeError::UnknownVariant));
    assert_eq!(
        decode_frame(&[0, 0, 0, 4, 7, 0, 0, 0]),
        Err(DecodeError::UnknownVariant)
    );
}

#[test]
fn malformed_payloads() {
    // no room for the tag
    assert_eq!(decode_message(&[1, 0]), Err(DecodeError::MalformedPayload));
    // string count longer than what follows
    assert_eq!(
        decode_message(&[1, 0, 0, 0, 5, 0, 0, 0, 0, 0, 0, 0, b'a']),
        Err(DecodeError::MalformedPayload)
    );
    // invalid UTF-8
    assert_eq!(
        decode_message(&[1, 0, 0, 0, 1, 0, 0, 0, 0, 0, 0, 0, 0xff]),
        Err(DecodeError::MalformedPayload)
    );
    // bytes left over after the fields
    assert_eq!(
        decode_message(&[1, 0, 0, 0, 1, 0, 0, 0, 0, 0, 0, 0, b'a', 0]),
        Err(DecodeError::MalformedPayload)
    );
    // a chat with only one field
    assert_eq!(
        decode_message(&[0, 0, 0, 0, 1, 0, 0, 0, 0, 0, 0, 0, b'a']),
        Err(DecodeError::MalformedPayload)
    );
    // a frame whose payload is malformed
    assert_eq!(decode_frame(&[0, 0, 0, 1, 0]), Err(DecodeError::MalformedPayload));
}
