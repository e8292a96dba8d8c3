use dpcore::protocol::message::{Body, ChatMessage, JoinMessage, Message, PrivateChatMessage};
use dpcore::protocol::serialization::DeserializationError;

#[test]
fn header_too_short() {
    assert_eq!(
        Message::deserialize(b"\x00\x00\x21"),
        Err(DeserializationError {
            user_id: 0,
            message_type: 0,
            payload_len: 0,
            error: "Message header too short",
        })
    );
}

#[test]
fn truncated_message() {
    assert_eq!(
        Message::deserialize(b"\x00\x05\x23\x01\x00"),
        Err(DeserializationError {
            user_id: 1,
            message_type: 0x23,
            payload_len: 5,
            error: "Message truncated",
        })
    );
}

#[test]
fn unknown_message_type() {
    assert_eq!(
        Message::deserialize(b"\x00\x00\xfe\x01"),
        Err(DeserializationError {
            user_id: 1,
            message_type: 0xfe,
            payload_len: 0,
            error: "Unknown message type",
        })
    );
}

#[test]
fn payload_length_out_of_bounds() {
    assert_eq!(
        Message::deserialize(b"\x00\x00\x23\x01"),
        Err(DeserializationError {
            user_id: 0,
            message_type: 0x23,
            payload_len: 0,
            error: "Invalid payload length",
        })
    );
}

#[test]
fn join_name_too_long() {
    assert_eq!(
        Message::deserialize(b"\x00\x03\x20\x01\x00\x05a"),
        Err(DeserializationError {
            user_id: 0,
            message_type: 0x20,
            payload_len: 3,
            error: "Join::name field is too long",
        })
    );
}

#[test]
fn invalid_utf8_is_replaced() {
    let m = Message::deserialize(b"\x00\x03\x23\x01\x00a\xff").unwrap();
    match m.body {
        Body::Chat(c) => assert_eq!(c.message, "a\u{fffd}"),
        _ => panic!("not a chat message"),
    }
}

#[test]
fn binary_roundtrip() {
    let messages = vec![
        Message {
            user_id: 9,
            body: Body::PrivateChat(PrivateChatMessage {
                target: 3,
                flags: 1,
                message: "psst".to_string(),
            }),
        },
        Message {
            user_id: 9,
            body: Body::Chat(ChatMessage {
                flags: 0,
                message: String::new(),
            }),
        },
        Message {
            user_id: 0,
            body: Body::Ping(true),
        },
        Message {
            user_id: 0,
            body: Body::LayerOrder(vec![1, 0x0102]),
        },
    ];
    for m in messages {
        let b = m.serialize();
        assert_eq!(Message::deserialize(&b).unwrap(), m);
    }
}

#[test]
fn join_header_declares_one_byte_less() {
    let m = Message {
        user_id: 2,
        body: Body::Join(JoinMessage {
            flags: 0,
            name: "ab".to_string(),
            avatar: vec![1],
        }),
    };
    let b = m.serialize();
    assert_eq!(b, b"\x00\x04\x20\x02\x00\x02ab\x01".to_vec());
    assert_eq!(Message::deserialize(&b).unwrap(), m);
}
