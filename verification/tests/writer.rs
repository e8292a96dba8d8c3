use dpcore::protocol::message::{Body, JoinMessage, Message};
use dpcore::protocol::writer::{binary_header, text_header_line, text_line};
use std::collections::HashMap;

fn test_header() -> HashMap<String, String> {
    let mut header = HashMap::<String, String>::new();
    header.insert("version".to_string(), "1.0".to_string());
    header
}

fn test_message() -> Message {
    Message {
        user_id: 1,
        body: Body::Join(JoinMessage {
            flags: 0x03,
            name: "XYZ".to_string(),
            avatar: Vec::new(),
        }),
    }
}

#[test]
fn test_binary_writer() {
    let mut buf = binary_header(&test_header()).unwrap();
    buf.extend_from_slice(&test_message().serialize());

    assert_eq!(
        buf,
        &b"DPREC\0\0\x11{\"version\":\"1.0\"}\0\x04\x20\x01\x03\x03XYZ"[..]
    );
}

#[test]
fn test_text_writer() {
    let header = test_header();
    let mut buf = String::new();
    for (k, v) in header.iter() {
        buf.push_str(&text_header_line(k, v));
    }
    buf.push_str(&text_line(&test_message()));

    assert_eq!(buf, "!version=1.0\n1 join flags=auth,mod name=XYZ\n");
}
