use dpcore::canvas::compression::{check_inflated, tile_content, tile_from_bytes, TileContent};
use dpcore::convert::{output_format, Format};
use dpcore::protocol::reading::{
    header_end, message_end, metadata_line, read_header, text_items, ReadError, TextItem,
};
use dpcore::protocol::writer::{binary_header, frame_header, HeaderError};
use std::collections::HashMap;

fn adler32(data: &[u8]) -> u32 {
    let mut a: u32 = 1;
    let mut b: u32 = 0;
    for &x in data {
        a = (a + x as u32) % 65521;
        b = (b + a) % 65521;
    }
    (b << 16) | a
}

/// zlib data holding `data` in one stored (uncompressed) block
fn zlib_stored(data: &[u8]) -> Vec<u8> {
    let mut out = vec![0x78, 0x01, 0x01];
    let len = data.len() as u16;
    out.extend_from_slice(&len.to_le_bytes());
    out.extend_from_slice(&(!len).to_le_bytes());
    out.extend_from_slice(data);
    out.extend_from_slice(&adler32(data).to_be_bytes());
    out
}

#[test]
fn solid_tile_content() {
    assert_eq!(tile_content(b"\x80\x11\x22\x33"), Some(TileContent::Solid(0x80_112233)));
    assert_eq!(tile_content(b"\x80\x11\x22"), None);
}

#[test]
fn compressed_tile_content() {
    let pixels: Vec<u8> = (0..16384u32).map(|i| (i % 251) as u8).collect();
    let mut data = vec![0x00, 0x00, 0x40, 0x00];
    data.extend_from_slice(&zlib_stored(&pixels));
    assert_eq!(tile_content(&data), Some(TileContent::Pixels(pixels.clone())));

    let mut wrong_prefix = vec![0x00, 0x00, 0x40, 0x01];
    wrong_prefix.extend_from_slice(&zlib_stored(&pixels));
    assert_eq!(tile_content(&wrong_prefix), None);

    let mut short = vec![0x00, 0x00, 0x40, 0x00];
    short.extend_from_slice(&zlib_stored(&pixels[..100]));
    assert_eq!(tile_content(&short), None);

    let garbage = vec![0x00, 0x00, 0x40, 0x00, 1, 2, 3];
    assert_eq!(tile_content(&garbage), None);

    let data = tile_from_bytes(&pixels, 3);
    assert_eq!(data.pixels[0], 0x03020100);
    assert_eq!(data.last_touched_by, 3);
}

#[test]
fn inflated_length_is_checked() {
    assert_eq!(check_inflated(16384, Some(vec![0; 16384])), Some(vec![0; 16384]));
    assert_eq!(check_inflated(16384, Some(vec![0; 16383])), None);
    assert_eq!(check_inflated(16383, Some(vec![0; 16384])), None);
    assert_eq!(check_inflated(16384, None), None);
}

#[test]
fn output_format_guess() {
    assert!(output_format("-", Format::Guess) == Format::Text);
    assert!(output_format("rec.dptxt", Format::Guess) == Format::Text);
    assert!(output_format("rec.dprec", Format::Guess) == Format::Binary);
    assert!(output_format("dptxt", Format::Guess) == Format::Binary);
    assert!(output_format("rec.dptxt", Format::Binary) == Format::Binary);
    assert!(output_format("x", Format::Text) == Format::Text);
}

#[test]
fn header_framing() {
    assert_eq!(frame_header("{}").unwrap(), b"DPREC\0\0\x02{}".to_vec());
    let long = "x".repeat(70000);
    assert_eq!(frame_header(&long), Err(HeaderError::TooLong(70000)));
}

#[test]
fn header_reading() {
    let mut metadata = HashMap::new();
    metadata.insert("version".to_string(), "1.0".to_string());
    metadata.insert("writer".to_string(), "test".to_string());
    let mut buf = binary_header(&metadata).unwrap();
    let end = buf.len();
    buf.extend_from_slice(b"\x00\x00\x21\x80\x00\x01");
    assert_eq!(header_end(&buf), Some(end));
    let (read, pos) = read_header(&buf).unwrap();
    assert_eq!(read, metadata);
    assert_eq!(pos, end);
    assert_eq!(message_end(&buf, pos), Some(end + 4));
    assert_eq!(message_end(&buf, end + 4), None);
    assert_eq!(read_header(b"DPREC\0\0\x05{}"), Err(ReadError::NotARecording));
    assert_eq!(read_header(b"XPREC\0\0\x00"), Err(ReadError::NotARecording));
    assert!(matches!(read_header(b"DPREC\0\0\x02[]"), Err(ReadError::Metadata(_))));
}

#[test]
fn metadata_lines() {
    assert_eq!(metadata_line("!version=1.0"), Some(("version".to_string(), "1.0".to_string())));
    assert_eq!(metadata_line("!a=b=c"), Some(("a".to_string(), "b=c".to_string())));
    assert_eq!(metadata_line("version=1.0"), None);
    assert_eq!(metadata_line("!version"), None);
}

#[test]
fn text_recording_items() {
    let text = "!version=1.0\r\n1 join name=x\n\n  \n2 chat {\n\tmessage=a b\n}\n!k=v\n3 chat {\n\tmessage=unterminated";
    assert_eq!(
        text_items(text),
        vec![
            TextItem::Metadata("version".to_string(), "1.0".to_string()),
            TextItem::Message("1 join name=x".to_string()),
            TextItem::Message("2 chat {\n\tmessage=a b\n}".to_string()),
            TextItem::Metadata("k".to_string(), "v".to_string()),
        ]
    );
}

use dpcore::protocol::message::{Body, Message};
use dpcore::protocol::reading::read_messages;

#[test]
fn read_messages_splits_a_binary_recording() {
    let first = Message { user_id: 1, body: Body::PenUp }.serialize();
    let second = Message { user_id: 2, body: Body::CanvasBackground(vec![1, 2, 3, 4]) }.serialize();
    let mut buf = vec![9, 9];
    buf.extend_from_slice(&first);
    buf.extend_from_slice(&second);
    // a message of an unknown type with an empty payload
    buf.extend_from_slice(&[0, 0, 250, 3]);
    let (ms, cut) = read_messages(&buf, 2);
    assert_eq!(ms.len(), 3);
    assert_eq!(ms[0].as_ref().unwrap(), &Message { user_id: 1, body: Body::PenUp });
    assert_eq!(ms[1].as_ref().unwrap().user_id, 2);
    assert!(ms[2].is_err());
    assert!(!cut);
    // the last message cut short
    let (ms, cut) = read_messages(&buf[..buf.len() - 1], 2);
    assert_eq!(ms.len(), 2);
    assert!(cut);
    let (ms, cut) = read_messages(&buf, buf.len());
    assert!(ms.is_empty() && !cut);
}
