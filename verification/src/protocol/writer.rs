//! What recording files hold: the binary header with its metadata, and the
//! lines of a text recording.
//!
//! A binary recording starts with `DPREC`, a zero byte, the length of the
//! metadata JSON (16 bit big endian) and the JSON itself; the messages
//! follow in their binary encoding. A text recording starts with a
//! `!key=value` line for each metadata entry; each message follows on a
//! line (or block of lines) of its own.
use super::message::Message;
use super::reading::{header_ok, header_text, json_string_map, lemma_header_roundtrip};
use super::serialization::{dec_u16, enc_str, enc_u16, lemma_str_roundtrip, push_bytes, push_u16};
use super::textform::text_of;
use super::textmessage::{args_set_all, ArgsView};
use super::textfmt::{chars_to_string, push_str_chars};
use std::collections::HashMap;
use vstd::prelude::*;

verus! {

/// Why a binary recording header could not be made
#[derive(Debug, PartialEq, Eq)]
pub enum HeaderError {
    /// The metadata could not be written as JSON; the error's message
    Json(String),
    /// The metadata JSON is longer than the 65535 bytes a header can hold;
    /// its length
    TooLong(usize),
}

/// The bytes a binary recording starts with: `DPREC` and a zero byte
pub open spec fn magic() -> Seq<u8> {
    seq![68, 80, 82, 69, 67, 0]
}

/// A binary recording header holding the given metadata JSON
pub open spec fn header_bytes(json: Seq<u8>) -> Seq<u8> {
    magic() + enc_u16(json.len() as u16) + json
}

/// Frame metadata JSON as a binary recording header
pub fn frame_header(json: &str) -> (r: Result<Vec<u8>, HeaderError>)
    ensures
        r is Ok <==> enc_str(json@).len() <= 0xffff,
        r matches Ok(b) ==> b@ == header_bytes(enc_str(json@)),
        r matches Err(e) ==> e matches HeaderError::TooLong(n) && n == enc_str(json@).len(),
{
    let bytes = json.as_bytes();
    let mut out: Vec<u8> = Vec::new();
    push_bytes(&mut out, bytes);
    assert(out@ == enc_str(json@));
    if out.len() > 0xffff {
        return Err(HeaderError::TooLong(out.len()));
    }
    let mut r: Vec<u8> = vec![68, 80, 82, 69, 67, 0];
    push_u16(&mut r, out.len() as u16);
    push_bytes(&mut r, out.as_slice());
    assert(r@ =~= header_bytes(enc_str(json@)));
    Ok(r)
}

/// The metadata map as JSON text (`serde_json::to_string`), or the message
/// of the error it returns. The contract claims that a map of strings always
/// serializes (serde_json fails only on a failing `Serialize` impl or a
/// non-string map key) and that its JSON text parses back to the same
/// entries. The text itself is not stated: the entries come in the map's
/// iteration order, which depends on how its hasher was seeded.
#[verifier::external_body]
fn metadata_json(metadata: &HashMap<String, String>) -> (r: Result<String, String>)
    ensures
        match r {
            Ok(s) => json_string_map(s@) == Ok::<Map<Seq<char>, Seq<char>>, Seq<char>>(
                metadata.deep_view(),
            ),
            Err(_) => false,
        },
{
    serde_json::to_string(metadata).map_err(|e| e.to_string())
}

/// The binary recording header holding the metadata as JSON: a complete
/// header whose text reads back as the same entries; `TooLong` when the
/// JSON does not fit in a header
pub fn binary_header(metadata: &HashMap<String, String>) -> (r: Result<Vec<u8>, HeaderError>)
    ensures
        r matches Ok(b) ==> {
            &&& header_ok(b@)
            &&& b@.len() == 8 + dec_u16(b@, 6)
            &&& json_string_map(header_text(b@)) == Ok::<Map<Seq<char>, Seq<char>>, Seq<char>>(
                metadata.deep_view(),
            )
        },
        r matches Err(e) ==> e matches HeaderError::TooLong(n) && n > 0xffff && exists|t: Seq<
            char,
        >|
            json_string_map(t) == Ok::<Map<Seq<char>, Seq<char>>, Seq<char>>(metadata.deep_view())
                && #[trigger] enc_str(t).len() == n,
{
    match metadata_json(metadata) {
        Ok(json) => {
            let r = frame_header(json.as_str());
            proof {
                if r is Err {
                    assert(enc_str(json@).len() == enc_str(json@).len());
                }
                if r is Ok {
                    let b = r->Ok_0;
                    let j = enc_str(json@);
                    lemma_header_roundtrip(j, Seq::empty());
                    assert(b@ + Seq::<u8>::empty() =~= b@);
                    lemma_str_roundtrip(json@);
                }
            }
            r
        },
        Err(msg) => Err(HeaderError::Json(msg)),
    }
}

/// The metadata line of a text recording: `!key=value` and a newline
pub fn text_header_line(key: &str, value: &str) -> (s: String)
    ensures
        s@ == seq!['!'] + key@ + seq!['='] + value@ + seq!['\n'],
{
    let mut out: Vec<char> = Vec::new();
    out.push('!');
    push_str_chars(&mut out, key);
    out.push('=');
    push_str_chars(&mut out, value);
    out.push('\n');
    assert(out@ =~= seq!['!'] + key@ + seq!['='] + value@ + seq!['\n']);
    chars_to_string(out.as_slice())
}

/// The text of a message in a text recording: its text form and a newline
pub fn text_line(m: &Message) -> (s: String)
    ensures
        s@ == text_of(
            m.user_id,
            m.body.spec_text_name(),
            args_set_all(ArgsView::empty(), m.body.spec_text_pairs()),
            m.body.spec_text_dabs(),
        ) + seq!['\n'],
{
    let t = m.to_string();
    let mut out: Vec<char> = Vec::new();
    push_str_chars(&mut out, t.as_str());
    out.push('\n');
    chars_to_string(out.as_slice())
}

} // verus!
