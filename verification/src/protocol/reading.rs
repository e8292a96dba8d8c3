//! Reading recording files: the binary header and the extent of each
//! message in a binary recording, and the metadata lines of a text one.
use super::message::Message;
use super::pieces::{split_on, split_ranges};
use super::textfmt::{chars_eq, chars_to_string, first_index, first_index_exec, push_chars, str_chars};
use super::serialization::{
    dec_str, dec_u16, enc_u16, lemma_u16_at, read_str, read_u16, DeserializationError,
};
use super::writer::{header_bytes, magic};
use std::collections::HashMap;
use vstd::prelude::*;

verus! {

/// Why a recording could not be read
#[derive(Debug, PartialEq, Eq)]
pub enum ReadError {
    /// The file does not start with a binary recording header
    NotARecording,
    /// The header's metadata is not a JSON object of strings; the error's message
    Metadata(String),
}

/// The entries of a JSON object of strings as `serde_json::from_str` reads
/// them into a map, or the message of the error it returns
pub uninterp spec fn json_string_map(json: Seq<char>) -> Result<Map<Seq<char>, Seq<char>>, Seq<char>>;

/// `serde_json::from_str` into a map of strings, with the error turned into
/// its message. The contract claims that the map's entries, or the message,
/// depend on the text alone (`json_string_map`); what they are is not stated.
#[verifier::external_body]
fn metadata_from_json(json: &str) -> (r: Result<HashMap<String, String>, String>)
    ensures
        match r {
            Ok(m) => json_string_map(json@) == Ok::<Map<Seq<char>, Seq<char>>, Seq<char>>(
                m.deep_view(),
            ),
            Err(e) => json_string_map(json@) == Err::<Map<Seq<char>, Seq<char>>, Seq<char>>(e@),
        },
{
    serde_json::from_str(json).map_err(|e| e.to_string())
}

/// Whether a buffer starts with a complete binary recording header
pub open spec fn header_ok(b: Seq<u8>) -> bool {
    &&& b.len() >= 8
    &&& b.subrange(0, 6) == magic()
    &&& b.len() >= 8 + dec_u16(b, 6)
}

/// Where the metadata JSON of a binary recording header ends, which is
/// where the first message starts; `None` when the buffer does not start
/// with a complete header
pub fn header_end(buf: &[u8]) -> (r: Option<usize>)
    ensures
        r is Some <==> header_ok(buf@),
        r matches Some(e) ==> e == 8 + dec_u16(buf@, 6),
{
    if buf.len() < 8 {
        return None;
    }
    let m: Vec<u8> = vec![68, 80, 82, 69, 67, 0];
    let mut i: usize = 0;
    while i < 6
        invariant
            i <= 6,
            buf@.len() >= 8,
            m@ == magic(),
            forall|j: int| 0 <= j < i ==> buf@[j] == m@[j],
        decreases 6 - i,
    {
        if buf[i] != m[i] {
            assert(buf@.subrange(0, 6)[i as int] != magic()[i as int]);
            return None;
        }
        i += 1;
    }
    assert(buf@.subrange(0, 6) =~= magic());
    let len = read_u16(buf, 6) as usize;
    if buf.len() < 8 + len {
        return None;
    }
    Some(8 + len)
}

/// The metadata text of a binary recording header: the bytes after the
/// header's length field, decoded as UTF-8
pub open spec fn header_text(b: Seq<u8>) -> Seq<char> {
    dec_str(b.subrange(8, 8 + dec_u16(b, 6)))
}

/// The metadata of a binary recording and where its first message starts
pub fn read_header(buf: &[u8]) -> (r: Result<(HashMap<String, String>, usize), ReadError>)
    ensures
        !header_ok(buf@) ==> r == Err::<(HashMap<String, String>, usize), ReadError>(
            ReadError::NotARecording,
        ),
        header_ok(buf@) ==> match json_string_map(header_text(buf@)) {
            Ok(entries) => r matches Ok((m, e)) && m.deep_view() == entries && e == 8 + dec_u16(
                buf@,
                6,
            ),
            Err(msg) => r matches Err(ReadError::Metadata(s)) && s@ == msg,
        },
{
    match header_end(buf) {
        None => Err(ReadError::NotARecording),
        Some(end) => {
            let json = read_str(buf, 8, end);
            match metadata_from_json(json.as_str()) {
                Ok(map) => Ok((map, end)),
                Err(msg) => Err(ReadError::Metadata(msg)),
            }
        },
    }
}

/// Where the message starting at `pos` ends: its four header bytes and the
/// payload length its header declares; `None` when the buffer ends first
pub fn message_end(buf: &[u8], pos: usize) -> (r: Option<usize>)
    requires
        pos <= buf@.len(),
    ensures
        r is Some <==> (pos + 4 <= buf@.len() && pos + 4 + dec_u16(buf@, pos as int) <= buf@.len()),
        r matches Some(e) ==> e == pos + 4 + dec_u16(buf@, pos as int),
{
    if buf.len() - pos < 4 {
        return None;
    }
    let len = read_u16(buf, pos) as usize;
    if buf.len() - pos - 4 < len {
        return None;
    }
    Some(pos + 4 + len)
}

/// The extents `[start, end)` of the messages of a binary recording from
/// `pos` on, each as its header declares, up to the end of the buffer or to
/// a message that the buffer cuts short
pub open spec fn frames(buf: Seq<u8>, pos: int) -> Seq<(int, int)>
    decreases buf.len() - pos,
{
    if 0 <= pos && pos + 4 <= buf.len() && pos + 4 + dec_u16(buf, pos) <= buf.len() {
        seq![(pos, pos + 4 + dec_u16(buf, pos))] + frames(buf, pos + 4 + dec_u16(buf, pos))
    } else {
        Seq::empty()
    }
}

/// Whether the messages from `pos` on end with one that the buffer cuts
/// short
pub open spec fn cut_short(buf: Seq<u8>, pos: int) -> bool
    decreases buf.len() - pos,
{
    if 0 <= pos && pos + 4 <= buf.len() && pos + 4 + dec_u16(buf, pos) <= buf.len() {
        cut_short(buf, pos + 4 + dec_u16(buf, pos))
    } else {
        0 <= pos < buf.len()
    }
}

/// What decoding the bytes of one message gives (see `Message::deserialize`)
pub open spec fn decoded(bytes: Seq<u8>, r: Result<Message, DeserializationError>) -> bool {
    match r {
        Ok(m) => Message::spec_ok(bytes) && m.spec_decodes(bytes),
        Err(e) => !Message::spec_ok(bytes) && e == Message::spec_error(bytes),
    }
}

/// Split the messages of a binary recording, from `pos` (where the header
/// ends) on, and decode each: the results in order, one per message that
/// the buffer holds whole, and whether the buffer ends inside a message
pub fn read_messages(buf: &[u8], pos: usize) -> (r: (Vec<Result<Message, DeserializationError>>, bool))
    requires
        pos <= buf@.len(),
    ensures
        r.0@.len() == frames(buf@, pos as int).len(),
        forall|i: int|
            0 <= i < r.0@.len() ==> decoded(
                buf@.subrange(frames(buf@, pos as int)[i].0, frames(buf@, pos as int)[i].1),
                #[trigger] r.0@[i],
            ),
        r.1 == cut_short(buf@, pos as int),
{
    let ghost all = frames(buf@, pos as int);
    let mut out: Vec<Result<Message, DeserializationError>> = Vec::new();
    let mut at = pos;
    while at < buf.len()
        invariant
            at <= buf@.len(),
            all == frames(buf@, pos as int),
            out@.len() + frames(buf@, at as int).len() == all.len(),
            forall|i: int| 0 <= i < frames(buf@, at as int).len() ==> #[trigger] frames(buf@, at as int)[i]
                == all[out@.len() + i],
            forall|i: int|
                0 <= i < out@.len() ==> decoded(buf@.subrange(all[i].0, all[i].1), #[trigger] out@[i]),
            cut_short(buf@, at as int) == cut_short(buf@, pos as int),
        decreases buf@.len() - at,
    {
        match message_end(buf, at) {
            None => {
                return (out, true);
            },
            Some(end) => {
                let ghost rest = frames(buf@, end as int);
                assert(frames(buf@, at as int) == seq![(at as int, end as int)] + rest);
                let r = Message::deserialize(vstd::slice::slice_subrange(buf, at, end));
                let ghost k: int = out@.len() as int;
                assert(frames(buf@, at as int)[0] == all[k + 0]);
                out.push(r);
                proof {
                    assert(all[k] == (at as int, end as int));
                    assert forall|i: int| 0 <= i < rest.len() implies #[trigger] rest[i]
                        == all[out@.len() + i] by {
                        assert(rest[i] == frames(buf@, at as int)[i + 1]);
                    }
                }
                at = end;
            },
        }
    }
    (out, false)
}

/// The key and value of a text recording's metadata line `!key=value`;
/// `None` for a line that is not one
pub fn metadata_line(line: &str) -> (r: Option<(String, String)>)
    ensures
        (line@.len() >= 1 && line@[0] == '!' && line@.contains('=')) <==> r is Some,
        r matches Some((k, v)) ==> line@ == seq!['!'] + k@ + seq!['='] + v@ && !k@.contains('='),
{
    let chars = crate::protocol::textfmt::str_chars(line);
    if chars.len() == 0 || chars[0] != '!' {
        return None;
    }
    let e = crate::protocol::textfmt::first_index_exec(chars.as_slice(), '=');
    proof {
        crate::protocol::pieces::lemma_first_index_bounds(chars@, '=');
    }
    if e == chars.len() {
        return None;
    }
    let k = crate::protocol::textfmt::chars_to_string(vstd::slice::slice_subrange(chars.as_slice(), 1, e));
    let v = crate::protocol::textfmt::chars_to_string(
        vstd::slice::slice_subrange(chars.as_slice(), e + 1, chars.len()),
    );
    proof {
        assert(chars@ =~= seq!['!'] + k@ + seq!['='] + v@);
        if k@.contains('=') {
            let j = choose|j: int| 0 <= j < k@.len() && k@[j] == '=';
            assert(chars@[j + 1] == '=');
        }
    }
    Some((k, v))
}

/// A header framed from metadata JSON reads back: it is complete, and the
/// first message starts right after the JSON
pub proof fn lemma_header_roundtrip(json: Seq<u8>, rest: Seq<u8>)
    requires
        json.len() <= 0xffff,
    ensures
        header_ok(header_bytes(json) + rest),
        8 + dec_u16(header_bytes(json) + rest, 6) == header_bytes(json).len(),
        (header_bytes(json) + rest).subrange(8, 8 + json.len() as int) == json,
{
    let b = header_bytes(json) + rest;
    assert(b.subrange(0, 6) =~= magic());
    assert(b.subrange(6, 8) =~= enc_u16(json.len() as u16));
    lemma_u16_at(b, 6, json.len() as u16);
    assert(b.subrange(8, 8 + json.len() as int) =~= json);
}

/// What follows a complete header does not change how it reads: the
/// metadata text and where the first message starts are those of the header
/// alone.
pub proof fn lemma_metadata_roundtrip(header: Seq<u8>, rest: Seq<u8>)
    requires
        header_ok(header),
        header.len() == 8 + dec_u16(header, 6),
    ensures
        header_ok(header + rest),
        8 + dec_u16(header + rest, 6) == header.len(),
        header_text(header + rest) == header_text(header),
{
    let b = header + rest;
    assert(b.subrange(0, 6) =~= header.subrange(0, 6));
    assert(b[6] == header[6] && b[7] == header[7]);
    assert(b.subrange(8, header.len() as int) =~= header.subrange(8, header.len() as int));
}

/// An encoded message (other than a join message, whose header declares one
/// byte less than its payload) ends where its encoding ends
pub proof fn lemma_message_extent(m: Message, rest: Seq<u8>)
    requires
        m.spec_valid(),
        !(m.body is Join),
    ensures
        m.spec_bytes().len() <= (m.spec_bytes() + rest).len(),
        4 + dec_u16(m.spec_bytes() + rest, 0) == m.spec_bytes().len(),
{
    let p = m.body.spec_payload();
    let b = m.spec_bytes() + rest;
    m.lemma_payload_fits();
    let d = m.body.spec_declared_len();
    assert(b.subrange(0, 2) =~= enc_u16(d));
    lemma_u16_at(b, 0, d);
}

/// A metadata line written for a key without `=` reads back as its key and value
pub proof fn lemma_metadata_line_roundtrip(k: Seq<char>, v: Seq<char>)
    requires
        !k.contains('='),
    ensures
        ({
            let line = seq!['!'] + k + seq!['='] + v;
            &&& line.len() >= 1 && line[0] == '!' && line.contains('=')
            &&& forall|k2: Seq<char>, v2: Seq<char>|
                line == seq!['!'] + k2 + seq!['='] + v2 && !k2.contains('=') ==> k2 == k && v2 == v
        }),
{
    let line = seq!['!'] + k + seq!['='] + v;
    assert(line[k.len() as int + 1] == '=');
    assert forall|k2: Seq<char>, v2: Seq<char>|
        line == seq!['!'] + k2 + seq!['='] + v2 && !k2.contains('=') implies k2 == k && v2 == v by {
        if k2.len() < k.len() {
            assert(line[k2.len() as int + 1] == '=');
            assert(k[k2.len() as int] == '=');
        } else if k2.len() > k.len() {
            assert(line[k.len() as int + 1] == '=');
            assert(k2[k.len() as int] == '=');
        }
        assert(k2 =~= line.subrange(1, k.len() as int + 1));
        assert(k =~= line.subrange(1, k.len() as int + 1));
        assert(v2 =~= line.subrange(k.len() as int + 2, line.len() as int));
        assert(v =~= line.subrange(k.len() as int + 2, line.len() as int));
    }
}

// ---------------------------------------------------------------------------
// Text recordings
// ---------------------------------------------------------------------------

/// An item of a text recording: a metadata entry, or the text of a message
#[derive(Debug, PartialEq, Eq)]
pub enum TextItem {
    Metadata(String, String),
    Message(String),
}

/// A text recording item as character sequences: `(true, key, value)` for
/// metadata, `(false, text, empty)` for a message
pub type ItemView = (bool, Seq<char>, Seq<char>);

pub open spec fn item_view(i: TextItem) -> ItemView {
    match i {
        TextItem::Metadata(k, v) => (true, k@, v@),
        TextItem::Message(t) => (false, t@, Seq::empty()),
    }
}

/// The views of text recording items
pub open spec fn items_view(v: Seq<TextItem>) -> Seq<ItemView> {
    Seq::new(v.len(), |i: int| item_view(v[i]))
}

/// A line without the carriage return that ends it, if any
pub open spec fn line_of(l: Seq<char>) -> Seq<char> {
    if l.len() > 0 && l.last() == '\r' {
        l.drop_last()
    } else {
        l
    }
}

/// A line of spaces and tabs only
pub open spec fn is_blank(l: Seq<char>) -> bool {
    forall|i: int| 0 <= i < l.len() ==> l[i] == ' ' || l[i] == '\t'
}

/// A line that opens a block: it ends with ` {`
pub open spec fn opens_block(l: Seq<char>) -> bool {
    l.len() >= 2 && l[l.len() - 2] == ' ' && l[l.len() - 1] == '{'
}

/// A metadata line `!key=value` (the key holds no `=`)
pub open spec fn is_metadata(l: Seq<char>) -> bool {
    l.len() >= 1 && l[0] == '!' && first_index(l, '=') < l.len()
}

/// Reading one line: inside a block it is added to the block, and a `}`
/// line ends the block, which becomes a message; otherwise a metadata line
/// is an entry, a line that opens a block starts one, a blank line is
/// skipped, and any other line is a message
pub open spec fn items_step(st: (Seq<ItemView>, Option<Seq<char>>), l: Seq<char>) -> (
    Seq<ItemView>,
    Option<Seq<char>>,
) {
    match st.1 {
        Some(b) => {
            let b2 = b + seq!['\n'] + l;
            if l == seq!['}'] {
                (st.0.push((false, b2, Seq::empty())), None)
            } else {
                (st.0, Some(b2))
            }
        },
        None => if is_metadata(l) {
            let e = first_index(l, '=');
            (st.0.push((true, l.subrange(1, e), l.subrange(e + 1, l.len() as int))), None)
        } else if opens_block(l) {
            (st.0, Some(l))
        } else if is_blank(l) {
            st
        } else {
            (st.0.push((false, l, Seq::empty())), None)
        },
    }
}

/// Reading lines in order
pub open spec fn items_fold(lines: Seq<Seq<char>>) -> (Seq<ItemView>, Option<Seq<char>>)
    decreases lines.len(),
{
    if lines.len() == 0 {
        (Seq::empty(), None)
    } else {
        items_step(items_fold(lines.drop_last()), line_of(lines.last()))
    }
}

/// The items of a text recording (a block left open at the end is dropped)
pub open spec fn text_items_of(text: Seq<char>) -> Seq<ItemView> {
    items_fold(split_on(text, '\n')).0
}

fn blank_exec(l: &[char]) -> (r: bool)
    ensures
        r == is_blank(l@),
{
    let mut i: usize = 0;
    while i < l.len()
        invariant
            i <= l@.len(),
            forall|j: int| 0 <= j < i ==> l@[j] == ' ' || l@[j] == '\t',
        decreases l@.len() - i,
    {
        if l[i] != ' ' && l[i] != '\t' {
            return false;
        }
        i += 1;
    }
    true
}

/// The items of a text recording, in order
pub fn text_items(text: &str) -> (r: Vec<TextItem>)
    ensures
        items_view(r@) == text_items_of(text@),
{
    let chars = str_chars(text);
    let lines = split_ranges(chars.as_slice(), '\n');
    let ghost ls = split_on(chars@, '\n');
    let mut items: Vec<TextItem> = Vec::new();
    let mut block: Option<Vec<char>> = None;
    let mut i: usize = 0;
    proof {
        assert(ls.take(0) =~= Seq::<Seq<char>>::empty());
        assert(items_view(items@) =~= Seq::<ItemView>::empty());
    }
    while i < lines.len()
        invariant
            i <= lines@.len(),
            ls == split_on(chars@, '\n'),
            lines@.len() == ls.len(),
            forall|m: int|
                #![trigger lines@[m]]
                0 <= m < lines@.len() ==> lines@[m].0 <= lines@[m].1 <= chars@.len() && ls[m]
                    == chars@.subrange(lines@[m].0 as int, lines@[m].1 as int),
            items_view(items@) == items_fold(ls.take(i as int)).0,
            match block {
                Some(b) => items_fold(ls.take(i as int)).1 == Some(b@),
                None => items_fold(ls.take(i as int)).1 is None,
            },
        decreases lines@.len() - i,
    {
        let (a, b) = lines[i];
        let raw = vstd::slice::slice_subrange(chars.as_slice(), a, b);
        let l = if raw.len() > 0 && raw[raw.len() - 1] == '\r' {
            vstd::slice::slice_subrange(raw, 0, raw.len() - 1)
        } else {
            raw
        };
        let ghost before = items_view(items@);
        let ghost st = items_fold(ls.take(i as int));
        proof {
            assert(ls.take(i + 1).drop_last() =~= ls.take(i as int));
            assert(ls.take(i + 1).last() == raw@);
            assert(l@ =~= line_of(raw@));
        }
        let close: Vec<char> = vec!['}'];
        assert(close@ =~= seq!['}']);
        match block {
            Some(mut bl) => {
                let ghost old_block = bl@;
                assert(st.1 == Some(old_block));
                bl.push('\n');
                push_chars(&mut bl, l);
                assert(bl@ =~= old_block + seq!['\n'] + l@);
                if chars_eq(l, close.as_slice()) {
                    let t = chars_to_string(bl.as_slice());
                    items.push(TextItem::Message(t));
                    proof {
                        assert(items_view(items@) =~= before.push(
                            (false, bl@, Seq::empty()),
                        ));
                    }
                    assert(items_view(items@) == items_step(st, l@).0);
                    block = None;
                } else {
                    assert(items_view(items@) == items_step(st, l@).0);
                    block = Some(bl);
                }
            },
            None => {
                let e = first_index_exec(l, '=');
                if l.len() >= 1 && l[0] == '!' && e < l.len() {
                    let k = chars_to_string(vstd::slice::slice_subrange(l, 1, e));
                    let v = chars_to_string(vstd::slice::slice_subrange(l, e + 1, l.len()));
                    items.push(TextItem::Metadata(k, v));
                    proof {
                        assert(items_view(items@) =~= before.push(
                            (true, k@, v@),
                        ));
                    }
                    assert(items_view(items@) == items_step(st, l@).0);
                } else if l.len() >= 2 && l[l.len() - 2] == ' ' && l[l.len() - 1] == '{' {
                    let mut bl: Vec<char> = Vec::new();
                    push_chars(&mut bl, l);
                    block = Some(bl);
                    assert(items_view(items@) == items_step(st, l@).0);
                } else if blank_exec(l) {
                    assert(items_view(items@) == items_step(st, l@).0);
                } else {
                    let t = chars_to_string(l);
                    items.push(TextItem::Message(t));
                    proof {
                        assert(items_view(items@) =~= before.push(
                            (false, l@, Seq::empty()),
                        ));
                    }
                    assert(items_view(items@) == items_step(st, l@).0);
                }
            },
        }
        assert(items_view(items@) == items_step(st, l@).0);
        assert(items_fold(ls.take(i + 1)) == items_step(st, l@));
        i += 1;
    }
    proof {
        assert(ls.take(i as int) =~= ls);
    }
    items
}

} // verus!
